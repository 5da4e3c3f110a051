use vstd::prelude::*;
use vstd::seq_lib::*;
use std::collections::{HashMap, HashSet};
use kurbo::{PathSeg, Point};
use crate::algo::Param;
use crate::dynamic::{
    choice, choose_next, chosen_among, ends_of, intersection, is_cut, is_ends_of,
    lemma_chosen_is_candidate,
    ranked, traced, turn_key, Ends, Flow, IntersectData, Piece, Turn,
};
use crate::mesh::{
    has_handle, has_point, maps_points, points_below, points_without, row_segment, row_shape, segments_below,
    shape_of, MMesh,
    PointData, PointId, SegmentData, SegmentId, SegmentIndex, SegmentRow,
};
use crate::util::{angle_to, control_points, distance, point_distance, segment_points};
use crate::walk::{
    back, forth, is_face, is_ring, lemma_ring_faces, links_wf, ring_ahead, ring_behind, step_at,
    step_in, trace_faces, Step,
};

verus! {

broadcast use vstd::std_specs::hash::group_hash_axioms;

/// The way along a segment: from its first point to its last, or back.
#[derive(Clone, Copy, Debug, PartialEq, Eq, Hash, Structural)]
pub enum Direction {
    StartToEnd,
    EndToStart,
}

/// The colours that a region can be filled with.
#[derive(Clone, Copy, Debug, PartialEq, Eq, Hash, Structural)]
pub enum XColor {
    Red,
    Green,
    Yellow,
    Blue,
    Brown,
    Gray,
    Blank,
}

/// Ends of pieces that lie less than this apart become one point of the graph:
/// three units, as a binary64 pattern.
pub const WELD_DISTANCE: u64 = 0x4008_0000_0000_0000;

/// A drawing as it is laid out from pieces: its points and segments, the
/// segment of the first drawing that each segment was cut from, and the number
/// that the next identifier will be.
pub struct Layout {
    pub points: Seq<(PointId, Point)>,
    pub segments: Seq<SegmentRow>,
    pub parents: Seq<SegmentId>,
    pub counter: nat,
}

/// The piece at `k` goes on where the piece before it ended: both were cut from
/// the same segment, and from the same half of it.
pub open spec fn continues(parts: Seq<Piece>, k: int) -> bool {
    k > 0 && parts[k - 1].parent == parts[k].parent && parts[k - 1].part == parts[k].part
}

/// The layout with one more piece, with the control points `shape`. The start
/// of the piece is a new point, or, where the piece goes on from the one before
/// it, the end of that one. Then come its handles and its end as new points, and
/// last the segment itself; each takes the next identifier.
pub open spec fn place(before: Layout, shape: Seq<Point>, parent: SegmentId, linked: bool) -> Layout {
    let fresh = PointId(before.counter as usize);
    let points1 = if linked {
        before.points
    } else {
        before.points.push((fresh, shape[0]))
    };
    let count1 = if linked {
        before.counter
    } else {
        before.counter + 1
    };
    let start = if linked {
        before.segments.last().p4
    } else {
        fresh
    };
    let points2 = if shape.len() >= 3 {
        points1.push((PointId(count1 as usize), shape[1]))
    } else {
        points1
    };
    let first = if shape.len() >= 3 {
        Some(PointId(count1 as usize))
    } else {
        None
    };
    let count2 = if shape.len() >= 3 {
        count1 + 1
    } else {
        count1
    };
    let points3 = if shape.len() >= 4 {
        points2.push((PointId(count2 as usize), shape[2]))
    } else {
        points2
    };
    let second = if shape.len() >= 4 {
        Some(PointId(count2 as usize))
    } else {
        None
    };
    let count3 = if shape.len() >= 4 {
        count2 + 1
    } else {
        count2
    };
    let end = PointId(count3 as usize);
    Layout {
        points: points3.push((end, shape.last())),
        segments: before.segments.push(
            SegmentRow { id: SegmentId((count3 + 1) as usize), p1: start, p2: first, p3: second, p4: end },
        ),
        parents: before.parents.push(parent),
        counter: count3 + 2,
    }
}

/// The layout of the first `k` pieces.
pub open spec fn laid_out(parts: Seq<Piece>, k: int) -> Layout
    decreases k,
{
    if k <= 0 {
        Layout { points: Seq::empty(), segments: Seq::empty(), parents: Seq::empty(), counter: 0 }
    } else {
        place(
            laid_out(parts, k - 1),
            control_points(parts[k - 1].segment),
            parts[k - 1].parent,
            continues(parts, k - 1),
        )
    }
}

/// The point is a handle of one of the segments.
pub open spec fn is_handle(rows: Seq<SegmentRow>, id: PointId) -> bool {
    exists|r: int|
        0 <= r < rows.len() && ((#[trigger] rows[r]).p2 == Some(id) || rows[r].p3 == Some(id))
}

/// The first of the points of `mains` from `from` on that lies less than the
/// weld distance from `p`.
pub open spec fn first_near(mains: Seq<(PointId, Point)>, p: Point, from: int) -> Option<int>
    decreases mains.len() - from,
{
    if from < 0 || from >= mains.len() {
        None
    } else if distance(mains[from].1, p) < WELD_DISTANCE {
        Some(from)
    } else {
        first_near(mains, p, from + 1)
    }
}

/// What welding has come to: the points that stay, and for each point that
/// goes the point that stands for it.
pub struct Welding {
    pub mains: Seq<(PointId, Point)>,
    pub merged: Map<usize, PointId>,
}

/// The welding of the first `k` points. Handles are left alone. A point that
/// lies near a point that stays goes, and the first such point stands for it;
/// a point that lies near none of them stays.
pub open spec fn welding(points: Seq<(PointId, Point)>, rows: Seq<SegmentRow>, k: int) -> Welding
    decreases k,
{
    if k <= 0 {
        Welding { mains: Seq::empty(), merged: Map::empty() }
    } else {
        let before = welding(points, rows, k - 1);
        let point = points[k - 1];
        if is_handle(rows, point.0) || before.merged.contains_key(point.0@) {
            before
        } else {
            match first_near(before.mains, point.1, 0) {
                Some(j) => Welding {
                    mains: before.mains,
                    merged: before.merged.insert(point.0@, before.mains[j].0),
                },
                None => Welding { mains: before.mains.push(point), merged: before.merged },
            }
        }
    }
}

/// The point that stands for a point after welding: itself where it stays.
pub open spec fn welded_id(merged: Map<usize, PointId>, id: PointId) -> PointId {
    if merged.contains_key(id@) {
        merged[id@]
    } else {
        id
    }
}

/// The segments with their starts and ends welded; handles stay as they are.
pub open spec fn welded_rows(rows: Seq<SegmentRow>, merged: Map<usize, PointId>) -> Seq<SegmentRow> {
    Seq::new(
        rows.len(),
        |r: int|
            SegmentRow {
                p1: welded_id(merged, rows[r].p1),
                p4: welded_id(merged, rows[r].p4),
                ..rows[r]
            },
    )
}

/// `graph` is the planar graph of the cut drawing `parts`: the drawing laid out
/// from the parts and welded. `parents` says for each segment of the graph, and
/// for nothing else, which segment the part was cut from.
pub open spec fn is_planar_graph(parts: Seq<Piece>, graph: MMesh, parents: Map<usize, SegmentId>) -> bool {
    let laid = laid_out(parts, parts.len() as int);
    let merged = welding(laid.points, laid.segments, laid.points.len() as int).merged;
    &&& graph.counter() == laid.counter
    &&& graph.segments() == welded_rows(laid.segments, merged)
    &&& graph.points() == points_without(laid.points, merged.dom())
    &&& forall|r: int|
        0 <= r < laid.segments.len() ==> parents.contains_key((#[trigger] laid.segments[r]).id@)
    &&& forall|k: usize|
        #[trigger] parents.contains_key(k) ==> exists|r: int|
            0 <= r < laid.segments.len() && (#[trigger] laid.segments[r]).id@ == k && parents[k]
                == laid.parents[r]
}

/// Every point that stays, and every point that stands for another, has an
/// identifier below `bound`.
pub open spec fn welding_below(w: Welding, bound: nat) -> bool {
    &&& forall|j: int| 0 <= j < w.mains.len() ==> (#[trigger] w.mains[j]).0@ < bound
    &&& forall|k: usize| #[trigger] w.merged.contains_key(k) ==> w.merged[k]@ < bound
}

/// Welding hands out no identifier: what stays and what stands for another was
/// a point before.
pub proof fn lemma_welding_below(
    points: Seq<(PointId, Point)>,
    rows: Seq<SegmentRow>,
    k: int,
    bound: nat,
)
    requires
        points_below(points, bound),
        k <= points.len(),
    ensures
        welding_below(welding(points, rows, k), bound),
    decreases k,
{
    if k > 0 {
        lemma_welding_below(points, rows, k - 1, bound);
        let before = welding(points, rows, k - 1);
        let point = points[k - 1];
        assert(point.0@ < bound);
        if !(is_handle(rows, point.0) || before.merged.contains_key(point.0@)) {
            match first_near(before.mains, point.1, 0) {
                Some(j) => {
                    lemma_first_near(before.mains, point.1, 0);
                },
                None => {},
            }
        }
    }
}

/// What `first_near` finds is a point of `mains`.
pub proof fn lemma_first_near(mains: Seq<(PointId, Point)>, p: Point, from: int)
    requires
        0 <= from,
    ensures
        first_near(mains, p, from) matches Some(j) ==> from <= j < mains.len(),
    decreases mains.len() - from,
{
    if from < mains.len() && !(distance(mains[from].1, p) < WELD_DISTANCE) {
        lemma_first_near(mains, p, from + 1);
    }
}

impl MMesh {
    /// The drawing laid out from the pieces of a cut drawing: each piece becomes
    /// a segment with points of its own, but that a piece which goes on from the
    /// piece before it starts at the end of that one. The second result says, for
    /// each new segment in turn, which segment of the first drawing it was cut
    /// from.
    pub fn lay_out(parts: &IntersectData) -> (laid: (MMesh, Vec<SegmentId>))
        requires
            parts@.len() < usize::MAX / 8,
        ensures
            laid.0.wf(),
            laid.0.points() == laid_out(parts@, parts@.len() as int).points,
            laid.0.segments() == laid_out(parts@, parts@.len() as int).segments,
            laid.0.counter() == laid_out(parts@, parts@.len() as int).counter,
            laid.1@ == laid_out(parts@, parts@.len() as int).parents,
    {
        let mut mesh = MMesh::empty();
        let mut parents: Vec<SegmentId> = Vec::new();
        let mut last_end = PointId(0);
        let mut last_parent = SegmentId(0);
        let mut last_part = None;
        let mut k: usize = 0;
        while k < parts.len()
            invariant
                parts@.len() < usize::MAX / 8,
                k <= parts@.len(),
                mesh.wf(),
                mesh.counter() <= 6 * k,
                mesh.points() == laid_out(parts@, k as int).points,
                mesh.segments() == laid_out(parts@, k as int).segments,
                mesh.counter() == laid_out(parts@, k as int).counter,
                parents@ == laid_out(parts@, k as int).parents,
                mesh.segments().len() == k,
                k > 0 ==> last_end == mesh.segments().last().p4 && has_point(
                    mesh.points(),
                    last_end,
                ) && last_parent == parts@[k - 1].parent && last_part == parts@[k - 1].part,
            decreases parts@.len() - k,
        {
            let piece = parts.piece(k);
            let shape = segment_points(&piece.segment);
            let same_part = match (last_part, piece.part) {
                (None, None) => true,
                (Some(a), Some(b)) => a == b,
                _ => false,
            };
            let linked = k > 0 && last_parent == piece.parent && same_part;
            assert(linked == continues(parts@, k as int));
            let ghost before = laid_out(parts@, k as int);
            let ghost after = place(before, shape@, piece.parent, linked);
            assert(laid_out(parts@, k + 1) == after);
            let start = if linked {
                last_end
            } else {
                mesh.append_point(shape[0])
            };
            let ghost start_at = if linked {
                choose|i: int| 0 <= i < mesh.points().len() && (#[trigger] mesh.points()[i]).0 == start
            } else {
                mesh.points().len() - 1
            };
            assert(mesh.points()[start_at].0 == start);
            let first = if shape.len() >= 3 {
                Some(mesh.append_point(shape[1]))
            } else {
                None
            };
            let ghost first_at = mesh.points().len() - 1;
            let second = if shape.len() >= 4 {
                Some(mesh.append_point(shape[2]))
            } else {
                None
            };
            let ghost second_at = mesh.points().len() - 1;
            let end = mesh.append_point(shape[shape.len() - 1]);
            proof {
                let rows = mesh.points();
                assert(rows[start_at].0 == start);
                assert(rows[rows.len() - 1].0 == end);
                if first.is_some() {
                    assert(rows[first_at].0 == first.unwrap());
                }
                if second.is_some() {
                    assert(rows[second_at].0 == second.unwrap());
                }
            }
            let added = mesh.append_segment(start, first, second, end);
            assert(added.is_some());
            parents.push(piece.parent);
            proof {
                assert(mesh.points() == after.points);
                assert(mesh.segments() == after.segments);
                let rows = mesh.points();
                assert(rows[rows.len() - 1].0 == end);
            }
            last_end = end;
            last_parent = piece.parent;
            last_part = piece.part;
            k += 1;
        }
        (mesh, parents)
    }

    /// The identifiers of the handles of all segments.
    fn handles(&self) -> (set: HashSet<usize>)
        requires
            self.wf(),
        ensures
            forall|x: usize| #[trigger] set@.contains(x) <==> is_handle(self.segments(), PointId(x)),
    {
        let mut set: HashSet<usize> = HashSet::new();
        let mut r: usize = 0;
        while r < self.segment_count()
            invariant
                self.wf(),
                r <= self.segments().len(),
                forall|x: usize|
                    #[trigger] set@.contains(x) <==> is_handle(
                        self.segments().take(r as int),
                        PointId(x),
                    ),
            decreases self.segments().len() - r,
        {
            let row = self.segment_row(r);
            let ghost before = set@;
            match row.p2 {
                Some(id) => {
                    set.insert(id.0);
                },
                None => {},
            }
            match row.p3 {
                Some(id) => {
                    set.insert(id.0);
                },
                None => {},
            }
            proof {
                let upto = self.segments().take(r as int);
                let next = self.segments().take(r + 1);
                assert forall|x: usize| #[trigger] set@.contains(x) <==> is_handle(
                    next,
                    PointId(x),
                ) by {
                    let id = PointId(x);
                    if is_handle(upto, id) {
                        let at = choose|at: int|
                            0 <= at < upto.len() && ((#[trigger] upto[at]).p2 == Some(id)
                                || upto[at].p3 == Some(id));
                        assert(next[at] == upto[at]);
                    }
                    if row.p2 == Some(id) || row.p3 == Some(id) {
                        assert(next[r as int] == row);
                    }
                    if is_handle(next, id) {
                        let at = choose|at: int|
                            0 <= at < next.len() && ((#[trigger] next[at]).p2 == Some(id)
                                || next[at].p3 == Some(id));
                        if at < r {
                            assert(upto[at] == next[at]);
                        }
                    }
                }
            }
            r += 1;
        }
        assert(self.segments().take(r as int) == self.segments());
        set
    }

    /// Welds the drawing: of the points that are not handles, each that lies
    /// near a point kept before it goes, and the segments that start or end at
    /// it start or end at that point instead.
    pub fn weld(&mut self)
        requires
            old(self).wf(),
        ensures
            final(self).wf(),
            final(self).counter() == old(self).counter(),
            final(self).segments() == welded_rows(
                old(self).segments(),
                welding(
                    old(self).points(),
                    old(self).segments(),
                    old(self).points().len() as int,
                ).merged,
            ),
            final(self).points() == points_without(
                old(self).points(),
                welding(
                    old(self).points(),
                    old(self).segments(),
                    old(self).points().len() as int,
                ).merged.dom(),
            ),
    {
        let handles = self.handles();
        let rows = self.points.data();
        let ghost points = self.points();
        let ghost segments = self.segments();
        let ghost bound = self.counter();
        let mut mains: Vec<(PointId, Point)> = Vec::new();
        let mut merged: HashMap<usize, PointId> = HashMap::new();
        let mut gone: HashSet<usize> = HashSet::new();
        let mut k: usize = 0;
        while k < rows.len()
            invariant
                rows.len() == points.len(),
                k <= rows.len(),
                forall|r: int|
                    0 <= r < rows.len() ==> (#[trigger] rows[r]).id == points[r].0
                        && rows[r].position == points[r].1,
                forall|x: usize| #[trigger] handles@.contains(x) <==> is_handle(segments, PointId(x)),
                mains@ == welding(points, segments, k as int).mains,
                merged@ == welding(points, segments, k as int).merged,
                gone@ == merged@.dom(),
            decreases rows.len() - k,
        {
            let point = rows[k];
            let ghost before = welding(points, segments, k as int);
            assert(points[k as int] == (point.id, point.position));
            if !handles.contains(&point.id.0) && !merged.contains_key(&point.id.0) {
                let mut j: usize = 0;
                let mut found: Option<usize> = None;
                while j < mains.len()
                    invariant_except_break
                        found.is_none(),
                        first_near(mains@, point.position, 0) == first_near(
                            mains@,
                            point.position,
                            j as int,
                        ),
                    invariant
                        j <= mains.len(),
                    ensures
                        match found {
                            Some(at) => first_near(mains@, point.position, 0) == Some(at as int)
                                && at < mains.len(),
                            None => first_near(mains@, point.position, 0).is_none(),
                        },
                    decreases mains.len() - j,
                {
                    if point_distance(mains[j].1, point.position) < WELD_DISTANCE {
                        found = Some(j);
                        break ;
                    }
                    j += 1;
                }
                match found {
                    Some(at) => {
                        merged.insert(point.id.0, mains[at].0);
                        gone.insert(point.id.0);
                        assert(gone@ =~= merged@.dom());
                    },
                    None => {
                        mains.push((point.id, point.position));
                    },
                }
            }
            k += 1;
        }
        proof {
            lemma_welding_below(points, segments, points.len() as int, bound);
        }
        let ghost w = welding(points, segments, points.len() as int);
        let mut r: usize = 0;
        while r < self.segments.len()
            invariant
                self.tables_wf(),
                self.points() == points,
                self.counter() == bound,
                merged@ == w.merged,
                welding_below(w, bound),
                segments_below(segments, bound),
                self.segments().len() == segments.len(),
                r <= segments.len(),
                forall|i: int|
                    0 <= i < r ==> (#[trigger] self.segments()[i]) == welded_rows(
                        segments,
                        w.merged,
                    )[i],
                forall|i: int| r <= i < segments.len() ==> (#[trigger] self.segments()[i]) == segments[i],
            decreases segments.len() - r,
        {
            let row = self.segments.row(r);
            let start = match merged.get(&row.p1.0) {
                Some(main) => *main,
                None => row.p1,
            };
            let end = match merged.get(&row.p4.0) {
                Some(main) => *main,
                None => row.p4,
            };
            let ghost before = self.segments();
            self.segments.set(r, start, row.p2, row.p3, end);
            proof {
                assert forall|i: int| 0 <= i < r + 1 implies (#[trigger] self.segments()[i])
                    == welded_rows(segments, w.merged)[i] by {
                    if i < r {
                        assert(self.segments()[i] == before[i]);
                    }
                }
                assert forall|i: int| r + 1 <= i < segments.len() implies (
                #[trigger] self.segments()[i]) == segments[i] by {
                    assert(self.segments()[i] == before[i]);
                }
            }
            r += 1;
        }
        assert(self.segments() =~= welded_rows(segments, w.merged));
        self.points.remove_multiple(&gone);
        proof {
            let keep = |row: (PointId, Point)| !w.merged.dom().contains(row.0@);
            assert forall|i: int| 0 <= i < self.points().len() implies (
            #[trigger] self.points()[i]).0@ < bound by {
                assert(points.filter(keep).contains(self.points()[i]));
                points.lemma_filter_contains_rev(keep, self.points()[i]);
            }
            assert forall|i: int| 0 <= i < self.segments().len() implies (
            #[trigger] self.segments()[i]).id@ < bound by {
                assert(self.segments()[i].id == segments[i].id);
            }
        }
    }

    /// The planar graph of a drawing: the drawing is cut at its crossings, laid
    /// out from the parts, and welded, so that every crossing is a point of the
    /// graph and parts that meet share a point. The second result says, for each
    /// segment of the graph, which segment of the drawing it was cut from. `None`
    /// where the cut drawing has more parts than identifiers can be handed out
    /// for.
    pub fn planar_graph(&self) -> (graph: Option<(MMesh, HashMap<usize, SegmentId>)>)
        requires
            self.wf(),
        ensures
            graph matches Some(found) ==> found.0.wf() && rows_in(
                found.0.points(),
                found.0.segments(),
            ) && exists|
                pieces: Seq<Piece>,
                cuts: Seq<Vec<Param>>,
                parts: Seq<Piece>,
            | #[trigger]
                is_cut(self.points(), self.segments(), pieces, cuts, parts) && is_planar_graph(
                    parts,
                    found.0,
                    found.1@,
                ),
            graph.is_none() ==> exists|pieces: Seq<Piece>, cuts: Seq<Vec<Param>>, parts: Seq<Piece>|
                #[trigger] is_cut(self.points(), self.segments(), pieces, cuts, parts)
                    && parts.len() >= usize::MAX / 8,
    {
        let parts = intersection(self);
        if parts.len() >= usize::MAX / 8 {
            proof {
                let (pieces, cuts) = choose|pieces: Seq<Piece>, cuts: Seq<Vec<Param>>| #[trigger]
                    is_cut(self.points(), self.segments(), pieces, cuts, parts@);
                assert(is_cut(self.points(), self.segments(), pieces, cuts, parts@) && parts@.len()
                    >= usize::MAX / 8);
            }
            return None;
        }
        let found = MMesh::planar_graph_of(&parts);
        proof {
            let (pieces, cuts) = choose|pieces: Seq<Piece>, cuts: Seq<Vec<Param>>| #[trigger]
                is_cut(self.points(), self.segments(), pieces, cuts, parts@);
            assert(is_cut(self.points(), self.segments(), pieces, cuts, parts@)
                && is_planar_graph(parts@, found.0, found.1@));
        }
        Some(found)
    }

    /// The planar graph of a cut drawing: the drawing laid out from its parts,
    /// and welded. The second result says, for each segment of the graph, which
    /// segment of the first drawing it was cut from.
    pub fn planar_graph_of(parts: &IntersectData) -> (graph: (MMesh, HashMap<usize, SegmentId>))
        requires
            parts@.len() < usize::MAX / 8,
        ensures
            graph.0.wf(),
            is_planar_graph(parts@, graph.0, graph.1@),
            rows_in(graph.0.points(), graph.0.segments()),
    {
        let (mut mesh, parents) = MMesh::lay_out(parts);
        let ghost laid = laid_out(parts@, parts@.len() as int);
        let mut map: HashMap<usize, SegmentId> = HashMap::new();
        let mut r: usize = 0;
        assert(parents.len() == mesh.segments().len()) by {
            lemma_layout_lengths(parts@, parts@.len() as int);
        }
        while r < parents.len()
            invariant
                mesh.wf(),
                mesh.segments() == laid.segments,
                parents@ == laid.parents,
                parents.len() == laid.segments.len(),
                r <= parents.len(),
                forall|i: int| 0 <= i < r ==> map@.contains_key((#[trigger] laid.segments[i]).id@),
                forall|k: usize|
                    #[trigger] map@.contains_key(k) ==> exists|i: int|
                        0 <= i < laid.segments.len() && (#[trigger] laid.segments[i]).id@ == k
                            && map@[k] == laid.parents[i],
            decreases parents.len() - r,
        {
            let row = mesh.segment_row(r);
            let ghost before = map@;
            map.insert(row.id.0, parents[r]);
            proof {
                assert forall|k: usize| #[trigger] map@.contains_key(k) implies exists|i: int|
                    0 <= i < laid.segments.len() && (#[trigger] laid.segments[i]).id@ == k
                        && map@[k] == laid.parents[i] by {
                    if k == row.id.0 {
                        assert(laid.segments[r as int].id@ == k);
                    } else {
                        assert(before.contains_key(k));
                    }
                }
            }
            r += 1;
        }
        mesh.weld();
        proof {
            assert(is_planar_graph(parts@, mesh, map@));
            lemma_graph_holds_its_points(parts@, mesh, map@);
        }
        (mesh, map)
    }
}

/// The point at which a step leaves its segment.
pub open spec fn corner_of(rows: Seq<SegmentRow>, step: Step) -> PointId {
    if step.flow == Flow::StartToEnd {
        rows[step.index as int].p4
    } else {
        rows[step.index as int].p1
    }
}

/// The step `to` may follow the step `from`: it runs along another segment, and
/// it begins at the point at which `from` ends. A segment that starts and ends
/// at that point is taken from its start.
pub open spec fn meets(rows: Seq<SegmentRow>, from: Step, to: Step) -> bool {
    let corner = corner_of(rows, from);
    &&& to.index < rows.len()
    &&& to.index != from.index
    &&& to.flow == Flow::StartToEnd ==> rows[to.index as int].p1 == corner
    &&& to.flow == Flow::EndToStart ==> rows[to.index as int].p1 != corner && rows[to.index as int].p4
        == corner
}

/// Each link of the table leads from a step to one that may follow it.
pub open spec fn links_meet(rows: Seq<SegmentRow>, links: Seq<Option<Step>>) -> bool {
    &&& links.len() == 2 * rows.len()
    &&& forall|s: int|
        0 <= s < links.len() ==> ((#[trigger] links[s]) matches Some(next) ==> meets(
            rows,
            step_at(s),
            next,
        ))
}

/// The way along a segment that a step takes.
pub open spec fn direction_of(flow: Flow) -> Direction {
    match flow {
        Flow::StartToEnd => Direction::StartToEnd,
        Flow::EndToStart => Direction::EndToStart,
    }
}

/// The steps of a boundary in the order in which a region lists them: from the
/// step behind the first on, and the first step, with which the boundary
/// closes, last.
pub open spec fn closing(face: Seq<Step>) -> Seq<Step> {
    Seq::new(
        face.len(),
        |i: int|
            if i + 1 < face.len() {
                face[i + 1]
            } else {
                face[0]
            },
    )
}

/// `region` holds, for each of `steps`, the segment that the step runs along,
/// with its place in the table, and the way that the step takes.
pub open spec fn listed(
    rows: Seq<SegmentRow>,
    steps: Seq<Step>,
    region: Seq<(SegmentData, Direction)>,
) -> bool {
    &&& region.len() == steps.len()
    &&& forall|i: int|
        0 <= i < region.len() ==> {
            &&& (#[trigger] region[i]).0.row() == rows[steps[i].index as int]
            &&& region[i].0.idx@ == steps[i].index
            &&& region[i].1 == direction_of(steps[i].flow)
        }
}

/// `region` is the region with the boundary `face`: it lists the segments
/// along the boundary from the one that follows the first step on, and ends
/// with the segment of the first step, with which the boundary closes.
pub open spec fn region_along(
    rows: Seq<SegmentRow>,
    face: Seq<Step>,
    region: Seq<(SegmentData, Direction)>,
) -> bool {
    listed(rows, closing(face), region)
}

/// `regions` are the regions with the boundaries `faces`.
pub open spec fn regions_along(
    rows: Seq<SegmentRow>,
    faces: Seq<Vec<Step>>,
    regions: Seq<Vec<(SegmentData, Direction)>>,
) -> bool {
    &&& regions.len() == faces.len()
    &&& forall|f: int|
        0 <= f < regions.len() ==> region_along(rows, faces[f]@, (#[trigger] regions[f])@)
}

/// `regions` are the regions of a graph with the points `points` and the
/// segments `rows`, under the table of links `table`, with the boundaries
/// `faces`: the boundaries of all regions that the links close, each once.
pub open spec fn regions_found(
    points: Seq<(PointId, Point)>,
    rows: Seq<SegmentRow>,
    table: Seq<Option<Step>>,
    faces: Seq<Vec<Step>>,
    regions: Seq<Vec<(SegmentData, Direction)>>,
) -> bool {
    &&& is_links_at(points, rows, table)
    &&& traced(table, faces)
    &&& regions_along(rows, faces, regions)
}

/// A graph whose segments are linked to a single ring, as those of a closed
/// curve that does not cross itself are, has two regions, each with an entry
/// for every segment. The first runs forth along the segments in their order
/// and the second back, and each ends with the first segment.
pub proof fn lemma_ring_has_two_graph_regions(
    points: Seq<(PointId, Point)>,
    rows: Seq<SegmentRow>,
    table: Seq<Option<Step>>,
    faces: Seq<Vec<Step>>,
    regions: Seq<Vec<(SegmentData, Direction)>>,
    n: int,
)
    requires
        regions_found(points, rows, table, faces, regions),
        is_ring(table, n),
    ensures
        regions.len() == 2,
        regions[0]@.len() == n,
        regions[1]@.len() == n,
        forall|k: int|
            0 <= k < n ==> (#[trigger] regions[0]@[k]).0.idx@ == ring_ahead(1, k, n)
                && regions[0]@[k].1 == Direction::StartToEnd,
        forall|k: int|
            0 <= k < n ==> (#[trigger] regions[1]@[k]).0.idx@ == ring_behind(n - 1, k, n)
                && regions[1]@[k].1 == Direction::EndToStart,
{
    lemma_ring_faces(table, n, faces);
    assert(region_along(rows, faces[0]@, regions[0]@));
    assert(region_along(rows, faces[1]@, regions[1]@));
    assert forall|k: int| 0 <= k < n implies (#[trigger] regions[0]@[k]).0.idx@ == ring_ahead(
        1,
        k,
        n,
    ) && regions[0]@[k].1 == Direction::StartToEnd by {
        assert(closing(faces[0]@)[k] == forth(ring_ahead(1, k, n)));
    }
    assert forall|k: int| 0 <= k < n implies (#[trigger] regions[1]@[k]).0.idx@ == ring_behind(
        n - 1,
        k,
        n,
    ) && regions[1]@[k].1 == Direction::EndToStart by {
        assert(closing(faces[1]@)[k] == back(ring_behind(n - 1, k, n)));
    }
}

/// The segment of the row can be drawn: the points have its start and its end.
pub open spec fn is_drawn(points: Seq<(PointId, Point)>, row: SegmentRow) -> bool {
    shape_of(points, row).is_some()
}

/// The step along the segment at `j` that may follow the step `from`, where
/// there is one: both segments can be drawn, the segment is another than that
/// of `from`, and it starts, or else ends, at the point at which `from` ends.
pub open spec fn candidate_at(
    points: Seq<(PointId, Point)>,
    rows: Seq<SegmentRow>,
    from: Step,
    j: int,
) -> Option<Step> {
    let corner = corner_of(rows, from);
    if j == from.index || !is_drawn(points, rows[from.index as int]) || !is_drawn(points, rows[j]) {
        None
    } else if rows[j].p1 == corner {
        Some(Step { index: j as usize, flow: Flow::StartToEnd })
    } else if rows[j].p4 == corner {
        Some(Step { index: j as usize, flow: Flow::EndToStart })
    } else {
        None
    }
}

/// For each segment, the step along it that may follow the step `from`.
pub open spec fn candidates_at(points: Seq<(PointId, Point)>, rows: Seq<SegmentRow>, from: Step) -> Seq<
    Option<Step>,
> {
    Seq::new(rows.len(), |j: int| candidate_at(points, rows, from, j))
}

/// `next` is the step that follows `from` on the boundary of a region of the
/// graph: of the steps that may follow it, the one into which the boundary
/// turns least, for the angles that the turns have. There is none where no
/// step may follow, or no turn has a rank.
pub open spec fn follows_at(
    points: Seq<(PointId, Point)>,
    rows: Seq<SegmentRow>,
    from: Step,
    next: Option<Step>,
) -> bool {
    chosen_among(candidates_at(points, rows, from), next)
}

/// Each link of the table is the step that follows its step.
pub open spec fn links_follow_at(
    points: Seq<(PointId, Point)>,
    rows: Seq<SegmentRow>,
    links: Seq<Option<Step>>,
) -> bool {
    &&& links.len() == 2 * rows.len()
    &&& forall|s: int|
        0 <= s < links.len() ==> follows_at(points, rows, step_at(s), #[trigger] links[s])
}

/// `table` is a table of links of the graph: each link is the step that
/// follows its step, of the steps that may follow it.
pub open spec fn is_links_at(
    points: Seq<(PointId, Point)>,
    rows: Seq<SegmentRow>,
    table: Seq<Option<Step>>,
) -> bool {
    &&& links_wf(table)
    &&& links_meet(rows, table)
    &&& links_follow_at(points, rows, table)
}

/// `angles` has, for each step of a graph of `n` segments, one angle for each
/// segment.
pub open spec fn angles_at(n: nat, angles: Seq<Vec<u64>>) -> bool {
    &&& angles.len() == 2 * n
    &&& forall|s: int| 0 <= s < angles.len() ==> (#[trigger] angles[s]).len() == n
}

/// A step that follows is along a segment that meets the one before.
pub proof fn lemma_follows_meets(
    points: Seq<(PointId, Point)>,
    rows: Seq<SegmentRow>,
    from: Step,
    next: Option<Step>,
)
    requires
        follows_at(points, rows, from, next),
        rows.len() <= usize::MAX,
    ensures
        next matches Some(to) ==> meets(rows, from, to),
{
    lemma_chosen_is_candidate(candidates_at(points, rows, from), next);
    if next.is_some() {
        let to = next.unwrap();
        let all = candidates_at(points, rows, from);
        let j = choose|j: int| 0 <= j < all.len() && #[trigger] all[j] == Some(to);
        assert(candidate_at(points, rows, from, j) == Some(to));
    }
}

/// `ends` holds the ends, and the directions there, of the segment of the row
/// as it is drawn; nothing where the segment cannot be drawn.
spec fn ends_at(points: Seq<(PointId, Point)>, row: SegmentRow, ends: Option<Ends>) -> bool {
    match shape_of(points, row) {
        Some(shape) => ends matches Some(found) && exists|seg: PathSeg|
            control_points(seg) == shape && #[trigger] is_ends_of(seg, found),
        None => ends.is_none(),
    }
}

/// The table `ends` has the ends of just the segments that can be drawn.
spec fn ends_drawn(
    points: Seq<(PointId, Point)>,
    rows: Seq<SegmentRow>,
    ends: Seq<Option<Ends>>,
) -> bool {
    &&& ends.len() == rows.len()
    &&& forall|i: int| 0 <= i < ends.len() ==> ends_at(points, rows[i], #[trigger] ends[i])
}

impl MMesh {
    /// Whether the segment at `at` can be drawn.
    fn drawn(&self, at: usize) -> (yes: bool)
        requires
            self.wf(),
            at < self.segments().len(),
        ensures
            yes == is_drawn(self.points(), self.segments()[at as int]),
    {
        self.path_segment(at).is_some()
    }

    /// The step along the segment at `j` that may follow the step `from`;
    /// `own` says whether the segment of `from` can be drawn.
    fn candidate_of(&self, own: bool, from: Step, j: usize) -> (found: Option<Step>)
        requires
            self.wf(),
            from.index < self.segments().len(),
            j < self.segments().len(),
            own == is_drawn(self.points(), self.segments()[from.index as int]),
        ensures
            found == candidate_at(self.points(), self.segments(), from, j as int),
    {
        if j == from.index || !own || !self.drawn(j) {
            return None;
        }
        let before = self.segment_row(from.index);
        let corner = match from.flow {
            Flow::StartToEnd => before.p4,
            Flow::EndToStart => before.p1,
        };
        let other = self.segment_row(j);
        if other.p1 == corner {
            Some(Step { index: j, flow: Flow::StartToEnd })
        } else if other.p4 == corner {
            Some(Step { index: j, flow: Flow::EndToStart })
        } else {
            None
        }
    }

    /// The step that follows `from` where the turns into the segments have the
    /// angles `angles`, one for each segment, as binary64 patterns: of the steps
    /// that may follow `from`, the one with the least turn.
    pub fn step_after(&self, from: Step, angles: &Vec<u64>) -> (next: Option<Step>)
        requires
            self.wf(),
            from.index < self.segments().len(),
            angles.len() == self.segments().len(),
        ensures
            next == choice(candidates_at(self.points(), self.segments(), from), angles@),
    {
        let own = self.drawn(from.index);
        let ghost all = candidates_at(self.points(), self.segments(), from);
        let mut turns: Vec<Turn> = Vec::new();
        let mut j: usize = 0;
        while j < angles.len()
            invariant
                self.wf(),
                from.index < self.segments().len(),
                angles.len() == self.segments().len(),
                own == is_drawn(self.points(), self.segments()[from.index as int]),
                all == candidates_at(self.points(), self.segments(), from),
                j <= angles.len(),
                turns@ == ranked(all, angles@, j as int),
            decreases angles.len() - j,
        {
            let found = self.candidate_of(own, from, j);
            assert(found == all[j as int]);
            match (found, turn_key(angles[j])) {
                (Some(to), Some(rank)) => {
                    turns.push(Turn { next: to, rank });
                },
                _ => {},
            }
            j += 1;
        }
        choose_next(&turns)
    }

    /// The angles of the turns from the step `from` into the segments, one for
    /// each segment, as glam measures them: from the direction back along
    /// `from` to the direction in which the step that may follow runs into its
    /// segment. Where no step along a segment may follow, the angle counts as
    /// none.
    fn turn_angles(&self, ends: &Vec<Option<Ends>>, from: Step) -> (angles: Vec<u64>)
        requires
            self.wf(),
            ends_drawn(self.points(), self.segments(), ends@),
            from.index < self.segments().len(),
        ensures
            angles.len() == self.segments().len(),
    {
        let own = ends[from.index];
        let mut angles: Vec<u64> = Vec::new();
        let mut j: usize = 0;
        while j < ends.len()
            invariant
                self.wf(),
                ends_drawn(self.points(), self.segments(), ends@),
                from.index < self.segments().len(),
                own == ends[from.index as int],
                j <= ends.len(),
                angles.len() == j,
            decreases ends.len() - j,
        {
            let bits = match (own, ends[j], self.candidate_of(own.is_some(), from, j)) {
                (Some(before), Some(other), Some(to)) => {
                    let back = match from.flow {
                        Flow::StartToEnd => before.arrive,
                        Flow::EndToStart => before.leave,
                    };
                    match to.flow {
                        Flow::StartToEnd => angle_to(back, other.leave),
                        Flow::EndToStart => angle_to(back, other.arrive),
                    }
                },
                _ => 0,
            };
            angles.push(bits);
            j += 1;
        }
        angles
    }

    /// The step that follows `from`: of the steps along other segments that
    /// begin at the point where `from` ends, the one into which the boundary
    /// turns least.
    fn next_by_point(&self, ends: &Vec<Option<Ends>>, from: Step) -> (next: Option<Step>)
        requires
            self.wf(),
            ends_drawn(self.points(), self.segments(), ends@),
            from.index < self.segments().len(),
        ensures
            follows_at(self.points(), self.segments(), from, next),
            next matches Some(to) ==> meets(self.segments(), from, to),
    {
        let angles = self.turn_angles(ends, from);
        let next = self.step_after(from, &angles);
        proof {
            assert(next == choice(candidates_at(self.points(), self.segments(), from), angles@));
            lemma_follows_meets(self.points(), self.segments(), from, next);
        }
        next
    }

    /// The table of links of a graph where the turns have the angles `angles`:
    /// for each step, the step that follows it, which is the one with the least
    /// turn of those that may follow. `angles` holds, for each step and each
    /// segment, the angle of the turn from the step into the segment, as a
    /// binary64 pattern.
    pub fn links_from(&self, angles: &Vec<Vec<u64>>) -> (table: Vec<Option<Step>>)
        requires
            self.wf(),
            self.segments().len() < usize::MAX / 2,
            angles_at(self.segments().len(), angles@),
        ensures
            table.len() == 2 * self.segments().len(),
            forall|s: int|
                0 <= s < table.len() ==> #[trigger] table[s] == choice(
                    candidates_at(self.points(), self.segments(), step_at(s)),
                    angles[s]@,
                ),
            is_links_at(self.points(), self.segments(), table@),
    {
        let n = self.segment_count();
        let mut table: Vec<Option<Step>> = Vec::new();
        let mut index: usize = 0;
        while index < n
            invariant
                self.wf(),
                n == self.segments().len(),
                n < usize::MAX / 2,
                angles_at(self.segments().len(), angles@),
                index <= n,
                table.len() == 2 * index,
                forall|s: int|
                    0 <= s < table.len() ==> #[trigger] table[s] == choice(
                        candidates_at(self.points(), self.segments(), step_at(s)),
                        angles[s]@,
                    ),
                forall|s: int|
                    0 <= s < table.len() ==> ((#[trigger] table[s]) matches Some(next) ==> meets(
                        self.segments(),
                        step_at(s),
                        next,
                    )),
                forall|s: int|
                    0 <= s < table.len() ==> follows_at(
                        self.points(),
                        self.segments(),
                        step_at(s),
                        #[trigger] table[s],
                    ),
            decreases n - index,
        {
            let forth = Step { index, flow: Flow::StartToEnd };
            let back = Step { index, flow: Flow::EndToStart };
            assert(step_at(2 * index) == forth);
            assert(step_at(2 * index + 1) == back);
            let after_forth = self.step_after(forth, &angles[2 * index]);
            let after_back = self.step_after(back, &angles[2 * index + 1]);
            proof {
                assert(follows_at(self.points(), self.segments(), forth, after_forth));
                assert(follows_at(self.points(), self.segments(), back, after_back));
                lemma_follows_meets(self.points(), self.segments(), forth, after_forth);
                lemma_follows_meets(self.points(), self.segments(), back, after_back);
            }
            table.push(after_forth);
            table.push(after_back);
            index += 1;
        }
        table
    }

    /// The table of links of a graph: for each step along a segment, the step
    /// that follows it on the boundary of a region.
    pub fn links(&self) -> (table: Vec<Option<Step>>)
        requires
            self.wf(),
            self.segments().len() < usize::MAX / 2,
        ensures
            links_wf(table@),
            links_meet(self.segments(), table@),
            links_follow_at(self.points(), self.segments(), table@),
    {
        let n = self.segment_count();
        let mut ends: Vec<Option<Ends>> = Vec::new();
        let mut i: usize = 0;
        while i < n
            invariant
                self.wf(),
                n == self.segments().len(),
                i <= n,
                ends.len() == i,
                forall|k: int|
                    0 <= k < i ==> ends_at(self.points(), self.segments()[k], #[trigger] ends[k]),
            decreases n - i,
        {
            let seg = self.path_segment(i);
            let found = match seg {
                Some(seg) => Some(ends_of(&seg)),
                None => None,
            };
            proof {
                if seg.is_some() {
                    assert(is_ends_of(seg.unwrap(), found.unwrap()));
                }
            }
            assert(ends_at(self.points(), self.segments()[i as int], found));
            let ghost before = ends@;
            ends.push(found);
            assert forall|k: int| 0 <= k < i + 1 implies ends_at(
                self.points(),
                self.segments()[k],
                #[trigger] ends[k],
            ) by {
                if k < i {
                    assert(ends[k] == before[k]);
                }
            }
            i += 1;
        }
        let mut table: Vec<Option<Step>> = Vec::new();
        let mut index: usize = 0;
        while index < n
            invariant
                self.wf(),
                n == self.segments().len(),
                n < usize::MAX / 2,
                ends_drawn(self.points(), self.segments(), ends@),
                index <= n,
                table.len() == 2 * index,
                forall|s: int|
                    0 <= s < table.len() ==> ((#[trigger] table[s]) matches Some(next) ==> meets(
                        self.segments(),
                        step_at(s),
                        next,
                    )),
                forall|s: int|
                    0 <= s < table.len() ==> follows_at(
                        self.points(),
                        self.segments(),
                        step_at(s),
                        #[trigger] table[s],
                    ),
            decreases n - index,
        {
            let forth = Step { index, flow: Flow::StartToEnd };
            let back = Step { index, flow: Flow::EndToStart };
            assert(step_at(2 * index) == forth);
            assert(step_at(2 * index + 1) == back);
            let after_forth = self.next_by_point(&ends, forth);
            let after_back = self.next_by_point(&ends, back);
            table.push(after_forth);
            table.push(after_back);
            index += 1;
        }
        table
    }

    /// The regions of a graph: the boundaries that its links close, each as the
    /// segments along it and the way in which it runs along each. A region
    /// ends with the segment from which its boundary was traced. With them comes
    /// the map of the points of the graph.
    pub fn calculate_regions(&self) -> (found: (
        Vec<Vec<(SegmentData, Direction)>>,
        HashMap<usize, PointData>,
    ))
        requires
            self.wf(),
            self.segments().len() < usize::MAX / 2,
        ensures
            exists|table: Seq<Option<Step>>, faces: Seq<Vec<Step>>| #[trigger]
                regions_found(self.points(), self.segments(), table, faces, found.0@),
            maps_points(self.points(), found.1@),
    {
        let table = self.links();
        let faces = trace_faces(&table);
        let mut regions: Vec<Vec<(SegmentData, Direction)>> = Vec::new();
        let mut f: usize = 0;
        assert(traced(table@, faces@));
        while f < faces.len()
            invariant
                self.wf(),
                f <= faces.len(),
                table.len() == 2 * self.segments().len(),
                traced(table@, faces@),
                regions_along(self.segments(), faces@.take(f as int), regions@),
            decreases faces.len() - f,
        {
            let face = &faces[f];
            assert(is_face(table@, faces@[f as int]@));
            let mut region: Vec<(SegmentData, Direction)> = Vec::new();
            let mut k: usize = 0;
            let ghost order = closing(face@);
            while k < face.len()
                invariant
                    self.wf(),
                    k <= face.len(),
                    table.len() == 2 * self.segments().len(),
                    is_face(table@, face@),
                    order == closing(face@),
                    listed(self.segments(), order.take(k as int), region@),
                decreases face.len() - k,
            {
                let step = if k + 1 < face.len() {
                    face[k + 1]
                } else {
                    face[0]
                };
                assert(step == order[k as int]);
                assert(step_in(table@, step));
                let row = self.segment_row(step.index);
                let way = match step.flow {
                    Flow::StartToEnd => Direction::StartToEnd,
                    Flow::EndToStart => Direction::EndToStart,
                };
                let ghost before = region@;
                region.push(
                    (
                        SegmentData::new(
                            SegmentIndex(step.index),
                            row.id,
                            row.p1,
                            row.p2,
                            row.p3,
                            row.p4,
                            None,
                            None,
                        ),
                        way,
                    ),
                );
                proof {
                    let now = order.take(k + 1);
                    let then = order.take(k as int);
                    assert forall|i: int| 0 <= i < region@.len() implies {
                        &&& (#[trigger] region@[i]).0.row() == self.segments()[now[i].index as int]
                        &&& region@[i].0.idx@ == now[i].index
                        &&& region@[i].1 == direction_of(now[i].flow)
                    } by {
                        if i < k {
                            assert(region@[i] == before[i]);
                            assert(now[i] == then[i]);
                        }
                    }
                }
                k += 1;
            }
            assert(order.take(k as int) == order);
            let ghost before = regions@;
            regions.push(region);
            proof {
                let now = faces@.take(f + 1);
                let then = faces@.take(f as int);
                assert forall|g: int| 0 <= g < regions@.len() implies region_along(
                    self.segments(),
                    now[g]@,
                    (#[trigger] regions@[g])@,
                ) by {
                    if g < f {
                        assert(regions@[g] == before[g]);
                        assert(now[g] == then[g]);
                    }
                }
            }
            f += 1;
        }
        assert(faces@.take(f as int) == faces@);
        let map = self.points_map();
        let found = (regions, map);
        assert(regions_found(self.points(), self.segments(), table@, faces@, found.0@));
        found
    }
}

/// The segment of a row taken the given way, through the positions that the map
/// has for its points; `None` where the map lacks its start or its end.
pub fn segment_data_to_pathseg(
    points_map: &HashMap<usize, PointData>,
    data: SegmentData,
    direction: Direction,
) -> (seg: Option<PathSeg>)
    ensures
        match row_shape(points_map@, taken(data.row(), direction)) {
            Some(shape) => seg matches Some(s) && control_points(s) == shape,
            None => seg.is_none(),
        },
{
    let row = match direction {
        Direction::StartToEnd => SegmentRow {
            id: data.id,
            p1: data.p1,
            p2: data.p2,
            p3: data.p3,
            p4: data.p4,
        },
        Direction::EndToStart => SegmentRow {
            id: data.id,
            p1: data.p4,
            p2: data.p3,
            p3: data.p2,
            p4: data.p1,
        },
    };
    row_segment(points_map, row)
}

/// The row read the given way: as it is, or from its end to its start.
pub open spec fn taken(row: SegmentRow, direction: Direction) -> SegmentRow {
    match direction {
        Direction::StartToEnd => row,
        Direction::EndToStart => SegmentRow {
            id: row.id,
            p1: row.p4,
            p2: row.p3,
            p3: row.p2,
            p4: row.p1,
        },
    }
}

/// The style of a region, and the boundary that the region was known by when
/// it got the style: the segment of the first drawing under each of its edges,
/// and the way along it.
pub struct RegionStyle {
    parent_and_direction: Vec<(SegmentId, Direction)>,
    color: XColor,
}

/// How many of the first `k` edges of `other` are edges of `own`.
pub open spec fn shared_edges(
    own: Seq<(SegmentId, Direction)>,
    other: Seq<(SegmentId, Direction)>,
    k: int,
) -> nat
    decreases k,
{
    if k <= 0 {
        0
    } else if own.contains(other[k - 1]) {
        shared_edges(own, other, k - 1) + 1
    } else {
        shared_edges(own, other, k - 1)
    }
}

/// The style at `at` shares the most edges with `edges`, and is the last of
/// `styles` that shares so many.
pub open spec fn is_best_style(
    styles: Seq<RegionStyle>,
    edges: Seq<(SegmentId, Direction)>,
    at: int,
) -> bool {
    let n = edges.len() as int;
    &&& 0 <= at < styles.len()
    &&& forall|j: int|
        0 <= j < styles.len() ==> shared_edges((#[trigger] styles[j]).edges(), edges, n) <= shared_edges(
            styles[at].edges(),
            edges,
            n,
        )
    &&& forall|j: int|
        at < j < styles.len() ==> shared_edges((#[trigger] styles[j]).edges(), edges, n) < shared_edges(
            styles[at].edges(),
            edges,
            n,
        )
}

impl RegionStyle {
    /// The edges of the boundary.
    pub closed spec fn edges(&self) -> Seq<(SegmentId, Direction)> {
        self.parent_and_direction@
    }

    /// The colour.
    pub closed spec fn shade(&self) -> XColor {
        self.color
    }

    pub fn new(parent_and_direction: Vec<(SegmentId, Direction)>, color: XColor) -> (style: Self)
        ensures
            style.edges() == parent_and_direction@,
            style.shade() == color,
    {
        Self { parent_and_direction, color }
    }

    /// The colour of the style.
    pub fn color(&self) -> (color: XColor)
        ensures
            color == self.shade(),
    {
        self.color
    }

    /// How many of the given edges are edges of the boundary of this style.
    pub fn match_style(&self, parent_and_direction: &Vec<(SegmentId, Direction)>) -> (matches: usize)
        ensures
            matches == shared_edges(self.edges(), parent_and_direction@, parent_and_direction.len() as int),
    {
        let mut matches: usize = 0;
        let mut i: usize = 0;
        while i < parent_and_direction.len()
            invariant
                i <= parent_and_direction.len(),
                matches == shared_edges(self.edges(), parent_and_direction@, i as int),
                matches <= i,
            decreases parent_and_direction.len() - i,
        {
            let wanted = parent_and_direction[i];
            let mut j: usize = 0;
            let mut found = false;
            while j < self.parent_and_direction.len()
                invariant_except_break
                    !found,
                    forall|x: int| 0 <= x < j ==> self.edges()[x] != wanted,
                invariant
                    j <= self.parent_and_direction.len(),
                ensures
                    found == self.edges().contains(wanted),
                decreases self.parent_and_direction.len() - j,
            {
                let own = self.parent_and_direction[j];
                if own.0 == wanted.0 && own.1 == wanted.1 {
                    found = true;
                    assert(self.edges()[j as int] == wanted);
                    break ;
                }
                j += 1;
            }
            if found {
                matches += 1;
            }
            i += 1;
        }
        matches
    }
}

/// The style that shares the most edges with the given ones, the last of them
/// where several share as many; `None` where there is no style.
pub fn best_style(styles: &Vec<RegionStyle>, edges: &Vec<(SegmentId, Direction)>) -> (best: Option<
    usize,
>)
    ensures
        styles.len() == 0 ==> best.is_none(),
        styles.len() > 0 ==> (best matches Some(at) && is_best_style(styles@, edges@, at as int)),
{
    if styles.len() == 0 {
        return None;
    }
    let mut best: usize = 0;
    let mut most = styles[0].match_style(edges);
    let mut j: usize = 1;
    while j < styles.len()
        invariant
            1 <= j <= styles.len(),
            best < j,
            most == shared_edges(styles@[best as int].edges(), edges@, edges.len() as int),
            forall|x: int|
                0 <= x < j ==> shared_edges((#[trigger] styles@[x]).edges(), edges@, edges.len() as int)
                    <= most,
            forall|x: int|
                best < x < j ==> shared_edges((#[trigger] styles@[x]).edges(), edges@, edges.len() as int)
                    < most,
        decreases styles.len() - j,
    {
        let next = styles[j].match_style(edges);
        if next >= most {
            best = j;
            most = next;
        }
        j += 1;
    }
    Some(best)
}

/// The colour that a region with the given edges takes: that of the style
/// which shares the most edges with it, and no colour where there is no style.
pub open spec fn carried_color(
    styles: Seq<RegionStyle>,
    edges: Seq<(SegmentId, Direction)>,
    color: XColor,
) -> bool {
    if styles.len() == 0 {
        color == XColor::Blank
    } else {
        exists|at: int| #[trigger] is_best_style(styles, edges, at) && color == styles[at].shade()
    }
}

/// The styles of the regions of a new pass. Each region is known by the segments
/// of the first drawing under its edges, which `parents` gives. It takes the
/// colour of the style of the pass before that shares the most edges with it;
/// a region marked in `inside` takes the colour `setcolor`, where there is one.
pub fn calculate_style(
    regions: &Vec<Vec<(SegmentData, Direction)>>,
    parents: &HashMap<usize, SegmentId>,
    styles: &Vec<RegionStyle>,
    inside: &Vec<bool>,
    setcolor: Option<XColor>,
) -> (new_styles: Vec<RegionStyle>)
    requires
        inside.len() == regions.len(),
        forall|r: int, i: int|
            0 <= r < regions.len() && 0 <= i < regions[r].len() ==> parents@.contains_key(
                (#[trigger] regions[r][i]).0.id@,
            ),
    ensures
        new_styles.len() == regions.len(),
        forall|r: int|
            0 <= r < regions.len() ==> {
                &&& (#[trigger] new_styles[r]).edges().len() == regions[r].len()
                &&& forall|i: int|
                    0 <= i < regions[r].len() ==> (#[trigger] new_styles[r].edges()[i]) == (
                        parents@[regions[r][i].0.id@],
                        regions[r][i].1,
                    )
                &&& if inside[r] && setcolor.is_some() {
                    new_styles[r].shade() == setcolor.unwrap()
                } else {
                    carried_color(styles@, new_styles[r].edges(), new_styles[r].shade())
                }
            },
{
    let mut new_styles: Vec<RegionStyle> = Vec::new();
    let mut r: usize = 0;
    while r < regions.len()
        invariant
            r <= regions.len(),
            inside.len() == regions.len(),
            new_styles.len() == r,
            forall|r: int, i: int|
                0 <= r < regions.len() && 0 <= i < regions[r].len() ==> parents@.contains_key(
                    (#[trigger] regions[r][i]).0.id@,
                ),
            forall|x: int|
                0 <= x < r ==> {
                    &&& (#[trigger] new_styles[x]).edges().len() == regions[x].len()
                    &&& forall|i: int|
                        0 <= i < regions[x].len() ==> (#[trigger] new_styles[x].edges()[i]) == (
                            parents@[regions[x][i].0.id@],
                            regions[x][i].1,
                        )
                    &&& if inside[x] && setcolor.is_some() {
                        new_styles[x].shade() == setcolor.unwrap()
                    } else {
                        carried_color(styles@, new_styles[x].edges(), new_styles[x].shade())
                    }
                },
        decreases regions.len() - r,
    {
        let region = &regions[r];
        let mut edges: Vec<(SegmentId, Direction)> = Vec::new();
        let mut i: usize = 0;
        while i < region.len()
            invariant
                i <= region.len(),
                edges.len() == i,
                forall|k: int| 0 <= k < region.len() ==> parents@.contains_key((#[trigger] region[k]).0.id@),
                forall|k: int|
                    0 <= k < i ==> (#[trigger] edges[k]) == (parents@[region[k].0.id@], region[k].1),
            decreases region.len() - i,
        {
            let (data, way) = region[i];
            let parent = match parents.get(&data.id.0) {
                Some(parent) => *parent,
                None => data.id,
            };
            edges.push((parent, way));
            i += 1;
        }
        let carried = match best_style(styles, &edges) {
            Some(at) => styles[at].color(),
            None => XColor::Blank,
        };
        let color = match setcolor {
            Some(chosen) => if inside[r] {
                chosen
            } else {
                carried
            },
            None => carried,
        };
        let ghost before = new_styles@;
        let ghost kept = edges@;
        new_styles.push(RegionStyle::new(edges, color));
        proof {
            assert forall|x: int| 0 <= x < r + 1 implies {
                &&& (#[trigger] new_styles[x]).edges().len() == regions[x].len()
                &&& forall|i: int|
                    0 <= i < regions[x].len() ==> (#[trigger] new_styles[x].edges()[i]) == (
                        parents@[regions[x][i].0.id@],
                        regions[x][i].1,
                    )
                &&& if inside[x] && setcolor.is_some() {
                    new_styles[x].shade() == setcolor.unwrap()
                } else {
                    carried_color(styles@, new_styles[x].edges(), new_styles[x].shade())
                }
            } by {
                if x < r {
                    assert(new_styles[x] == before[x]);
                } else {
                    assert(new_styles[x].edges() == kept);
                }
            }
        }
        r += 1;
    }
    new_styles
}

/// The identifiers of the points rise along the table.
pub open spec fn ids_rise(points: Seq<(PointId, Point)>) -> bool {
    forall|i: int, j: int| 0 <= i < j < points.len() ==> points[i].0@ < points[j].0@
}

/// The start, the end and the handles of the segment are among the points.
pub open spec fn ends_in(points: Seq<(PointId, Point)>, row: SegmentRow) -> bool {
    &&& has_point(points, row.p1)
    &&& has_point(points, row.p4)
    &&& has_handle(points, row.p2)
    &&& has_handle(points, row.p3)
}

/// Every segment starts and ends at points of the table, and has its handles
/// there.
pub open spec fn rows_in(points: Seq<(PointId, Point)>, rows: Seq<SegmentRow>) -> bool {
    forall|r: int| 0 <= r < rows.len() ==> ends_in(points, #[trigger] rows[r])
}

/// A point of the table is still a point of it when another is added.
pub proof fn lemma_has_point_push(points: Seq<(PointId, Point)>, id: PointId, more: (PointId, Point))
    requires
        has_point(points, id),
    ensures
        has_point(points.push(more), id),
{
    let i = choose|i: int| 0 <= i < points.len() && (#[trigger] points[i]).0 == id;
    assert(points.push(more)[i].0 == id);
}

/// The segment is still within the table when a point is added.
pub proof fn lemma_ends_in_push(points: Seq<(PointId, Point)>, row: SegmentRow, more: (PointId, Point))
    requires
        ends_in(points, row),
    ensures
        ends_in(points.push(more), row),
{
    lemma_has_point_push(points, row.p1, more);
    lemma_has_point_push(points, row.p4, more);
    if row.p2.is_some() {
        lemma_has_point_push(points, row.p2.unwrap(), more);
    }
    if row.p3.is_some() {
        lemma_has_point_push(points, row.p3.unwrap(), more);
    }
}

/// The point that was added last is a point of the table.
pub proof fn lemma_has_last_point(points: Seq<(PointId, Point)>, more: (PointId, Point))
    ensures
        has_point(points.push(more), more.0),
{
    assert(points.push(more)[points.len() as int].0 == more.0);
}

/// A layout is sound: the identifiers of its points rise and lie below its
/// counter, as do those of its segments, and every segment starts and ends at
/// points of the layout and has its handles there.
pub proof fn lemma_layout_sound(parts: Seq<Piece>, k: int)
    requires
        0 <= k,
        6 * k <= usize::MAX,
    ensures
        ({
            let laid = laid_out(parts, k);
            &&& laid.counter <= 6 * k
            &&& laid.segments.len() == k
            &&& points_below(laid.points, laid.counter)
            &&& ids_rise(laid.points)
            &&& rows_in(laid.points, laid.segments)
        }),
    decreases k,
{
    if k > 0 {
        lemma_layout_sound(parts, k - 1);
        let before = laid_out(parts, k - 1);
        let shape = control_points(parts[k - 1].segment);
        let linked = continues(parts, k - 1);
        let laid = place(before, shape, parts[k - 1].parent, linked);
        let fresh = (PointId(before.counter as usize), shape[0]);
        let points1 = if linked {
            before.points
        } else {
            before.points.push(fresh)
        };
        let count1 = if linked {
            before.counter
        } else {
            before.counter + 1
        };
        let first = (PointId(count1 as usize), shape[1]);
        let points2 = if shape.len() >= 3 {
            points1.push(first)
        } else {
            points1
        };
        let count2 = if shape.len() >= 3 {
            count1 + 1
        } else {
            count1
        };
        let second = (PointId(count2 as usize), shape[2]);
        let points3 = if shape.len() >= 4 {
            points2.push(second)
        } else {
            points2
        };
        let count3 = if shape.len() >= 4 {
            count2 + 1
        } else {
            count2
        };
        let end = (PointId(count3 as usize), shape.last());
        let row = laid.segments.last();
        assert(laid.points == points3.push(end));
        assert(points_below(points1, count1) && ids_rise(points1));
        assert(points_below(points2, count2) && ids_rise(points2));
        assert(points_below(points3, count3) && ids_rise(points3));
        assert(points_below(laid.points, laid.counter) && ids_rise(laid.points));
        assert(has_point(points1, row.p1)) by {
            if linked {
                assert(ends_in(before.points, before.segments[k - 2]));
            } else {
                lemma_has_last_point(before.points, fresh);
            }
        }
        assert(has_point(points2, row.p1) && has_handle(points2, row.p2)) by {
            if shape.len() >= 3 {
                lemma_has_point_push(points1, row.p1, first);
                lemma_has_last_point(points1, first);
            }
        }
        assert(has_point(points3, row.p1) && has_handle(points3, row.p2) && has_handle(
            points3,
            row.p3,
        )) by {
            if shape.len() >= 4 {
                lemma_has_point_push(points2, row.p1, second);
                lemma_has_point_push(points2, row.p2.unwrap(), second);
                lemma_has_last_point(points2, second);
            }
        }
        assert(ends_in(laid.points, row)) by {
            lemma_has_point_push(points3, row.p1, end);
            if row.p2.is_some() {
                lemma_has_point_push(points3, row.p2.unwrap(), end);
            }
            if row.p3.is_some() {
                lemma_has_point_push(points3, row.p3.unwrap(), end);
            }
            lemma_has_last_point(points3, end);
        }
        assert forall|r: int| 0 <= r < laid.segments.len() implies ends_in(
            laid.points,
            #[trigger] laid.segments[r],
        ) by {
            if r < k - 1 {
                let old = before.segments[r];
                assert(laid.segments[r] == old);
                assert(ends_in(before.points, old));
                if !linked {
                    lemma_ends_in_push(before.points, old, fresh);
                }
                if shape.len() >= 3 {
                    lemma_ends_in_push(points1, old, first);
                }
                if shape.len() >= 4 {
                    lemma_ends_in_push(points2, old, second);
                }
                lemma_ends_in_push(points3, old, end);
            }
        }
    }
}

/// What welding has come to is sound: the points that stay are points of the
/// table, none of them a handle and none of them gone; the points that are
/// gone are points of the table and no handles, and a point that stays stands
/// for each.
pub open spec fn welding_sound(
    points: Seq<(PointId, Point)>,
    rows: Seq<SegmentRow>,
    k: int,
    w: Welding,
) -> bool {
    &&& forall|j: int|
        0 <= j < w.mains.len() ==> {
            &&& stays(points, k, #[trigger] w.mains[j])
            &&& !w.merged.contains_key(w.mains[j].0@)
        }
    &&& forall|key: usize|
        #[trigger] w.merged.contains_key(key) ==> {
            &&& known(points, k, key)
            &&& !is_handle(rows, PointId(key))
            &&& stands(w, w.merged[key])
        }
}

/// The point is one of the first `k` points of the table.
pub open spec fn stays(points: Seq<(PointId, Point)>, k: int, point: (PointId, Point)) -> bool {
    exists|i: int| 0 <= i < k && i < points.len() && #[trigger] points[i] == point
}

/// One of the first `k` points of the table has the identifier.
pub open spec fn known(points: Seq<(PointId, Point)>, k: int, key: usize) -> bool {
    exists|i: int| 0 <= i < k && i < points.len() && (#[trigger] points[i]).0@ == key
}

/// The identifier is that of a point that stays.
pub open spec fn stands(w: Welding, id: PointId) -> bool {
    exists|j: int| 0 <= j < w.mains.len() && (#[trigger] w.mains[j]).0 == id
}

/// Welding a table whose identifiers rise is sound.
pub proof fn lemma_welding_sound(points: Seq<(PointId, Point)>, rows: Seq<SegmentRow>, k: int)
    requires
        ids_rise(points),
        0 <= k <= points.len(),
    ensures
        welding_sound(points, rows, k, welding(points, rows, k)),
    decreases k,
{
    if k > 0 {
        lemma_welding_sound(points, rows, k - 1);
        let before = welding(points, rows, k - 1);
        let after = welding(points, rows, k);
        let point = points[k - 1];
        assert forall|j: int| 0 <= j < before.mains.len() implies stays(
            points,
            k,
            #[trigger] before.mains[j],
        ) && before.mains[j].0@ != point.0@ by {
            let i = choose|i: int|
                0 <= i < k - 1 && i < points.len() && #[trigger] points[i] == before.mains[j];
            assert(points[i].0@ < points[k - 1].0@);
        }
        assert forall|key: usize| #[trigger] before.merged.contains_key(key) implies known(
            points,
            k,
            key,
        ) by {
            let i = choose|i: int|
                0 <= i < k - 1 && i < points.len() && (#[trigger] points[i]).0@ == key;
            assert(points[i].0@ == key);
        }
        if is_handle(rows, point.0) || before.merged.contains_key(point.0@) {
            assert(after == before);
        } else {
            match first_near(before.mains, point.1, 0) {
                Some(j) => {
                    lemma_first_near(before.mains, point.1, 0);
                    assert(after.mains == before.mains);
                    assert(stands(after, before.mains[j].0));
                    assert(points[k - 1].0@ == point.0@);
                    assert(known(points, k, point.0@));
                    assert forall|key: usize| #[trigger] after.merged.contains_key(key) implies {
                        &&& known(points, k, key)
                        &&& !is_handle(rows, PointId(key))
                        &&& stands(after, after.merged[key])
                    } by {
                        if key != point.0@ {
                            assert(before.merged.contains_key(key));
                            let m = choose|m: int|
                                0 <= m < before.mains.len() && (#[trigger] before.mains[m]).0
                                    == before.merged[key];
                            assert(after.mains[m].0 == after.merged[key]);
                        }
                    }
                },
                None => {
                    assert(after.mains == before.mains.push(point));
                    assert(after.merged == before.merged);
                    assert forall|j: int| 0 <= j < after.mains.len() implies {
                        &&& stays(points, k, #[trigger] after.mains[j])
                        &&& !after.merged.contains_key(after.mains[j].0@)
                    } by {
                        if j == before.mains.len() {
                            assert(points[k - 1] == after.mains[j]);
                        } else {
                            assert(after.mains[j] == before.mains[j]);
                        }
                    }
                    assert forall|key: usize| #[trigger] after.merged.contains_key(key) implies {
                        &&& known(points, k, key)
                        &&& !is_handle(rows, PointId(key))
                        &&& stands(after, after.merged[key])
                    } by {
                        let m = choose|m: int|
                            0 <= m < before.mains.len() && (#[trigger] before.mains[m]).0
                                == before.merged[key];
                        assert(after.mains[m].0 == after.merged[key]);
                    }
                },
            }
        }
    }
}

/// A point that is not gone is a point of the welded table.
pub proof fn lemma_point_stays(points: Seq<(PointId, Point)>, gone: Set<usize>, id: PointId)
    requires
        has_point(points, id),
        !gone.contains(id@),
    ensures
        has_point(points_without(points, gone), id),
{
    let keep = |row: (PointId, Point)| !gone.contains(row.0@);
    let i = choose|i: int| 0 <= i < points.len() && (#[trigger] points[i]).0 == id;
    points.lemma_filter_contains(keep, i);
    let kept = points.filter(keep);
    let at = choose|at: int| 0 <= at < kept.len() && kept[at] == points[i];
    assert(kept[at].0 == id);
}

/// In the planar graph of a cut drawing, every segment starts and ends at
/// points of the graph, and has its handles there: the points that welding took
/// away are in use no more.
pub proof fn lemma_graph_holds_its_points(
    parts: Seq<Piece>,
    graph: MMesh,
    parents: Map<usize, SegmentId>,
)
    requires
        is_planar_graph(parts, graph, parents),
        parts.len() < usize::MAX / 8,
    ensures
        rows_in(graph.points(), graph.segments()),
{
    let laid = laid_out(parts, parts.len() as int);
    lemma_layout_sound(parts, parts.len() as int);
    let w = welding(laid.points, laid.segments, laid.points.len() as int);
    lemma_welding_sound(laid.points, laid.segments, laid.points.len() as int);
    let gone = w.merged.dom();
    assert forall|r: int| 0 <= r < graph.segments().len() implies ends_in(
        graph.points(),
        #[trigger] graph.segments()[r],
    ) by {
        let old = laid.segments[r];
        let row = graph.segments()[r];
        assert(ends_in(laid.points, old));
        lemma_welded_end_stays(laid.points, laid.segments, w, old.p1);
        lemma_welded_end_stays(laid.points, laid.segments, w, old.p4);
        if old.p2.is_some() {
            let h = old.p2.unwrap();
            assert(is_handle(laid.segments, h));
            lemma_point_stays(laid.points, gone, h);
        }
        if old.p3.is_some() {
            let h = old.p3.unwrap();
            assert(is_handle(laid.segments, h));
            lemma_point_stays(laid.points, gone, h);
        }
    }
}

/// The point that stands for a point of the table after welding stays in the
/// table.
pub proof fn lemma_welded_end_stays(
    points: Seq<(PointId, Point)>,
    rows: Seq<SegmentRow>,
    w: Welding,
    id: PointId,
)
    requires
        welding_sound(points, rows, points.len() as int, w),
        has_point(points, id),
    ensures
        has_point(points_without(points, w.merged.dom()), welded_id(w.merged, id)),
{
    let gone = w.merged.dom();
    if w.merged.contains_key(id@) {
        let main = w.merged[id@];
        assert(stands(w, main));
        let j = choose|j: int| 0 <= j < w.mains.len() && (#[trigger] w.mains[j]).0 == main;
        assert(stays(points, points.len() as int, w.mains[j]));
        let i = choose|i: int|
            0 <= i < points.len() && i < points.len() && #[trigger] points[i] == w.mains[j];
        assert(points[i].0 == main);
        lemma_point_stays(points, gone, main);
    } else {
        lemma_point_stays(points, gone, id);
    }
}

/// A layout has one segment, and one record of where it was cut from, for
/// each piece.
pub proof fn lemma_layout_lengths(parts: Seq<Piece>, k: int)
    requires
        0 <= k,
    ensures
        laid_out(parts, k).segments.len() == k,
        laid_out(parts, k).parents.len() == k,
    decreases k,
{
    if k > 0 {
        lemma_layout_lengths(parts, k - 1);
    }
}

} // verus!
