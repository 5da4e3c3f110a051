use vstd::prelude::*;
use vstd::seq_lib::*;
use kurbo::{BezPath, PathSeg, Point, Vec2};
use crate::algo::{
    cleanup_intersections, crossings, is_cleanup, joints_of, lemma_uncrossed_is_uncut,
    param_place, path_intersections, window, Param, PARAM_ONE,
};
use crate::mesh::{shape_of, MMesh, PointId, SegmentId, SegmentRow};
use crate::util::{
    angle_to, area, as_element, begins_with_move, box_area, control_points, copy_path,
    cubic_halves, curve_point, difference, distance, drawing_element, elements_of, end_point,
    new_path, normalized, part_between, path_bounding_box, path_box, path_contains,
    path_elements, point_distance, point_on, push_element, reversed, start_point,
    subdivide_cubic, subsegment, unit, vector_between, PathElement,
};
use crate::walk::{
    all_faces, back, faces_distinct, faces_in_order, forth, has_face, is_face, is_ring,
    lemma_ring_faces, links_wf, on_faces, returns_after, ring_back, ring_behind, ring_forth,
    step_at, step_in, trace, trace_faces, Step,
};
use crate::MIN_SEPARATION;

verus! {

/// The way along a segment: from its first point to its last, or back.
#[derive(Clone, Copy, Debug, PartialEq, Eq, Hash, Structural)]
pub enum Direction {
    StartToEnd,
    EndToStart,
}

/// Which half of a cubic segment a piece was cut from. A cubic is halved before
/// it is searched for crossings.
#[derive(Clone, Copy, Debug, PartialEq, Eq, Hash, Structural)]
pub enum Part {
    First,
    Second,
}

/// The way in which the boundary of a region runs along a piece.
#[derive(Clone, Copy, Debug, PartialEq, Eq, Structural)]
pub enum Flow {
    StartToEnd,
    EndToStart,
}

/// One edge of the boundary of a region: the segment of the drawing that the
/// piece was cut from, the half of it where it was a cubic, and the way in
/// which the boundary runs along it.
#[derive(Clone, Copy, Debug, PartialEq, Eq, Structural)]
pub struct Edge {
    pub parent: SegmentId,
    pub part: Option<Part>,
    pub flow: Flow,
}

/// What a region is known by from one pass to the next: the edges of its
/// boundary in the order in which the boundary runs, whatever their shape is.
#[derive(Clone, Debug)]
pub struct DynamicRegionStructure {
    edges: Vec<Edge>,
}

/// `a` read from its `k`-th edge on, and round to the edge before it.
pub open spec fn rotated(a: Seq<Edge>, k: int) -> Seq<Edge> {
    a.skip(k) + a.take(k)
}

/// `b` is `a` read from another edge on: the same cycle.
pub open spec fn is_rotation(a: Seq<Edge>, b: Seq<Edge>) -> bool {
    exists|k: int| 0 <= k < a.len() && #[trigger] rotated(a, k) == b
}

/// Every edge of `a` is an edge of `b`, an edge that stands twice in `a` twice
/// in `b`.
pub open spec fn is_sub_multiset(a: Seq<Edge>, b: Seq<Edge>) -> bool {
    a.to_multiset().subset_of(b.to_multiset())
}

/// Two boundaries belong to the same region: each edge of the first is matched
/// by an edge of its own in the second, and the second is the first read from
/// another edge on.
pub open spec fn structures_match(a: Seq<Edge>, b: Seq<Edge>) -> bool {
    is_sub_multiset(a, b) && is_rotation(a, b)
}

/// A boundary matches itself read from any of its edges on.
pub proof fn lemma_rotation_matches(a: Seq<Edge>, k: int)
    requires
        0 <= k < a.len(),
    ensures
        structures_match(a, rotated(a, k)),
        structures_match(rotated(a, k), a),
{
    let b = rotated(a, k);
    assert(a == a.take(k) + a.skip(k));
    lemma_seq_union_to_multiset_commutative(a.take(k), a.skip(k));
    assert(a.to_multiset() == b.to_multiset());
    assert(is_rotation(a, b));
    let back = a.len() - k;
    if k == 0 {
        assert(b == a);
        assert(rotated(b, 0) == a);
    } else {
        assert(rotated(b, back) == a);
    }
    assert(is_rotation(b, a));
}

/// Matching does not depend on the edge from which either boundary is read.
pub proof fn lemma_match_ignores_start(a: Seq<Edge>, b: Seq<Edge>, k: int)
    requires
        0 <= k < a.len(),
        structures_match(a, b),
    ensures
        structures_match(rotated(a, k), b),
{
    let r = rotated(a, k);
    let j = choose|j: int| 0 <= j < a.len() && #[trigger] rotated(a, j) == b;
    assert(a == a.take(k) + a.skip(k));
    lemma_seq_union_to_multiset_commutative(a.take(k), a.skip(k));
    assert(r.to_multiset() == a.to_multiset());
    let n = a.len() as int;
    let shift = if j >= k {
        j - k
    } else {
        j - k + n
    };
    assert(rotated(r, shift) == b);
}

/// Two boundaries do not match where an edge of the first lies on a segment on
/// which no edge of the second lies.
pub proof fn lemma_foreign_parent_never_matches(a: Seq<Edge>, b: Seq<Edge>, i: int)
    requires
        0 <= i < a.len(),
        forall|j: int| 0 <= j < b.len() ==> b[j].parent != a[i].parent,
    ensures
        !structures_match(a, b),
        !structures_match(b, a),
{
    if is_rotation(a, b) {
        let k = choose|k: int| 0 <= k < a.len() && #[trigger] rotated(a, k) == b;
        let at = if i >= k {
            i - k
        } else {
            i - k + a.len()
        };
        assert(rotated(a, k)[at] == a[i]);
    }
    if is_rotation(b, a) {
        let k = choose|k: int| 0 <= k < b.len() && #[trigger] rotated(b, k) == a;
        let from = if i + k < b.len() {
            i + k
        } else {
            i + k - b.len()
        };
        assert(rotated(b, k)[i] == b[from]);
    }
}

/// Whether two edges are the same.
fn same_edge(a: &Edge, b: &Edge) -> (same: bool)
    ensures
        same == (*a == *b),
{
    let same_part = match (a.part, b.part) {
        (None, None) => true,
        (Some(x), Some(y)) => x == y,
        _ => false,
    };
    a.parent == b.parent && same_part && a.flow == b.flow
}

impl DynamicRegionStructure {
    /// The edges, in the order in which the boundary runs.
    pub closed spec fn view(&self) -> Seq<Edge> {
        self.edges@
    }

    pub fn new() -> (structure: Self)
        ensures
            structure@ == Seq::<Edge>::empty(),
    {
        Self { edges: Vec::new() }
    }

    /// Adds an edge at the end of the boundary.
    pub fn push(&mut self, parent: (SegmentId, Option<Part>), flow: Flow)
        ensures
            final(self)@ == old(self)@.push(Edge { parent: parent.0, part: parent.1, flow }),
    {
        self.edges.push(Edge { parent: parent.0, part: parent.1, flow });
    }

    /// The number of edges.
    pub fn len(&self) -> (n: usize)
        ensures
            n == self@.len(),
    {
        self.edges.len()
    }

    /// The `i`-th edge of the boundary.
    pub fn edge(&self, i: usize) -> (e: Edge)
        requires
            i < self@.len(),
        ensures
            e == self@[i as int],
    {
        self.edges[i]
    }

    /// Whether each edge of this boundary finds an edge of its own in `other`.
    fn within(&self, other: &DynamicRegionStructure) -> (all: bool)
        ensures
            all == is_sub_multiset(self@, other@),
    {
        let mut rest: Vec<Edge> = Vec::new();
        let mut c: usize = 0;
        while c < other.edges.len()
            invariant
                c <= other.edges.len(),
                rest@ == other.edges@.take(c as int),
            decreases other.edges.len() - c,
        {
            rest.push(other.edges[c]);
            c += 1;
        }
        proof {
            broadcast use group_to_multiset_ensures;

            assert(rest@ == other@);
            assert(self@.take(0) =~= Seq::<Edge>::empty());
            assert(self@.take(0).to_multiset().add(rest@.to_multiset()) =~= other@.to_multiset());
        }
        let mut i: usize = 0;
        while i < self.edges.len()
            invariant
                i <= self.edges.len(),
                self@.take(i as int).to_multiset().add(rest@.to_multiset()) == other@.to_multiset(),
            decreases self.edges.len() - i,
        {
            let wanted = self.edges[i];
            let mut j: usize = 0;
            let mut found = false;
            while j < rest.len()
                invariant_except_break
                    !found,
                    j <= rest.len(),
                    forall|x: int| 0 <= x < j ==> rest@[x] != wanted,
                ensures
                    j <= rest.len(),
                    found ==> j < rest.len() && rest@[j as int] == wanted,
                    !found ==> forall|x: int| 0 <= x < rest.len() ==> rest@[x] != wanted,
                decreases rest.len() - j,
            {
                if same_edge(&rest[j], &wanted) {
                    found = true;
                    break ;
                }
                j += 1;
            }
            proof {
                broadcast use group_to_multiset_ensures;

                let before = self@.take(i as int);
                assert(self@.take(i + 1) == before.push(wanted));
                if !found {
                    assert(rest@.to_multiset().count(wanted) == 0) by {
                        if rest@.to_multiset().count(wanted) > 0 {
                            assert(rest@.to_multiset().contains(wanted));
                            assert(rest@.contains(wanted));
                        }
                    }
                    assert(self@ == self@.take(i + 1) + self@.skip(i + 1));
                    lemma_multiset_commutative(self@.take(i + 1), self@.skip(i + 1));
                    assert(self@.to_multiset().count(wanted) >= before.push(
                        wanted,
                    ).to_multiset().count(wanted));
                    assert(other@.to_multiset().count(wanted) == before.to_multiset().count(
                        wanted,
                    ));
                    assert(!self@.to_multiset().subset_of(other@.to_multiset()));
                } else {
                    to_multiset_remove(rest@, j as int);
                    assert(before.push(wanted).to_multiset().add(
                        rest@.remove(j as int).to_multiset(),
                    ) =~= other@.to_multiset());
                }
            }
            if !found {
                return false;
            }
            rest.remove(j);
            i += 1;
        }
        proof {
            assert(self@.take(i as int) == self@);
            assert(self@.to_multiset().subset_of(other@.to_multiset()));
        }
        true
    }

    /// Whether `other` is this boundary read from its `k`-th edge on.
    fn rotation_is(&self, k: usize, other: &DynamicRegionStructure) -> (same: bool)
        requires
            k < self@.len(),
        ensures
            same == (rotated(self@, k as int) == other@),
    {
        let n = self.edges.len();
        if other.edges.len() != n {
            return false;
        }
        let mut i: usize = 0;
        while i < n
            invariant
                n == self@.len(),
                n == other@.len(),
                k < n,
                i <= n,
                forall|x: int| 0 <= x < i ==> rotated(self@, k as int)[x] == other@[x],
            decreases n - i,
        {
            let from = if i < n - k {
                i + k
            } else {
                i - (n - k)
            };
            assert(rotated(self@, k as int)[i as int] == self@[from as int]);
            if !same_edge(&self.edges[from], &other.edges[i]) {
                return false;
            }
            i += 1;
        }
        assert(rotated(self@, k as int) =~= other@);
        true
    }

    /// Whether this boundary and `other` belong to the same region.
    pub fn match_structure(&self, other: &DynamicRegionStructure) -> (matched: bool)
        ensures
            matched == structures_match(self@, other@),
    {
        if !self.within(other) {
            return false;
        }
        let mut k: usize = 0;
        while k < self.edges.len()
            invariant
                k <= self.edges.len(),
                is_sub_multiset(self@, other@),
                forall|x: int| 0 <= x < k ==> #[trigger] rotated(self@, x) != other@,
            decreases self.edges.len() - k,
        {
            if self.rotation_is(k, other) {
                return true;
            }
            k += 1;
        }
        false
    }

    /// A boundary with the same edges.
    pub fn copy(&self) -> (same: Self)
        ensures
            same@ == self@,
    {
        let mut edges: Vec<Edge> = Vec::new();
        let mut i: usize = 0;
        while i < self.edges.len()
            invariant
                i <= self.edges.len(),
                edges@ == self.edges@.take(i as int),
            decreases self.edges.len() - i,
        {
            edges.push(self.edges[i]);
            i += 1;
        }
        assert(self.edges@.take(i as int) == self.edges@);
        Self { edges }
    }
}

/// The style of a region: a colour by its red, green and blue parts and its
/// opacity.
#[derive(Clone, Copy, Debug, PartialEq, Eq, Structural)]
pub struct Color {
    pub r: u8,
    pub g: u8,
    pub b: u8,
    pub a: u8,
}

/// One piece of a cut drawing: its shape, the segment of the drawing that it was
/// cut from, and the half of that segment where it was a cubic.
#[derive(Clone, Copy, Debug)]
pub struct Piece {
    pub segment: PathSeg,
    pub parent: SegmentId,
    pub part: Option<Part>,
}

/// A drawing cut at its crossings: pieces that meet at their ends only.
#[derive(Clone)]
pub struct IntersectData {
    pieces: Vec<Piece>,
}

impl IntersectData {
    /// The pieces, in the order in which they were added.
    pub closed spec fn view(&self) -> Seq<Piece> {
        self.pieces@
    }

    pub fn new() -> (data: Self)
        ensures
            data@ == Seq::<Piece>::empty(),
    {
        Self { pieces: Vec::new() }
    }

    /// Adds a piece at the end.
    pub fn push(&mut self, segment: PathSeg, parent: (SegmentId, Option<Part>))
        ensures
            final(self)@ == old(self)@.push(Piece { segment, parent: parent.0, part: parent.1 }),
    {
        self.pieces.push(Piece { segment, parent: parent.0, part: parent.1 });
    }

    /// The number of pieces.
    pub fn len(&self) -> (n: usize)
        ensures
            n == self@.len(),
    {
        self.pieces.len()
    }

    /// The `i`-th piece.
    pub fn piece(&self, i: usize) -> (piece: Piece)
        requires
            i < self@.len(),
        ensures
            piece == self@[i as int],
    {
        self.pieces[i]
    }
}

/// `pieces` are what a segment of a drawing gives to be searched for crossings:
/// nothing where the drawing lacks its start or its end, the two halves of a
/// cubic, cubics themselves and each marked as the half that it is, and a line
/// or a quadratic whole.
pub open spec fn cut_from(points: Seq<(PointId, Point)>, row: SegmentRow, pieces: Seq<Piece>) -> bool {
    match shape_of(points, row) {
        None => pieces.len() == 0,
        Some(shape) => if shape.len() == 4 {
            exists|whole: PathSeg|
                #![trigger cubic_halves(whole)]
                control_points(whole) == shape && pieces == seq![
                    Piece { segment: cubic_halves(whole).0, parent: row.id, part: Some(Part::First) },
                    Piece { segment: cubic_halves(whole).1, parent: row.id, part: Some(Part::Second) },
                ] && control_points(pieces[0].segment).len() == 4 && control_points(
                    pieces[1].segment,
                ).len() == 4
        } else {
            pieces.len() == 1 && control_points(pieces[0].segment) == shape && pieces[0].parent
                == row.id && pieces[0].part.is_none()
        },
    }
}

/// `pieces` are the pieces of all segments of a drawing, in the order of the
/// segments.
pub open spec fn pieces_from(
    points: Seq<(PointId, Point)>,
    rows: Seq<SegmentRow>,
    pieces: Seq<Piece>,
) -> bool {
    exists|per_row: Seq<Seq<Piece>>|
        #![trigger per_row.flatten()]
        per_row.len() == rows.len() && pieces == per_row.flatten() && forall|r: int|
            0 <= r < rows.len() ==> cut_from(points, rows[r], #[trigger] per_row[r])
}

/// The pieces of the segments of a drawing.
pub fn segment_pieces(mesh: &MMesh) -> (pieces: Vec<Piece>)
    requires
        mesh.wf(),
    ensures
        pieces_from(mesh.points(), mesh.segments(), pieces@),
{
    let mut pieces: Vec<Piece> = Vec::new();
    let ghost mut per_row: Seq<Seq<Piece>> = Seq::empty();
    let count = mesh.segment_count();
    let mut at: usize = 0;
    while at < count
        invariant
            mesh.wf(),
            count == mesh.segments().len(),
            at <= count,
            per_row.len() == at,
            pieces@ == per_row.flatten(),
            forall|r: int|
                0 <= r < at ==> cut_from(mesh.points(), mesh.segments()[r], #[trigger] per_row[r]),
        decreases count - at,
    {
        let row = mesh.segment_row(at);
        let ghost before = pieces@;
        match mesh.path_segment(at) {
            Some(whole) => {
                match subdivide_cubic(&whole) {
                    Some((first, second)) => {
                        pieces.push(Piece { segment: first, parent: row.id, part: Some(Part::First) });
                        pieces.push(
                            Piece { segment: second, parent: row.id, part: Some(Part::Second) },
                        );
                    },
                    None => {
                        pieces.push(Piece { segment: whole, parent: row.id, part: None });
                    },
                }
            },
            None => {},
        }
        proof {
            let added = pieces@.skip(before.len() as int);
            assert(pieces@ == before + added);
            per_row.lemma_flatten_push(added);
            assert(cut_from(mesh.points(), row, added)) by {
                let shape = shape_of(mesh.points(), row);
                if shape.is_some() && shape.unwrap().len() == 4 {
                    assert(added.len() == 2);
                    assert(added =~= seq![added[0], added[1]]);
                }
            }
            let ghost old_rows = per_row;
            per_row = per_row.push(added);
            assert forall|r: int| 0 <= r < at + 1 implies cut_from(
                mesh.points(),
                mesh.segments()[r],
                #[trigger] per_row[r],
            ) by {
                if r < at {
                    assert(per_row[r] == old_rows[r]);
                }
            }
        }
        at += 1;
    }
    pieces
}

/// The crossings of the `i`-th piece with the first `k` pieces other than
/// itself, in the order of those pieces.
pub open spec fn found_against(pieces: Seq<Piece>, i: int, k: int) -> Seq<Param>
    decreases k,
{
    if k <= 0 {
        Seq::empty()
    } else if k - 1 == i {
        found_against(pieces, i, k - 1)
    } else {
        found_against(pieces, i, k - 1) + crossings(
            pieces[i].segment,
            0,
            pieces[k - 1].segment,
            0,
            PARAM_ONE as int,
            joints_of(pieces[i].segment, pieces[k - 1].segment),
        )
    }
}

/// `cuts` holds, for each piece, the places at which it is cut: its crossings
/// with all other pieces and its two ends, cleaned up.
pub open spec fn is_plan(pieces: Seq<Piece>, cuts: Seq<Vec<Param>>) -> bool {
    &&& cuts.len() == pieces.len()
    &&& forall|i: int|
        0 <= i < pieces.len() ==> is_cleanup(
            found_against(pieces, i, pieces.len() as int),
            (#[trigger] cuts[i])@,
        )
}

/// In a drawing of which no piece crosses another, every piece is cut at its
/// two ends only: no piece is cut apart.
pub proof fn lemma_uncrossed_drawing_is_uncut(pieces: Seq<Piece>, cuts: Seq<Vec<Param>>)
    requires
        is_plan(pieces, cuts),
        forall|i: int|
            0 <= i < pieces.len() ==> #[trigger] found_against(pieces, i, pieces.len() as int)
                == Seq::<Param>::empty(),
    ensures
        forall|i: int|
            0 <= i < cuts.len() ==> (#[trigger] cuts[i])@ == seq![
                Param { ticks: 0 },
                Param { ticks: PARAM_ONE },
            ],
{
    assert forall|i: int| 0 <= i < cuts.len() implies (#[trigger] cuts[i])@ == seq![
        Param { ticks: 0 },
        Param { ticks: PARAM_ONE },
    ] by {
        assert(found_against(pieces, i, pieces.len() as int) == Seq::<Param>::empty());
        lemma_uncrossed_is_uncut(cuts[i]@);
    }
}

/// The places at which each of the pieces is cut. Each list begins with the
/// start of its piece and rises by more than a hundredth from place to place.
pub fn cut_plan(pieces: &Vec<Piece>) -> (cuts: Vec<Vec<Param>>)
    ensures
        is_plan(pieces@, cuts@),
        forall|i: int| 0 <= i < cuts.len() ==> (#[trigger] cuts[i]).len() >= 1,
{
    let mut cuts: Vec<Vec<Param>> = Vec::new();
    let mut i: usize = 0;
    while i < pieces.len()
        invariant
            i <= pieces.len(),
            cuts.len() == i,
            forall|r: int|
                0 <= r < i ==> is_cleanup(
                    found_against(pieces@, r, pieces.len() as int),
                    (#[trigger] cuts[r])@,
                ) && cuts[r].len() >= 1,
        decreases pieces.len() - i,
    {
        let mut found: Vec<Param> = Vec::new();
        let mut j: usize = 0;
        while j < pieces.len()
            invariant
                i < pieces.len(),
                j <= pieces.len(),
                found@ == found_against(pieces@, i as int, j as int),
            decreases pieces.len() - j,
        {
            if i != j {
                let mut more = path_intersections(pieces[i].segment, pieces[j].segment);
                found.append(&mut more);
            }
            j += 1;
        }
        let cleaned = cleanup_intersections(&found);
        cuts.push(cleaned);
        i += 1;
    }
    cuts
}

/// What is to be cut of a drawing: its pieces, and for each piece the places at
/// which it is cut. The part of a piece between two places that follow each
/// other is one piece of the cut drawing.
pub struct IntersectPlan {
    pub pieces: Vec<Piece>,
    pub cuts: Vec<Vec<Param>>,
}

/// The pieces of a drawing and the places at which each is cut, so that no two
/// parts cross: every piece is searched for its crossings with every other.
pub fn intersection_plan(mesh: &MMesh) -> (plan: IntersectPlan)
    requires
        mesh.wf(),
    ensures
        pieces_from(mesh.points(), mesh.segments(), plan.pieces@),
        is_plan(plan.pieces@, plan.cuts@),
        forall|i: int| 0 <= i < plan.cuts.len() ==> (#[trigger] plan.cuts[i]).len() >= 1,
{
    let pieces = segment_pieces(mesh);
    let cuts = cut_plan(&pieces);
    IntersectPlan { pieces, cuts }
}

/// The first `k` parts of a piece that is cut at the places `cuts`: each the
/// part between two places that follow each other, cut from the same segment,
/// and from the same half of it, as the piece.
pub open spec fn parts_of(piece: Piece, cuts: Seq<Param>, k: int) -> Seq<Piece>
    decreases k,
{
    if k <= 0 {
        Seq::empty()
    } else {
        parts_of(piece, cuts, k - 1).push(
            Piece {
                segment: part_between(
                    piece.segment,
                    param_place(cuts[k - 1].ticks as int),
                    param_place(cuts[k].ticks as int),
                ),
                ..piece
            },
        )
    }
}

/// The parts of the first `i` pieces, each piece cut at its places, in the
/// order of the pieces.
pub open spec fn cut_drawing(pieces: Seq<Piece>, cuts: Seq<Vec<Param>>, i: int) -> Seq<Piece>
    decreases i,
{
    if i <= 0 {
        Seq::empty()
    } else {
        cut_drawing(pieces, cuts, i - 1) + parts_of(
            pieces[i - 1],
            cuts[i - 1]@,
            cuts[i - 1]@.len() - 1,
        )
    }
}

/// Where every piece is cut at its two ends only, the first `i` pieces give `i`
/// parts: each piece gives the part from its start to its end.
pub proof fn lemma_uncut_pieces_stay(pieces: Seq<Piece>, cuts: Seq<Vec<Param>>, i: int)
    requires
        cuts.len() == pieces.len(),
        0 <= i <= pieces.len(),
        forall|j: int|
            0 <= j < cuts.len() ==> (#[trigger] cuts[j])@ == seq![
                Param { ticks: 0 },
                Param { ticks: PARAM_ONE },
            ],
    ensures
        cut_drawing(pieces, cuts, i).len() == i,
        forall|j: int|
            0 <= j < i ==> #[trigger] cut_drawing(pieces, cuts, i)[j] == (Piece {
                segment: window(pieces[j].segment, 0, PARAM_ONE as int),
                ..pieces[j]
            }),
    decreases i,
{
    if i > 0 {
        lemma_uncut_pieces_stay(pieces, cuts, i - 1);
        let before = cut_drawing(pieces, cuts, i - 1);
        let places = cuts[i - 1]@;
        let parts = parts_of(pieces[i - 1], places, 1);
        assert(parts_of(pieces[i - 1], places, 0) == Seq::<Piece>::empty());
        assert(parts.len() == 1);
        assert(cut_drawing(pieces, cuts, i) == before + parts);
        assert forall|j: int| 0 <= j < i implies #[trigger] cut_drawing(pieces, cuts, i)[j] == (Piece {
            segment: window(pieces[j].segment, 0, PARAM_ONE as int),
            ..pieces[j]
        }) by {
            if j < i - 1 {
                assert(cut_drawing(pieces, cuts, i)[j] == before[j]);
            } else {
                assert(cut_drawing(pieces, cuts, i)[j] == parts[0]);
            }
        }
    }
}

/// A drawing of which no piece crosses another stays as it is when it is cut:
/// it has one part for each piece, the piece from its start to its end, of the
/// kind of the piece, and cut from the same segment.
pub proof fn lemma_uncrossed_drawing_keeps_its_pieces(
    points: Seq<(PointId, Point)>,
    rows: Seq<SegmentRow>,
    pieces: Seq<Piece>,
    cuts: Seq<Vec<Param>>,
    data: Seq<Piece>,
)
    requires
        is_cut(points, rows, pieces, cuts, data),
        forall|i: int|
            0 <= i < pieces.len() ==> #[trigger] found_against(pieces, i, pieces.len() as int)
                == Seq::<Param>::empty(),
    ensures
        data.len() == pieces.len(),
        forall|j: int|
            0 <= j < data.len() ==> #[trigger] data[j] == (Piece {
                segment: window(pieces[j].segment, 0, PARAM_ONE as int),
                ..pieces[j]
            }) && control_points(data[j].segment).len() == control_points(pieces[j].segment).len(),
{
    lemma_uncrossed_drawing_is_uncut(pieces, cuts);
    lemma_uncut_pieces_stay(pieces, cuts, pieces.len() as int);
    assert forall|j: int| 0 <= j < data.len() implies control_points(
        (#[trigger] data[j]).segment,
    ).len() == control_points(pieces[j].segment).len() by {
        let parts = parts_of(pieces[j], cuts[j]@, cuts[j]@.len() - 1);
        assert(same_kind(pieces[j], parts));
        assert(parts_of(pieces[j], cuts[j]@, 0) == Seq::<Piece>::empty());
        assert(parts[0].segment == data[j].segment);
    }
}

/// Every one of `parts` is of the kind of `piece`: a line, a quadratic or a
/// cubic, as the piece is.
pub open spec fn same_kind(piece: Piece, parts: Seq<Piece>) -> bool {
    forall|k: int|
        0 <= k < parts.len() ==> control_points((#[trigger] parts[k]).segment).len()
            == control_points(piece.segment).len()
}

/// Every part of a piece that is cut is of the kind of the piece.
pub open spec fn kinds_kept(pieces: Seq<Piece>, cuts: Seq<Vec<Param>>) -> bool {
    forall|i: int|
        0 <= i < pieces.len() ==> same_kind(
            pieces[i],
            #[trigger] parts_of(pieces[i], cuts[i]@, cuts[i]@.len() - 1),
        )
}

/// Cuts the pieces at their places. The parts of a piece are of its kind.
pub fn cut(plan: &IntersectPlan) -> (data: IntersectData)
    requires
        plan.cuts.len() == plan.pieces.len(),
    ensures
        data@ == cut_drawing(plan.pieces@, plan.cuts@, plan.pieces.len() as int),
        kinds_kept(plan.pieces@, plan.cuts@),
{
    let mut data = IntersectData::new();
    let mut i: usize = 0;
    while i < plan.pieces.len()
        invariant
            plan.cuts.len() == plan.pieces.len(),
            i <= plan.pieces.len(),
            data@ == cut_drawing(plan.pieces@, plan.cuts@, i as int),
            forall|j: int|
                0 <= j < i ==> same_kind(
                    plan.pieces@[j],
                    #[trigger] parts_of(plan.pieces@[j], plan.cuts@[j]@, plan.cuts@[j]@.len() - 1),
                ),
        decreases plan.pieces.len() - i,
    {
        let piece = plan.pieces[i];
        let cuts = &plan.cuts[i];
        let ghost before = data@;
        let mut k: usize = 1;
        while k < cuts.len()
            invariant
                1 <= k,
                cuts.len() == 0 ==> k == 1,
                cuts.len() > 0 ==> k <= cuts.len(),
                data@ == before + parts_of(piece, cuts@, k - 1),
                same_kind(piece, parts_of(piece, cuts@, k - 1)),
            decreases cuts.len() - k,
        {
            let from = cuts[k - 1].place();
            let to = cuts[k].place();
            let part = subsegment(&piece.segment, from, to);
            data.push(part, (piece.parent, piece.part));
            assert(data@ == before + parts_of(piece, cuts@, k as int));
            proof {
                let then = parts_of(piece, cuts@, k - 1);
                let now = parts_of(piece, cuts@, k as int);
                assert forall|t: int| 0 <= t < now.len() implies control_points(
                    (#[trigger] now[t]).segment,
                ).len() == control_points(piece.segment).len() by {
                    if t < then.len() {
                        assert(now[t] == then[t]);
                    }
                }
            }
            k += 1;
        }
        proof {
            if cuts@.len() == 0 {
                assert(parts_of(piece, cuts@, 0) == parts_of(piece, cuts@, -1));
            }
            assert(data@ == before + parts_of(piece, cuts@, cuts@.len() - 1));
        }
        i += 1;
    }
    data
}

/// A drawing cut at its crossings: every piece of the drawing is searched for
/// its crossings with every other, and cut at the places found.
pub fn intersection(mesh: &MMesh) -> (data: IntersectData)
    requires
        mesh.wf(),
    ensures
        exists|pieces: Seq<Piece>, cuts: Seq<Vec<Param>>| #[trigger]
            is_cut(mesh.points(), mesh.segments(), pieces, cuts, data@),
{
    let plan = intersection_plan(mesh);
    let data = cut(&plan);
    assert(is_cut(mesh.points(), mesh.segments(), plan.pieces@, plan.cuts@, data@));
    data
}

/// `data` is the drawing with the points `points` and the segments `rows`, cut:
/// `pieces` are the pieces of its segments, `cuts` the places at which each is
/// cut, and `data` holds the parts, each of the kind of its piece.
pub open spec fn is_cut(
    points: Seq<(PointId, Point)>,
    rows: Seq<SegmentRow>,
    pieces: Seq<Piece>,
    cuts: Seq<Vec<Param>>,
    data: Seq<Piece>,
) -> bool {
    &&& pieces_from(points, rows, pieces)
    &&& is_plan(pieces, cuts)
    &&& data == cut_drawing(pieces, cuts, pieces.len() as int)
    &&& kinds_kept(pieces, cuts)
}

/// What merging the ends of a cut drawing comes to: the number of points left.
pub struct MergeData {
    pub num: usize,
}

/// The angle of half a turn, as a binary64 pattern.
pub const HALF_TURN: u64 = 0x4009_21FB_5444_2D18;

/// The patterns from this one on are those of the negative numbers.
pub const NEGATIVE: u64 = 0x8000_0000_0000_0000;

/// The rank of the turn by an angle between minus half a turn and half a turn,
/// given as a binary64 pattern. A negative angle is the turn by a whole turn
/// more, so the positive angles come first, the small before the great, and then
/// the negative ones, the great before the small. No turn at all, and a pattern
/// that is no such angle, have no rank.
pub open spec fn turn_rank(bits: u64) -> Option<u64> {
    if bits < NEGATIVE {
        if 0 < bits <= HALF_TURN {
            Some(bits)
        } else {
            None
        }
    } else {
        let size = bits - NEGATIVE;
        if 0 < size <= HALF_TURN {
            Some((2 * HALF_TURN + 1 - size) as u64)
        } else {
            None
        }
    }
}

/// The rank of a turn by the angle with the pattern `bits`.
pub fn turn_key(bits: u64) -> (rank: Option<u64>)
    ensures
        rank == turn_rank(bits),
{
    if bits < NEGATIVE {
        if 0 < bits && bits <= HALF_TURN {
            Some(bits)
        } else {
            None
        }
    } else {
        let size = bits - NEGATIVE;
        if 0 < size && size <= HALF_TURN {
            Some(2 * HALF_TURN + 1 - size)
        } else {
            None
        }
    }
}

/// A step that may follow, and the rank of the turn into it.
#[derive(Clone, Copy, Debug)]
pub struct Turn {
    pub next: Step,
    pub rank: u64,
}

/// The turn at `at` has the least rank of `turns`, and is the first that has it.
pub open spec fn is_least_turn(turns: Seq<Turn>, at: int) -> bool {
    &&& 0 <= at < turns.len()
    &&& forall|j: int| 0 <= j < turns.len() ==> turns[at].rank <= (#[trigger] turns[j]).rank
    &&& forall|j: int| 0 <= j < at ==> turns[at].rank < (#[trigger] turns[j]).rank
}

/// The step with the least turn, the first of them where several turn alike;
/// none where there is no turn to choose from.
pub open spec fn least_turn(turns: Seq<Turn>) -> Option<Step> {
    if turns.len() == 0 {
        None
    } else {
        Some(turns[choose|at: int| is_least_turn(turns, at)].next)
    }
}

/// The turns to choose from among the first `k` candidates. `candidates` holds,
/// for each piece, the step along it that may follow, where there is one, and
/// `angles` the angle of the turn into it, as a binary64 pattern. A candidate
/// whose turn has a rank stands among the turns, in the order of the pieces.
pub open spec fn ranked(candidates: Seq<Option<Step>>, angles: Seq<u64>, k: int) -> Seq<Turn>
    decreases k,
{
    if k <= 0 {
        Seq::empty()
    } else {
        let before = ranked(candidates, angles, k - 1);
        match (candidates[k - 1], turn_rank(angles[k - 1])) {
            (Some(next), Some(rank)) => before.push(Turn { next, rank }),
            _ => before,
        }
    }
}

/// The step that follows, of the candidates, where the turns into them have
/// the angles `angles`: the candidate with the least turn.
pub open spec fn choice(candidates: Seq<Option<Step>>, angles: Seq<u64>) -> Option<Step> {
    least_turn(ranked(candidates, angles, candidates.len() as int))
}

/// `next` is the step that follows, of the candidates, for the angles that the
/// turns into the candidates have, whatever they are.
pub open spec fn chosen_among(candidates: Seq<Option<Step>>, next: Option<Step>) -> bool {
    exists|angles: Seq<u64>|
        angles.len() == candidates.len() && next == #[trigger] choice(candidates, angles)
}

/// Every turn to choose from is the turn into a candidate.
pub proof fn lemma_ranked_are_candidates(candidates: Seq<Option<Step>>, angles: Seq<u64>, k: int)
    requires
        0 <= k <= candidates.len(),
    ensures
        forall|t: int|
            0 <= t < ranked(candidates, angles, k).len() ==> is_candidate(
                candidates,
                k,
                (#[trigger] ranked(candidates, angles, k)[t]).next,
            ),
    decreases k,
{
    if k > 0 {
        lemma_ranked_are_candidates(candidates, angles, k - 1);
        let before = ranked(candidates, angles, k - 1);
        let now = ranked(candidates, angles, k);
        assert forall|t: int| 0 <= t < now.len() implies is_candidate(
            candidates,
            k,
            (#[trigger] now[t]).next,
        ) by {
            if t < before.len() {
                assert(now[t] == before[t]);
                let j = choose|j: int|
                    0 <= j < k - 1 && #[trigger] candidates[j] == Some(before[t].next);
                assert(candidates[j] == Some(now[t].next));
            } else {
                assert(candidates[k - 1] == Some(now[t].next));
            }
        }
    }
}

/// The step is one of the first `k` candidates.
pub open spec fn is_candidate(candidates: Seq<Option<Step>>, k: int, to: Step) -> bool {
    exists|j: int| 0 <= j < k && #[trigger] candidates[j] == Some(to)
}

/// The step that is chosen is one of the candidates.
pub proof fn lemma_chosen_is_candidate(candidates: Seq<Option<Step>>, next: Option<Step>)
    requires
        chosen_among(candidates, next),
    ensures
        next matches Some(to) ==> is_candidate(candidates, candidates.len() as int, to),
{
    let angles = choose|angles: Seq<u64>|
        angles.len() == candidates.len() && next == #[trigger] choice(candidates, angles);
    let turns = ranked(candidates, angles, candidates.len() as int);
    lemma_ranked_are_candidates(candidates, angles, candidates.len() as int);
    if turns.len() > 0 {
        lemma_least_turn(turns);
        let at = choose|at: int| is_least_turn(turns, at);
        assert(is_candidate(candidates, candidates.len() as int, turns[at].next));
    }
}

/// Where there are turns, one of them is the least and the first to be so, and
/// no other is.
pub proof fn lemma_least_turn(turns: Seq<Turn>)
    requires
        turns.len() > 0,
    ensures
        exists|at: int| is_least_turn(turns, at),
        forall|a: int, b: int| is_least_turn(turns, a) && is_least_turn(turns, b) ==> a == b,
    decreases turns.len(),
{
    if turns.len() == 1 {
        assert(is_least_turn(turns, 0));
    } else {
        let front = turns.drop_last();
        lemma_least_turn(front);
        let at = choose|at: int| is_least_turn(front, at);
        let last = turns.len() - 1;
        assert forall|j: int| 0 <= j < last implies front[j] == turns[j] by {}
        if turns[last].rank < front[at].rank {
            assert forall|j: int| 0 <= j < turns.len() implies turns[last].rank <= (
            #[trigger] turns[j]).rank by {
                if j < last {
                    assert(front[at].rank <= front[j].rank);
                }
            }
            assert forall|j: int| 0 <= j < last implies turns[last].rank < (#[trigger] turns[j]).rank by {
                assert(front[at].rank <= front[j].rank);
            }
            assert(is_least_turn(turns, last));
        } else {
            assert forall|j: int| 0 <= j < turns.len() implies turns[at].rank <= (
            #[trigger] turns[j]).rank by {
                if j < last {
                    assert(front[at].rank <= front[j].rank);
                }
            }
            assert forall|j: int| 0 <= j < at implies turns[at].rank < (#[trigger] turns[j]).rank by {
                assert(front[at].rank < front[j].rank);
            }
            assert(is_least_turn(turns, at));
        }
    }
    assert forall|a: int, b: int| is_least_turn(turns, a) && is_least_turn(turns, b) implies a
        == b by {
        if a < b {
            assert(turns[b].rank < turns[a].rank);
            assert(turns[a].rank <= turns[b].rank);
        }
        if b < a {
            assert(turns[a].rank < turns[b].rank);
            assert(turns[b].rank <= turns[a].rank);
        }
    }
}

/// The step with the least turn, the first of them where several turn alike;
/// `None` where there is no turn to choose from.
pub fn choose_next(turns: &Vec<Turn>) -> (next: Option<Step>)
    ensures
        next == least_turn(turns@),
        turns.len() == 0 ==> next.is_none(),
        turns.len() > 0 ==> exists|at: int|
            #[trigger] is_least_turn(turns@, at) && next == Some(turns[at].next),
{
    if turns.len() == 0 {
        return None;
    }
    let mut best: usize = 0;
    let mut j: usize = 1;
    while j < turns.len()
        invariant
            1 <= j <= turns.len(),
            best < j,
            forall|x: int| 0 <= x < j ==> turns[best as int].rank <= (#[trigger] turns[x]).rank,
            forall|x: int| 0 <= x < best ==> turns[best as int].rank < (#[trigger] turns[x]).rank,
        decreases turns.len() - j,
    {
        if turns[j].rank < turns[best].rank {
            best = j;
        }
        j += 1;
    }
    assert(is_least_turn(turns@, best as int));
    proof {
        lemma_least_turn(turns@);
    }
    Some(turns[best].next)
}

/// The point at which a step leaves its piece.
pub open spec fn leaving_end(pieces: Seq<Piece>, step: Step) -> Point {
    if step.flow == Flow::StartToEnd {
        control_points(pieces[step.index as int].segment).last()
    } else {
        control_points(pieces[step.index as int].segment).first()
    }
}

/// Two points are one corner of the drawing.
pub open spec fn one_corner(a: Point, b: Point) -> bool {
    distance(a, b) < MIN_SEPARATION
}

/// The step `to` may follow the step `from`: it runs along another piece, and it
/// begins at the corner at which `from` ends. A piece of which both ends lie at
/// that corner is taken from its start.
pub open spec fn joins(pieces: Seq<Piece>, from: Step, to: Step) -> bool {
    let corner = leaving_end(pieces, from);
    let piece = control_points(pieces[to.index as int].segment);
    &&& to.index < pieces.len()
    &&& to.index != from.index
    &&& to.flow == Flow::StartToEnd ==> one_corner(corner, piece.first())
    &&& to.flow == Flow::EndToStart ==> !one_corner(corner, piece.first()) && one_corner(
        corner,
        piece.last(),
    )
}

/// Each link of the table leads from a step to one that may follow it.
pub open spec fn links_join(pieces: Seq<Piece>, links: Seq<Option<Step>>) -> bool {
    &&& links.len() == 2 * pieces.len()
    &&& forall|s: int|
        0 <= s < links.len() ==> ((#[trigger] links[s]) matches Some(next) ==> joins(
            pieces,
            step_at(s),
            next,
        ))
}

/// Each link of the table is the step that follows its step: of the steps that
/// may follow, the one into which the boundary turns least.
pub open spec fn links_follow(pieces: Seq<Piece>, links: Seq<Option<Step>>) -> bool {
    &&& links.len() == 2 * pieces.len()
    &&& forall|s: int| 0 <= s < links.len() ==> follows(pieces, step_at(s), #[trigger] links[s])
}

/// What the search for links reads of a piece: its two ends, the direction in
/// which it leaves its start, and the direction from its end back along it.
#[derive(Clone, Copy)]
pub(crate) struct Ends {
    pub(crate) start: Point,
    pub(crate) end: Point,
    pub(crate) leave: Vec2,
    pub(crate) arrive: Vec2,
}

/// The parameter two hundredths behind the start of a piece, in steps, at which
/// the direction of the piece at its start is taken.
pub const NEAR_START: u64 = 180143985094820;

/// The parameter two hundredths before the end of a piece, in steps, at which
/// the direction of the piece at its end is taken.
pub const NEAR_END: u64 = 8827055269646172;

/// The direction in which a segment leaves its start: that of the chord from
/// the start to the point two hundredths behind it, at length one.
pub open spec fn leaving(seg: PathSeg) -> Vec2 {
    unit(
        difference(
            curve_point(seg, param_place(0)),
            curve_point(seg, param_place(NEAR_START as int)),
        ),
    )
}

/// The direction from the end of a segment back along it: that of the chord
/// from the end to the point two hundredths before it, at length one.
pub open spec fn arriving(seg: PathSeg) -> Vec2 {
    unit(
        difference(
            curve_point(seg, param_place(PARAM_ONE as int)),
            curve_point(seg, param_place(NEAR_END as int)),
        ),
    )
}

/// `ends` holds the ends of the segment and its directions there.
pub(crate) open spec fn is_ends_of(seg: PathSeg, ends: Ends) -> bool {
    &&& ends.start == control_points(seg).first()
    &&& ends.end == control_points(seg).last()
    &&& ends.leave == leaving(seg)
    &&& ends.arrive == arriving(seg)
}

/// The ends of a piece and its directions there.
pub(crate) fn ends_of(seg: &PathSeg) -> (ends: Ends)
    ensures
        is_ends_of(*seg, ends),
{
    let first = point_on(seg, Param::zero().place());
    let second = point_on(seg, Param { ticks: NEAR_START }.place());
    let last = point_on(seg, Param::one().place());
    let before_last = point_on(seg, Param { ticks: NEAR_END }.place());
    Ends {
        start: start_point(seg),
        end: end_point(seg),
        leave: normalized(vector_between(first, second)),
        arrive: normalized(vector_between(last, before_last)),
    }
}

/// The table `ends` holds, of each piece, its ends and its directions there.
spec fn ends_match(pieces: Seq<Piece>, ends: Seq<Ends>) -> bool {
    &&& ends.len() == pieces.len()
    &&& forall|i: int| 0 <= i < ends.len() ==> is_ends_of(pieces[i].segment, #[trigger] ends[i])
}

/// The step along the piece at `j` that may follow the step `from`, where there
/// is one: the piece is another than that of `from`, and it starts, or else
/// ends, at the corner at which `from` ends.
pub open spec fn candidate(pieces: Seq<Piece>, from: Step, j: int) -> Option<Step> {
    let corner = leaving_end(pieces, from);
    let piece = control_points(pieces[j].segment);
    if j == from.index {
        None
    } else if one_corner(corner, piece.first()) {
        Some(Step { index: j as usize, flow: Flow::StartToEnd })
    } else if one_corner(corner, piece.last()) {
        Some(Step { index: j as usize, flow: Flow::EndToStart })
    } else {
        None
    }
}

/// For each piece, the step along it that may follow the step `from`.
pub open spec fn candidates(pieces: Seq<Piece>, from: Step) -> Seq<Option<Step>> {
    Seq::new(pieces.len(), |j: int| candidate(pieces, from, j))
}

/// `next` is the step that follows `from` on the boundary of a region: of the
/// steps that may follow it, the one into which the boundary turns least, for
/// the angles that the turns have. There is none where no step may follow, or
/// no turn has a rank.
pub open spec fn follows(pieces: Seq<Piece>, from: Step, next: Option<Step>) -> bool {
    chosen_among(candidates(pieces, from), next)
}

/// A step that follows is one that may follow.
pub proof fn lemma_follows_joins(pieces: Seq<Piece>, from: Step, next: Option<Step>)
    requires
        follows(pieces, from, next),
        pieces.len() <= usize::MAX,
    ensures
        next matches Some(to) ==> joins(pieces, from, to),
{
    lemma_chosen_is_candidate(candidates(pieces, from), next);
    if next.is_some() {
        let to = next.unwrap();
        let all = candidates(pieces, from);
        let j = choose|j: int| 0 <= j < all.len() && #[trigger] all[j] == Some(to);
        assert(candidate(pieces, from, j) == Some(to));
    }
}

/// The step along the piece at `j` that may follow the step `from`, which ends
/// at `corner`.
fn candidate_of(data: &IntersectData, corner: Point, from: Step, j: usize) -> (found: Option<Step>)
    requires
        j < data@.len(),
        corner == leaving_end(data@, from),
    ensures
        found == candidate(data@, from, j as int),
{
    if j == from.index {
        return None;
    }
    let piece = data.pieces[j];
    if point_distance(corner, start_point(&piece.segment)) < MIN_SEPARATION {
        Some(Step { index: j, flow: Flow::StartToEnd })
    } else if point_distance(corner, end_point(&piece.segment)) < MIN_SEPARATION {
        Some(Step { index: j, flow: Flow::EndToStart })
    } else {
        None
    }
}

/// The point at which a step leaves its piece.
fn corner_at(data: &IntersectData, from: Step) -> (corner: Point)
    requires
        from.index < data@.len(),
    ensures
        corner == leaving_end(data@, from),
{
    let piece = data.pieces[from.index];
    match from.flow {
        Flow::StartToEnd => end_point(&piece.segment),
        Flow::EndToStart => start_point(&piece.segment),
    }
}

/// The step that follows `from` where the turns into the pieces have the
/// angles `angles`, one for each piece, as binary64 patterns: of the steps that
/// may follow `from`, the one with the least turn.
pub fn step_after(data: &IntersectData, from: Step, angles: &Vec<u64>) -> (next: Option<Step>)
    requires
        from.index < data@.len(),
        angles.len() == data@.len(),
    ensures
        next == choice(candidates(data@, from), angles@),
{
    let corner = corner_at(data, from);
    let ghost all = candidates(data@, from);
    let mut turns: Vec<Turn> = Vec::new();
    let mut j: usize = 0;
    while j < angles.len()
        invariant
            from.index < data@.len(),
            angles.len() == data@.len(),
            corner == leaving_end(data@, from),
            all == candidates(data@, from),
            j <= angles.len(),
            turns@ == ranked(all, angles@, j as int),
        decreases angles.len() - j,
    {
        let found = candidate_of(data, corner, from, j);
        assert(found == all[j as int]);
        match (found, turn_key(angles[j])) {
            (Some(to), Some(rank)) => {
                turns.push(Turn { next: to, rank });
            },
            _ => {},
        }
        j += 1;
    }
    choose_next(&turns)
}

/// The angles of the turns from the step `from` into the pieces, one for each
/// piece, as glam measures them: from the direction back along `from` to the
/// direction in which the step that may follow runs into its piece. Where no
/// step along a piece may follow, the angle counts as none.
fn turn_angles(data: &IntersectData, ends: &Vec<Ends>, from: Step) -> (angles: Vec<u64>)
    requires
        ends_match(data@, ends@),
        from.index < data@.len(),
    ensures
        angles.len() == data@.len(),
{
    let own = ends[from.index];
    let (corner, back) = match from.flow {
        Flow::StartToEnd => (own.end, own.arrive),
        Flow::EndToStart => (own.start, own.leave),
    };
    let mut angles: Vec<u64> = Vec::new();
    let mut j: usize = 0;
    while j < ends.len()
        invariant
            ends_match(data@, ends@),
            corner == leaving_end(data@, from),
            j <= ends.len(),
            angles.len() == j,
        decreases ends.len() - j,
    {
        let other = ends[j];
        let bits = match candidate_of(data, corner, from, j) {
            Some(to) => match to.flow {
                Flow::StartToEnd => angle_to(back, other.leave),
                Flow::EndToStart => angle_to(back, other.arrive),
            },
            None => 0,
        };
        angles.push(bits);
        j += 1;
    }
    angles
}

/// The step that follows `from`: of the steps that may follow it, the one into
/// which the boundary turns least, seen from the direction back along `from`.
fn next_step(data: &IntersectData, ends: &Vec<Ends>, from: Step) -> (next: Option<Step>)
    requires
        ends_match(data@, ends@),
        from.index < data@.len(),
    ensures
        follows(data@, from, next),
        next matches Some(to) ==> joins(data@, from, to),
{
    let angles = turn_angles(data, ends, from);
    let next = step_after(data, from, &angles);
    proof {
        assert(next == choice(candidates(data@, from), angles@));
        lemma_follows_joins(data@, from, next);
    }
    next
}

/// The control points of a piece in the order in which a step runs along it.
pub open spec fn oriented(pieces: Seq<Piece>, step: Step) -> Seq<Point> {
    if step.flow == Flow::StartToEnd {
        control_points(pieces[step.index as int].segment)
    } else {
        control_points(pieces[step.index as int].segment).reverse()
    }
}

/// The path along the first `k` steps of `face`: a move to the point at which
/// the first step begins, and the element that draws each step.
pub open spec fn outline(pieces: Seq<Piece>, face: Seq<Step>, k: int) -> Seq<PathElement>
    decreases k,
{
    if k <= 0 {
        seq![PathElement::MoveTo(oriented(pieces, face[0]).first())]
    } else {
        outline(pieces, face, k - 1).push(drawing_element(oriented(pieces, face[k - 1])))
    }
}

/// The edges along the steps of `face`.
pub open spec fn signature(pieces: Seq<Piece>, face: Seq<Step>) -> Seq<Edge> {
    Seq::new(
        face.len(),
        |i: int|
            Edge {
                parent: pieces[face[i].index as int].parent,
                part: pieces[face[i].index as int].part,
                flow: face[i].flow,
            },
    )
}

/// The path and the edges along a boundary.
fn region_of(data: &IntersectData, face: &Vec<Step>) -> (region: (BezPath, DynamicRegionStructure))
    requires
        face.len() >= 1,
        forall|i: int| 0 <= i < face.len() ==> (#[trigger] face[i]).index < data@.len(),
    ensures
        path_elements(region.0) == outline(data@, face@, face.len() as int),
        begins_with_move(region.0),
        region.1@ == signature(data@, face@),
{
    let mut path = new_path();
    let mut structure = DynamicRegionStructure::new();
    let mut k: usize = 0;
    while k < face.len()
        invariant
            k <= face.len(),
            forall|i: int| 0 <= i < face.len() ==> (#[trigger] face[i]).index < data@.len(),
            k == 0 ==> path_elements(path) == Seq::<PathElement>::empty(),
            k > 0 ==> path_elements(path) == outline(data@, face@, k as int),
            k > 0 ==> path_elements(path).first() is MoveTo,
            structure@ == signature(data@, face@).take(k as int),
        decreases face.len() - k,
    {
        let step = face[k];
        let piece = data.pieces[step.index];
        let seg = match step.flow {
            Flow::StartToEnd => piece.segment,
            Flow::EndToStart => reversed(&piece.segment),
        };
        assert(control_points(seg) == oriented(data@, step));
        if k == 0 {
            push_element(&mut path, PathElement::MoveTo(start_point(&seg)));
            assert(path_elements(path) == outline(data@, face@, 0));
        }
        push_element(&mut path, as_element(&seg));
        structure.push((piece.parent, piece.part), step.flow);
        assert(signature(data@, face@).take(k + 1) == signature(data@, face@).take(
            k as int,
        ).push(signature(data@, face@)[k as int]));
        k += 1;
    }
    assert(signature(data@, face@).take(k as int) == signature(data@, face@));
    (path, structure)
}

/// A region as contracts speak of it: the path round it, its style, and the
/// edges of its boundary.
pub struct RegionView {
    pub path: BezPath,
    pub color: Option<Color>,
    pub structure: Seq<Edge>,
}

/// The area of the bounding box of a region, as a binary64 pattern. An area is
/// not negative, so the smaller pattern is the smaller area.
pub open spec fn area_of(region: RegionView) -> u64 {
    box_area(path_box(region.path))
}

/// The region at `at` has the greatest bounding box of `regions`, and is the
/// last that has it.
pub open spec fn is_outer(regions: Seq<RegionView>, at: int) -> bool {
    &&& 0 <= at < regions.len()
    &&& forall|j: int| 0 <= j < regions.len() ==> area_of(#[trigger] regions[j]) <= area_of(regions[at])
    &&& forall|j: int| at < j < regions.len() ==> area_of(#[trigger] regions[j]) < area_of(regions[at])
}

/// The first of the regions of `prev` from `from` on whose boundary matches
/// `edges`.
pub open spec fn first_match(prev: Seq<RegionView>, edges: Seq<Edge>, from: int) -> Option<int>
    decreases prev.len() - from,
{
    if from < 0 || from >= prev.len() {
        None
    } else if structures_match(edges, prev[from].structure) {
        Some(from)
    } else {
        first_match(prev, edges, from + 1)
    }
}

/// The style that a region takes over from the regions of the pass before: that
/// of the first of them that matches it, and its own where none does.
pub open spec fn carried(prev: Seq<RegionView>, region: RegionView) -> Option<Color> {
    match first_match(prev, region.structure, 0) {
        Some(j) => prev[j].color,
        None => region.color,
    }
}

/// Where a region of the pass before matches, the first match is found, and it
/// is that region or one before it.
pub proof fn lemma_first_match(prev: Seq<RegionView>, edges: Seq<Edge>, from: int, j: int)
    requires
        0 <= from <= j < prev.len(),
        structures_match(edges, prev[j].structure),
    ensures
        first_match(prev, edges, from) matches Some(k) && from <= k <= j && structures_match(
            edges,
            prev[k].structure,
        ),
    decreases j - from,
{
    if !structures_match(edges, prev[from].structure) {
        lemma_first_match(prev, edges, from + 1, j);
    }
}

/// A region whose boundary runs as the boundary of a region of the pass before
/// does, from whatever edge it is read, takes over the style of a region that
/// matches it.
pub proof fn lemma_rotation_keeps_style(prev: Seq<RegionView>, region: RegionView, j: int, k: int)
    requires
        0 <= j < prev.len(),
        0 <= k < prev[j].structure.len(),
        region.structure == rotated(prev[j].structure, k),
    ensures
        first_match(prev, region.structure, 0) matches Some(found) && found <= j
            && structures_match(region.structure, prev[found].structure) && carried(prev, region)
            == prev[found].color,
{
    lemma_rotation_matches(prev[j].structure, k);
    lemma_first_match(prev, region.structure, 0, j);
}

/// The regions of a drawing, each with the path round it, its style, and the
/// edges of its boundary.
#[derive(Clone, Debug)]
pub struct DynamicData {
    paths: Vec<BezPath>,
    colors: Vec<Option<Color>>,
    structures: Vec<DynamicRegionStructure>,
}

impl DynamicData {
    /// The regions, in the order in which they were found.
    pub closed spec fn view(&self) -> Seq<RegionView> {
        Seq::new(
            self.paths.len() as nat,
            |i: int|
                RegionView {
                    path: self.paths[i],
                    color: self.colors[i],
                    structure: self.structures[i]@,
                },
        )
    }

    /// Every region has its path, its style and its boundary, and every path
    /// is empty or begins with a move.
    pub closed spec fn wf(&self) -> bool {
        &&& self.paths.len() == self.colors.len()
        &&& self.paths.len() == self.structures.len()
        &&& forall|i: int| 0 <= i < self.paths.len() ==> begins_with_move(#[trigger] self.paths[i])
    }

    pub fn new() -> (regions: Self)
        ensures
            regions.wf(),
            regions@ == Seq::<RegionView>::empty(),
    {
        Self { paths: Vec::new(), colors: Vec::new(), structures: Vec::new() }
    }

    /// Adds a region without a style. Its path is empty or begins with a move.
    pub fn push(&mut self, path: BezPath, structure: DynamicRegionStructure)
        requires
            old(self).wf(),
            begins_with_move(path),
        ensures
            final(self).wf(),
            final(self)@ == old(self)@.push(
                RegionView { path, color: None, structure: structure@ },
            ),
    {
        self.paths.push(path);
        self.structures.push(structure);
        self.colors.push(None);
    }

    /// The number of regions.
    pub fn len(&self) -> (n: usize)
        requires
            self.wf(),
        ensures
            n == self@.len(),
    {
        self.paths.len()
    }

    /// The style of the `i`-th region.
    pub fn color(&self, i: usize) -> (color: Option<Color>)
        requires
            self.wf(),
            i < self@.len(),
        ensures
            color == self@[i as int].color,
    {
        self.colors[i]
    }

    /// The boundary of the `i`-th region.
    pub fn structure(&self, i: usize) -> (structure: &DynamicRegionStructure)
        requires
            self.wf(),
            i < self@.len(),
        ensures
            structure@ == self@[i as int].structure,
    {
        &self.structures[i]
    }

    /// The path round the `i`-th region.
    pub fn path(&self, i: usize) -> (path: &BezPath)
        requires
            self.wf(),
            i < self@.len(),
        ensures
            *path == self@[i as int].path,
    {
        &self.paths[i]
    }
}

/// The table of links of a cut drawing: for each step, the step that follows it
/// on the boundary of a region. Of the steps that may follow a step, it is the
/// one into which the boundary turns least; a step that nothing may follow has
/// no link.
pub fn links(data: &IntersectData) -> (table: Vec<Option<Step>>)
    requires
        data@.len() < usize::MAX / 2,
    ensures
        links_wf(table@),
        links_join(data@, table@),
        links_follow(data@, table@),
{
    let n = data.pieces.len();
    let mut ends: Vec<Ends> = Vec::new();
    let mut i: usize = 0;
    while i < n
        invariant
            n == data@.len(),
            i <= n,
            ends.len() == i,
            ends_match(data@.take(i as int), ends@),
        decreases n - i,
    {
        let piece = data.pieces[i];
        ends.push(ends_of(&piece.segment));
        i += 1;
    }
    assert(data@.take(n as int) == data@);
    let mut table: Vec<Option<Step>> = Vec::new();
    let mut index: usize = 0;
    while index < n
        invariant
            n == data@.len(),
            n < usize::MAX / 2,
            ends_match(data@, ends@),
            index <= n,
            table.len() == 2 * index,
            forall|s: int|
                0 <= s < table.len() ==> ((#[trigger] table[s]) matches Some(next) ==> joins(
                    data@,
                    step_at(s),
                    next,
                )),
            forall|s: int| 0 <= s < table.len() ==> follows(data@, step_at(s), #[trigger] table[s]),
        decreases n - index,
    {
        let forth = Step { index, flow: Flow::StartToEnd };
        let back = Step { index, flow: Flow::EndToStart };
        assert(step_at(2 * index) == forth);
        assert(step_at(2 * index + 1) == back);
        let after_forth = next_step(data, &ends, forth);
        let after_back = next_step(data, &ends, back);
        table.push(after_forth);
        table.push(after_back);
        index += 1;
    }
    table
}

/// `table` is a table of links of the cut drawing `pieces`: each link is the
/// step that follows its step, of the steps that may follow it.
pub open spec fn is_links(pieces: Seq<Piece>, table: Seq<Option<Step>>) -> bool {
    &&& links_wf(table)
    &&& links_join(pieces, table)
    &&& links_follow(pieces, table)
}

/// `angles` has, for each step of a drawing of `n` pieces, one angle for each
/// piece.
pub open spec fn angles_for(n: nat, angles: Seq<Vec<u64>>) -> bool {
    &&& angles.len() == 2 * n
    &&& forall|s: int| 0 <= s < angles.len() ==> (#[trigger] angles[s]).len() == n
}

/// The table of links of a cut drawing where the turns have the angles
/// `angles`: for each step, the step that follows it, which is the one with the
/// least turn of those that may follow. `angles` holds, for each step and each
/// piece, the angle of the turn from the step into the piece, as a binary64
/// pattern.
pub fn links_from(data: &IntersectData, angles: &Vec<Vec<u64>>) -> (table: Vec<Option<Step>>)
    requires
        data@.len() < usize::MAX / 2,
        angles_for(data@.len(), angles@),
    ensures
        table.len() == 2 * data@.len(),
        forall|s: int|
            0 <= s < table.len() ==> #[trigger] table[s] == choice(
                candidates(data@, step_at(s)),
                angles[s]@,
            ),
        is_links(data@, table@),
{
    let n = data.pieces.len();
    let mut table: Vec<Option<Step>> = Vec::new();
    let mut index: usize = 0;
    while index < n
        invariant
            n == data@.len(),
            n < usize::MAX / 2,
            angles_for(data@.len(), angles@),
            index <= n,
            table.len() == 2 * index,
            forall|s: int|
                0 <= s < table.len() ==> #[trigger] table[s] == choice(
                    candidates(data@, step_at(s)),
                    angles[s]@,
                ),
            forall|s: int|
                0 <= s < table.len() ==> ((#[trigger] table[s]) matches Some(next) ==> joins(
                    data@,
                    step_at(s),
                    next,
                )),
            forall|s: int| 0 <= s < table.len() ==> follows(data@, step_at(s), #[trigger] table[s]),
        decreases n - index,
    {
        let forth = Step { index, flow: Flow::StartToEnd };
        let back = Step { index, flow: Flow::EndToStart };
        assert(step_at(2 * index) == forth);
        assert(step_at(2 * index + 1) == back);
        let after_forth = step_after(data, forth, &angles[2 * index]);
        let after_back = step_after(data, back, &angles[2 * index + 1]);
        proof {
            assert(follows(data@, forth, after_forth));
            assert(follows(data@, back, after_back));
            lemma_follows_joins(data@, forth, after_forth);
            lemma_follows_joins(data@, back, after_back);
        }
        table.push(after_forth);
        table.push(after_back);
        index += 1;
    }
    table
}

/// `regions` are the regions with the boundaries `faces` in the cut drawing
/// `pieces`: each has the path along the steps of its boundary, the edges along
/// them, and no style.
pub open spec fn regions_of(pieces: Seq<Piece>, faces: Seq<Vec<Step>>, regions: Seq<RegionView>) -> bool {
    &&& regions.len() == faces.len()
    &&& forall|f: int|
        0 <= f < regions.len() ==> {
            &&& (#[trigger] regions[f]).color.is_none()
            &&& regions[f].structure == signature(pieces, faces[f]@)
            &&& path_elements(regions[f].path) == outline(
                pieces,
                faces[f]@,
                faces[f]@.len() as int,
            )
        }
}

/// `faces` are the boundaries of all regions that the links `table` close, each
/// once, and no step stands on two of them or twice on one. Each begins with
/// its step of least place, and they stand in the order of these steps.
pub open spec fn traced(table: Seq<Option<Step>>, faces: Seq<Vec<Step>>) -> bool {
    &&& all_faces(table, faces)
    &&& faces_distinct(faces)
    &&& faces_in_order(faces)
    &&& forall|step: Step|
        step_in(table, step) && #[trigger] has_face(table, step) ==> on_faces(faces, step)
}

/// `regions` are the regions of the cut drawing `pieces` under the table of
/// links `table`, in which each link is the step with the least turn of those
/// that may follow, with the boundaries `faces`.
pub open spec fn built(
    pieces: Seq<Piece>,
    table: Seq<Option<Step>>,
    faces: Seq<Vec<Step>>,
    regions: Seq<RegionView>,
) -> bool {
    &&& is_links(pieces, table)
    &&& traced(table, faces)
    &&& regions_of(pieces, faces, regions)
}

/// The boundary of every region has as many edges as steps, and two at the
/// least.
pub proof fn lemma_regions_have_two_edges(
    pieces: Seq<Piece>,
    table: Seq<Option<Step>>,
    faces: Seq<Vec<Step>>,
    regions: Seq<RegionView>,
)
    requires
        built(pieces, table, faces, regions),
    ensures
        forall|f: int|
            0 <= f < regions.len() ==> (#[trigger] regions[f]).structure.len() == faces[f]@.len()
                >= 2,
{
    assert forall|f: int| 0 <= f < regions.len() implies (#[trigger] regions[f]).structure.len()
        == faces[f]@.len() >= 2 by {
        assert(is_face(table, faces[f]@));
    }
}

/// The edge taken the other way.
pub open spec fn turned(edge: Edge) -> Edge {
    Edge {
        flow: match edge.flow {
            Flow::StartToEnd => Flow::EndToStart,
            Flow::EndToStart => Flow::StartToEnd,
        },
        ..edge
    }
}

/// A drawing whose pieces are linked to a single ring, as those of a closed
/// curve that does not cross itself are, has two regions: the inside and the
/// background. The boundary of each has an edge for every piece. That of the
/// first runs forth along the pieces in their order, and that of the second is
/// the same boundary read backwards from the first piece, every edge taken the
/// other way.
pub proof fn lemma_ring_has_two_regions(
    pieces: Seq<Piece>,
    table: Seq<Option<Step>>,
    faces: Seq<Vec<Step>>,
    regions: Seq<RegionView>,
    n: int,
)
    requires
        built(pieces, table, faces, regions),
        is_ring(table, n),
    ensures
        regions.len() == 2,
        regions[0].structure.len() == n,
        regions[1].structure.len() == n,
        forall|k: int|
            0 <= k < n ==> #[trigger] regions[0].structure[k] == (Edge {
                parent: pieces[k].parent,
                part: pieces[k].part,
                flow: Flow::StartToEnd,
            }),
        forall|k: int|
            0 <= k < n ==> #[trigger] regions[1].structure[k] == turned(
                regions[0].structure[ring_behind(0, k, n)],
            ),
{
    lemma_ring_faces(table, n, faces);
    assert(faces[0]@ == ring_forth(n));
    assert(faces[1]@ == ring_back(n));
    assert(regions[0].structure == signature(pieces, faces[0]@));
    assert(regions[1].structure == signature(pieces, faces[1]@));
    assert forall|k: int| 0 <= k < n implies #[trigger] regions[0].structure[k] == (Edge {
        parent: pieces[k].parent,
        part: pieces[k].part,
        flow: Flow::StartToEnd,
    }) by {
        assert(faces[0]@[k] == forth(k));
    }
    assert forall|k: int| 0 <= k < n implies #[trigger] regions[1].structure[k] == turned(
        regions[0].structure[ring_behind(0, k, n)],
    ) by {
        let j = ring_behind(0, k, n);
        assert(faces[1]@[k] == back(j));
        assert(faces[0]@[j] == forth(j));
    }
}

/// The places, among the pieces, of the steps of a boundary.
pub open spec fn places(face: Seq<Step>) -> Seq<usize> {
    Seq::new(face.len(), |i: int| face[i].index)
}

/// `face` is the boundary that begins with the step `start`, and `path`,
/// `structure` and `visited` are the path along it, its edges, and the places
/// of the pieces along it.
pub open spec fn region_along(
    pieces: Seq<Piece>,
    table: Seq<Option<Step>>,
    start: Step,
    face: Seq<Step>,
    path: BezPath,
    structure: Seq<Edge>,
    visited: Seq<usize>,
) -> bool {
    &&& is_face(table, face)
    &&& face[0] == start
    &&& structure == signature(pieces, face)
    &&& visited == places(face)
    &&& path_elements(path) == outline(pieces, face, face.len() as int)
}

/// `region` is the region from the step `start` under the links `table`: none
/// where the walk from `start` does not close to a boundary, and else the path
/// along the boundary, its edges, and the places of the pieces along it.
pub open spec fn region_under(
    pieces: Seq<Piece>,
    table: Seq<Option<Step>>,
    start: Step,
    region: Option<(BezPath, Seq<Edge>, Seq<usize>)>,
) -> bool {
    &&& is_links(pieces, table)
    &&& match region {
        None => !has_face(table, start),
        Some(found) => has_face(table, start) && exists|face: Seq<Step>|
            #[trigger] region_along(pieces, table, start, face, found.0, found.1, found.2),
    }
}

/// What a region is in contracts: its path, its edges, and the places of the
/// pieces along its boundary.
pub open spec fn region_view(region: Option<(BezPath, DynamicRegionStructure, Vec<usize>)>) -> Option<
    (BezPath, Seq<Edge>, Seq<usize>),
> {
    match region {
        Some((path, structure, visited)) => Some((path, structure@, visited@)),
        None => None,
    }
}

/// The path begins with a move, so that it can be closed.
pub open spec fn can_close(path: BezPath) -> bool {
    path_elements(path).len() > 0 && path_elements(path).first() is MoveTo
}

/// The path closed: the same elements, and a `ClosePath` behind them. `None`
/// for a path that does not begin with a move.
pub fn closed(path: &BezPath) -> (shut: Option<BezPath>)
    ensures
        shut.is_some() <==> can_close(*path),
        shut matches Some(c) ==> path_elements(c) == path_elements(*path).push(
            PathElement::ClosePath,
        ),
{
    let els = elements_of(path);
    let begun = els.len() > 0 && match els[0] {
        PathElement::MoveTo(_) => true,
        _ => false,
    };
    if begun {
        let mut shut = copy_path(path);
        push_element(&mut shut, PathElement::ClosePath);
        Some(shut)
    } else {
        None
    }
}

/// `after` are the regions `before` with the style `color` given to those that
/// are marked in `inside`, and nothing else changed.
pub open spec fn painted(
    before: Seq<RegionView>,
    inside: Seq<bool>,
    color: Option<Color>,
    after: Seq<RegionView>,
) -> bool {
    &&& inside.len() == before.len()
    &&& after.len() == before.len()
    &&& forall|i: int|
        0 <= i < before.len() ==> #[trigger] after[i] == (RegionView {
            color: if inside[i] {
                color
            } else {
                before[i].color
            },
            ..before[i]
        })
}

/// Every region that is marked in `inside` has a path that can be closed: a
/// path that cannot holds no point.
pub open spec fn holding(regions: Seq<RegionView>, inside: Seq<bool>) -> bool {
    forall|i: int| 0 <= i < inside.len() && i < regions.len() && #[trigger] inside[i] ==> can_close(
        regions[i].path,
    )
}

impl DynamicData {
    /// The regions of a cut drawing under a given table of links.
    pub fn build_with(intersect_data: &IntersectData, table: &Vec<Option<Step>>) -> (regions:
        DynamicData)
        requires
            links_wf(table@),
            table.len() == 2 * intersect_data@.len(),
        ensures
            regions.wf(),
            exists|faces: Seq<Vec<Step>>| #[trigger]
                traced(table@, faces) && regions_of(intersect_data@, faces, regions@),
    {
        let faces = trace_faces(table);
        let mut regions = DynamicData::new();
        let mut f: usize = 0;
        assert(traced(table@, faces@));
        while f < faces.len()
            invariant
                f <= faces.len(),
                traced(table@, faces@),
                table.len() == 2 * intersect_data@.len(),
                all_faces(table@, faces@),
                regions.wf(),
                regions_of(intersect_data@, faces@.take(f as int), regions@),
            decreases faces.len() - f,
        {
            let face = &faces[f];
            proof {
                assert(is_face(table@, faces@[f as int]@));
                assert forall|i: int| 0 <= i < face@.len() implies (#[trigger] face@[i]).index
                    < intersect_data@.len() by {
                    assert(step_in(table@, face@[i]));
                }
            }
            let (path, structure) = region_of(intersect_data, face);
            let ghost before = regions@;
            regions.push(path, structure);
            proof {
                let now = faces@.take(f + 1);
                let then = faces@.take(f as int);
                assert forall|g: int| 0 <= g < regions@.len() implies {
                    &&& (#[trigger] regions@[g]).color.is_none()
                    &&& regions@[g].structure == signature(intersect_data@, now[g]@)
                    &&& path_elements(regions@[g].path) == outline(
                        intersect_data@,
                        now[g]@,
                        now[g]@.len() as int,
                    )
                } by {
                    if g < f {
                        assert(regions@[g] == before[g]);
                        assert(now[g] == then[g]);
                    }
                }
            }
            f += 1;
        }
        assert(faces@.take(f as int) == faces@);
        regions
    }

    /// The regions of a cut drawing: the boundaries that its links close, each
    /// with the path along it and the edges of it, in the order in which they
    /// are found, and none with a style.
    pub fn build(intersect_data: IntersectData) -> (regions: DynamicData)
        requires
            intersect_data@.len() < usize::MAX / 2,
        ensures
            regions.wf(),
            exists|table: Seq<Option<Step>>, faces: Seq<Vec<Step>>| #[trigger]
                built(intersect_data@, table, faces, regions@),
            forall|f: int| 0 <= f < regions@.len() ==> (#[trigger] regions@[f]).structure.len() >= 2,
    {
        let table = links(&intersect_data);
        let regions = Self::build_with(&intersect_data, &table);
        proof {
            let faces = choose|faces: Seq<Vec<Step>>| #[trigger]
                traced(table@, faces) && regions_of(intersect_data@, faces, regions@);
            assert(built(intersect_data@, table@, faces, regions@));
            lemma_regions_have_two_edges(intersect_data@, table@, faces, regions@);
        }
        regions
    }

    /// The region whose boundary begins with the piece at `start`, taken the way
    /// `flow`: the path along the boundary, its edges, and the places of the
    /// pieces along it. `None` where the walk from that step along the links of
    /// the drawing does not close.
    pub fn build_region(intersect_data: &IntersectData, start: usize, flow: Flow) -> (region:
        Option<(BezPath, DynamicRegionStructure, Vec<usize>)>)
        requires
            intersect_data@.len() < usize::MAX / 2,
            start < intersect_data@.len(),
        ensures
            exists|table: Seq<Option<Step>>| #[trigger]
                region_under(
                    intersect_data@,
                    table,
                    Step { index: start, flow },
                    region_view(region),
                ),
    {
        let table = links(intersect_data);
        let first = Step { index: start, flow };
        match trace(&table, first) {
            Some(face) => {
                proof {
                    assert forall|i: int| 0 <= i < face@.len() implies (#[trigger] face@[i]).index
                        < intersect_data@.len() by {
                        assert(step_in(table@, face@[i]));
                    }
                }
                let (path, structure) = region_of(intersect_data, &face);
                let mut visited: Vec<usize> = Vec::new();
                let mut k: usize = 0;
                while k < face.len()
                    invariant
                        k <= face.len(),
                        visited@ == places(face@).take(k as int),
                    decreases face.len() - k,
                {
                    visited.push(face[k].index);
                    assert(places(face@).take(k + 1) == places(face@).take(k as int).push(
                        places(face@)[k as int],
                    ));
                    k += 1;
                }
                assert(places(face@).take(k as int) == places(face@));
                let region = Some((path, structure, visited));
                proof {
                    assert(returns_after(table@, first, face@.len() as int));
                    assert(has_face(table@, first));
                    let found = region_view(region).unwrap();
                    assert(region_along(
                        intersect_data@,
                        table@,
                        first,
                        face@,
                        found.0,
                        found.1,
                        found.2,
                    ));
                    assert(region_under(intersect_data@, table@, first, region_view(region)));
                }
                region
            },
            None => {
                assert(region_under(intersect_data@, table@, first, region_view(None)));
                None
            },
        }
    }

    /// The regions without the background. Where there are two regions or more,
    /// the one with the greatest bounding box counts as the background and is
    /// taken out, the last of them where several are as great; the other regions
    /// stay, in their order. A single region stays.
    pub fn filter_outer_regions(self) -> (regions: Self)
        requires
            self.wf(),
        ensures
            regions.wf(),
            self@.len() <= 1 ==> regions@ == self@,
            self@.len() > 1 ==> exists|at: int| #[trigger]
                is_outer(self@, at) && regions@ == self@.remove(at),
            self@.len() > 1 ==> regions@.len() == self@.len() - 1,
    {
        let mut regions = self;
        if regions.paths.len() <= 1 {
            return regions;
        }
        let mut outer: usize = 0;
        let mut greatest: u64 = area(&path_bounding_box(&regions.paths[0]));
        let mut i: usize = 1;
        while i < regions.paths.len()
            invariant
                regions == self,
                regions.wf(),
                1 <= i <= regions.paths.len(),
                outer < i,
                greatest == area_of(self@[outer as int]),
                forall|j: int| 0 <= j < i ==> area_of(#[trigger] self@[j]) <= greatest,
                forall|j: int| outer < j < i ==> area_of(#[trigger] self@[j]) < greatest,
            decreases regions.paths.len() - i,
        {
            let next = area(&path_bounding_box(&regions.paths[i]));
            assert(next == area_of(self@[i as int]));
            if next >= greatest {
                outer = i;
                greatest = next;
            }
            i += 1;
        }
        assert(is_outer(self@, outer as int));
        regions.paths.remove(outer);
        regions.colors.remove(outer);
        regions.structures.remove(outer);
        assert(regions@ =~= self@.remove(outer as int));
        regions
    }

    /// The regions with the styles of the pass before: each region takes over
    /// the style of the first region of `prev_dynamic_region` that its boundary
    /// matches, and keeps its own where it matches none.
    pub fn dynamic(self, prev_dynamic_region: DynamicData) -> (regions: Self)
        requires
            self.wf(),
            prev_dynamic_region.wf(),
        ensures
            regions.wf(),
            regions@.len() == self@.len(),
            forall|i: int|
                0 <= i < self@.len() ==> #[trigger] regions@[i] == (RegionView {
                    color: carried(prev_dynamic_region@, self@[i]),
                    ..self@[i]
                }),
    {
        let mut regions = self;
        let ghost prev = prev_dynamic_region@;
        let mut i: usize = 0;
        while i < regions.paths.len()
            invariant
                self.wf(),
                regions.wf(),
                prev_dynamic_region.wf(),
                prev == prev_dynamic_region@,
                regions@.len() == self@.len(),
                i <= regions.paths.len(),
                forall|k: int|
                    0 <= k < i ==> #[trigger] regions@[k] == (RegionView {
                        color: carried(prev, self@[k]),
                        ..self@[k]
                    }),
                forall|k: int| i <= k < self@.len() ==> #[trigger] regions@[k] == self@[k],
            decreases regions.paths.len() - i,
        {
            let ghost edges = self@[i as int].structure;
            assert(regions@[i as int] == self@[i as int]);
            let mut j: usize = 0;
            let mut found: Option<usize> = None;
            while j < prev_dynamic_region.structures.len()
                invariant_except_break
                    found.is_none(),
                    first_match(prev, edges, 0) == first_match(prev, edges, j as int),
                invariant
                    regions.wf(),
                    prev_dynamic_region.wf(),
                    prev == prev_dynamic_region@,
                    i < regions.paths.len(),
                    edges == regions.structures[i as int]@,
                    j <= prev_dynamic_region.structures.len(),
                ensures
                    match found {
                        Some(at) => first_match(prev, edges, 0) == Some(at as int) && at
                            < prev.len(),
                        None => first_match(prev, edges, 0).is_none(),
                    },
                decreases prev_dynamic_region.structures.len() - j,
            {
                assert(prev[j as int].structure == prev_dynamic_region.structures[j as int]@);
                if regions.structures[i].match_structure(&prev_dynamic_region.structures[j]) {
                    found = Some(j);
                    break ;
                }
                j += 1;
            }
            let ghost before = regions@;
            match found {
                Some(at) => {
                    let color = prev_dynamic_region.colors[at];
                    regions.colors.set(i, color);
                    assert(color == prev[at as int].color);
                },
                None => {},
            }
            proof {
                assert forall|k: int| 0 <= k < i + 1 implies #[trigger] regions@[k] == (RegionView {
                    color: carried(prev, self@[k]),
                    ..self@[k]
                }) by {
                    if k < i {
                        assert(regions@[k] == before[k]);
                    }
                }
                assert forall|k: int| i + 1 <= k < self@.len() implies #[trigger] regions@[k]
                    == self@[k] by {
                    assert(regions@[k] == before[k]);
                }
            }
            i += 1;
        }
        regions
    }

    /// Gives the style `color` to the regions marked in `inside`, and leaves the
    /// others as they are.
    pub fn paint(&mut self, inside: &Vec<bool>, color: Option<Color>)
        requires
            old(self).wf(),
            inside.len() == old(self)@.len(),
        ensures
            final(self).wf(),
            final(self)@.len() == old(self)@.len(),
            forall|i: int|
                0 <= i < old(self)@.len() ==> #[trigger] final(self)@[i] == (RegionView {
                    color: if inside[i] {
                        color
                    } else {
                        old(self)@[i].color
                    },
                    ..old(self)@[i]
                }),
    {
        let mut i: usize = 0;
        while i < self.colors.len()
            invariant
                self.wf(),
                old(self).wf(),
                self@.len() == old(self)@.len(),
                inside.len() == self@.len(),
                i <= self.colors.len(),
                forall|k: int|
                    0 <= k < i ==> #[trigger] self@[k] == (RegionView {
                        color: if inside[k] {
                            color
                        } else {
                            old(self)@[k].color
                        },
                        ..old(self)@[k]
                    }),
                forall|k: int| i <= k < self@.len() ==> #[trigger] self@[k] == old(self)@[k],
            decreases self.colors.len() - i,
        {
            let ghost before = self@;
            if inside[i] {
                self.colors.set(i, color);
            }
            proof {
                assert forall|k: int| 0 <= k < i + 1 implies #[trigger] self@[k] == (RegionView {
                    color: if inside[k] {
                        color
                    } else {
                        old(self)@[k].color
                    },
                    ..old(self)@[k]
                }) by {
                    if k < i {
                        assert(self@[k] == before[k]);
                    }
                }
                assert forall|k: int| i + 1 <= k < self@.len() implies #[trigger] self@[k] == old(
                    self,
                )@[k] by {
                    assert(self@[k] == before[k]);
                }
            }
            i += 1;
        }
    }

    /// Gives the style `color` to the regions whose path, closed as `closed`
    /// closes it, holds the point `position`. Whether a path holds a point is
    /// for kurbo to say; a path that does not begin with a move cannot be closed
    /// and holds none. The other regions keep their styles, and no path or
    /// boundary changes.
    pub fn apply_style(&mut self, color: Option<Color>, position: Point)
        requires
            old(self).wf(),
        ensures
            final(self).wf(),
            exists|inside: Seq<bool>| #[trigger]
                painted(old(self)@, inside, color, final(self)@) && holding(old(self)@, inside),
    {
        let mut inside: Vec<bool> = Vec::new();
        let mut i: usize = 0;
        while i < self.paths.len()
            invariant
                self == old(self),
                self.wf(),
                i <= self.paths.len(),
                inside.len() == i,
                forall|k: int| 0 <= k < i && #[trigger] inside[k] ==> can_close(self@[k].path),
            decreases self.paths.len() - i,
        {
            match closed(&self.paths[i]) {
                Some(shut) => {
                    inside.push(path_contains(&shut, position));
                },
                None => {
                    inside.push(false);
                },
            }
            i += 1;
        }
        self.paint(&inside, color);
        assert(painted(old(self)@, inside@, color, self@) && holding(old(self)@, inside@));
    }
}

} // verus!
