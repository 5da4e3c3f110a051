use vstd::prelude::*;
use vstd::seq_lib::*;
use std::collections::{HashMap, HashSet};
use kurbo::{BezPath, PathSeg, Point};
use crate::next_id::NextId;
use crate::util::{
    as_element, control_points, distance, drawing_element, elements_of, new_path, path_elements,
    point_distance, points_to_segment, push_element, segment_shape, start_point, PathElement,
};
use self::planar::Direction;

pub mod planar;

verus! {

broadcast use vstd::std_specs::hash::group_hash_axioms;

/// Identifier of a point of a mesh.
#[derive(Copy, Clone, Debug, PartialEq, Eq, Hash, Structural)]
pub struct PointId(pub usize);

impl PointId {
    /// The number that the identifier stands for.
    pub open spec fn view(&self) -> usize {
        self.0
    }

    pub fn id(&self) -> (n: usize)
        ensures
            n == self@,
    {
        self.0
    }
}

/// Position of a point in its table.
#[derive(Copy, Clone, Debug, PartialEq, Eq, Hash, Structural)]
pub struct PointIndex(pub usize);

impl PointIndex {
    pub open spec fn view(&self) -> usize {
        self.0
    }

    pub fn index(&self) -> (n: usize)
        ensures
            n == self@,
    {
        self.0
    }
}

/// One row of a point table.
#[derive(Debug, Clone, Copy)]
pub struct PointData {
    pub idx: PointIndex,
    pub id: PointId,
    pub position: Point,
}

impl PointData {
    pub fn new(idx: PointIndex, id: PointId, position: Point) -> (data: Self)
        ensures
            data == (PointData { idx, id, position }),
    {
        Self { idx, id, position }
    }
}

/// The points of a mesh, in the order in which they were added.
#[derive(Clone, Debug)]
pub struct PointTable {
    pub(crate) id: Vec<PointId>,
    pub(crate) position: Vec<Point>,
}

/// The rows of `rows` whose identifier is not in `gone`.
pub open spec fn points_without(rows: Seq<(PointId, Point)>, gone: Set<usize>) -> Seq<
    (PointId, Point),
> {
    rows.filter(|row: (PointId, Point)| !gone.contains(row.0@))
}

/// The row at place `at` is the first of `rows` with identifier `id`.
pub open spec fn first_point_at(rows: Seq<(PointId, Point)>, id: PointId, at: int) -> bool {
    &&& 0 <= at < rows.len()
    &&& rows[at].0 == id
    &&& forall|j: int| 0 <= j < at ==> rows[j].0 != id
}

/// No row of `rows` has identifier `id`.
pub open spec fn no_point(rows: Seq<(PointId, Point)>, id: PointId) -> bool {
    forall|j: int| 0 <= j < rows.len() ==> rows[j].0 != id
}

impl PointTable {
    /// Every row has an identifier and a position.
    pub closed spec fn wf(&self) -> bool {
        self.id.len() == self.position.len()
    }

    /// Identifier and position of each row, first to last.
    pub closed spec fn view(&self) -> Seq<(PointId, Point)> {
        Seq::new(self.id.len() as nat, |i: int| (self.id[i], self.position[i]))
    }

    pub fn new() -> (table: Self)
        ensures
            table.wf(),
            table@ == Seq::<(PointId, Point)>::empty(),
    {
        Self { id: Vec::new(), position: Vec::new() }
    }

    /// The rows, each with its place in the table.
    pub fn data(&self) -> (rows: Vec<PointData>)
        requires
            self.wf(),
        ensures
            rows.len() == self@.len(),
            forall|i: int|
                0 <= i < rows.len() ==> rows[i] == (PointData {
                    idx: PointIndex(i as usize),
                    id: self@[i].0,
                    position: self@[i].1,
                }),
    {
        let mut rows: Vec<PointData> = Vec::new();
        let mut idx: usize = 0;
        while idx < self.id.len()
            invariant
                self.wf(),
                idx <= self.id.len(),
                rows.len() == idx,
                forall|i: int|
                    0 <= i < idx ==> rows[i] == (PointData {
                        idx: PointIndex(i as usize),
                        id: self@[i].0,
                        position: self@[i].1,
                    }),
            decreases self.id.len() - idx,
        {
            rows.push(PointData::new(PointIndex(idx), self.id[idx], self.position[idx]));
            idx += 1;
        }
        rows
    }

    /// Adds a row at the end.
    pub fn push(&mut self, id: PointId, position: Point)
        requires
            old(self).wf(),
        ensures
            final(self).wf(),
            final(self)@ == old(self)@.push((id, position)),
    {
        self.id.push(id);
        self.position.push(position);
    }

    /// Where the first row with identifier `id` stands.
    pub fn find(&self, id: PointId) -> (found: Option<usize>)
        requires
            self.wf(),
        ensures
            match found {
                Some(at) => first_point_at(self@, id, at as int),
                None => no_point(self@, id),
            },
    {
        let mut idx: usize = 0;
        while idx < self.id.len()
            invariant
                self.wf(),
                idx <= self.id.len(),
                forall|j: int| 0 <= j < idx ==> self@[j].0 != id,
            decreases self.id.len() - idx,
        {
            if self.id[idx] == id {
                return Some(idx);
            }
            idx += 1;
        }
        None
    }

    /// Takes out the first row with identifier `id`; the rows behind it move up.
    pub fn remove(&mut self, id: PointId)
        requires
            old(self).wf(),
        ensures
            final(self).wf(),
            no_point(old(self)@, id) ==> final(self)@ == old(self)@,
            forall|at: int|
                first_point_at(old(self)@, id, at) ==> final(self)@ == old(self)@.remove(at),
    {
        match self.find(id) {
            Some(index) => {
                self.id.remove(index);
                self.position.remove(index);
            },
            None => {},
        }
    }

    /// Keeps the rows whose identifier is not in `points`, in their order.
    pub fn remove_multiple(&mut self, points: &HashSet<usize>)
        requires
            old(self).wf(),
        ensures
            final(self).wf(),
            final(self)@ == points_without(old(self)@, points@),
    {
        let mut kept = Self::new();
        let ghost gone = points@;
        let ghost keep = |row: (PointId, Point)| !gone.contains(row.0@);
        let mut idx: usize = 0;
        while idx < self.id.len()
            invariant
                self.wf(),
                kept.wf(),
                gone == points@,
                keep == |row: (PointId, Point)| !gone.contains(row.0@),
                idx <= self.id.len(),
                kept@ == self@.take(idx as int).filter(keep),
            decreases self.id.len() - idx,
        {
            proof {
                let before = self@.take(idx as int);
                assert(self@.take(idx + 1) == before.push(self@[idx as int]));
                before.lemma_filter_push(self@[idx as int], keep);
            }
            if !points.contains(&self.id[idx].0) {
                kept.push(self.id[idx], self.position[idx]);
            }
            idx += 1;
        }
        assert(self@.take(idx as int) == self@);
        *self = kept;
    }
}

/// Identifier of a segment of a mesh.
#[derive(Copy, Clone, Debug, PartialEq, Eq, Hash, Structural)]
pub struct SegmentId(pub usize);

impl SegmentId {
    /// The number that the identifier stands for.
    pub open spec fn view(&self) -> usize {
        self.0
    }

    pub fn id(&self) -> (n: usize)
        ensures
            n == self@,
    {
        self.0
    }
}

/// Position of a segment in its table.
#[derive(Copy, Clone, Debug, PartialEq, Eq, Hash, Structural)]
pub struct SegmentIndex(pub usize);

impl SegmentIndex {
    pub open spec fn view(&self) -> usize {
        self.0
    }

    pub fn idx(&self) -> (n: usize)
        ensures
            n == self@,
    {
        self.0
    }
}

/// A segment as its table holds it: its identifier, the points at which it
/// starts and ends, and its handles. Without a handle it is a line, with one a
/// quadratic, with two a cubic.
#[derive(Copy, Clone, Debug, PartialEq, Eq, Structural)]
pub struct SegmentRow {
    pub id: SegmentId,
    pub p1: PointId,
    pub p2: Option<PointId>,
    pub p3: Option<PointId>,
    pub p4: PointId,
}

/// One row of a segment table, with its place in the table, and with the
/// segment that it was cut from and the way along it where that is known.
#[derive(Clone, Debug, Copy)]
pub struct SegmentData {
    pub idx: SegmentIndex,
    pub id: SegmentId,
    pub p1: PointId,
    pub p2: Option<PointId>,
    pub p3: Option<PointId>,
    pub p4: PointId,
    pub parent: Option<SegmentId>,
    pub direction: Option<Direction>,
}

/// The position that a map of points has for an identifier.
pub open spec fn place_of(points: Map<usize, PointData>, id: PointId) -> Option<Point> {
    if points.contains_key(id@) {
        Some(points[id@].position)
    } else {
        None
    }
}

/// The position that a map of points has for a handle, where there is a handle
/// and the map knows it.
pub open spec fn handle_of(points: Map<usize, PointData>, id: Option<PointId>) -> Option<Point> {
    match id {
        Some(id) => place_of(points, id),
        None => None,
    }
}

/// The control points of the segment of a row: those that the map of points has
/// for its start, its handles and its end. There is none where the map lacks
/// the start or the end; a handle that the map lacks counts as no handle.
pub open spec fn row_shape(points: Map<usize, PointData>, row: SegmentRow) -> Option<Seq<Point>> {
    match (place_of(points, row.p1), place_of(points, row.p4)) {
        (Some(start), Some(end)) => Some(
            segment_shape(start, handle_of(points, row.p2), handle_of(points, row.p3), end),
        ),
        _ => None,
    }
}

/// The position that the map has for the identifier.
fn lookup(points: &HashMap<usize, PointData>, id: PointId) -> (place: Option<Point>)
    ensures
        place == place_of(points@, id),
{
    match points.get(&id.0) {
        Some(data) => Some(data.position),
        None => None,
    }
}

/// The segment of a row, through the positions that the map has for its points.
pub fn row_segment(points: &HashMap<usize, PointData>, row: SegmentRow) -> (seg: Option<PathSeg>)
    ensures
        match row_shape(points@, row) {
            Some(shape) => seg matches Some(s) && control_points(s) == shape,
            None => seg.is_none(),
        },
{
    let start = lookup(points, row.p1);
    let end = lookup(points, row.p4);
    match (start, end) {
        (Some(start), Some(end)) => {
            let first = match row.p2 {
                Some(id) => lookup(points, id),
                None => None,
            };
            let second = match row.p3 {
                Some(id) => lookup(points, id),
                None => None,
            };
            Some(points_to_segment(start, first, second, end))
        },
        _ => None,
    }
}

impl SegmentData {
    pub fn new(
        idx: SegmentIndex,
        id: SegmentId,
        p1: PointId,
        p2: Option<PointId>,
        p3: Option<PointId>,
        p4: PointId,
        parent: Option<SegmentId>,
        direction: Option<Direction>,
    ) -> (data: Self)
        ensures
            data == (SegmentData { idx, id, p1, p2, p3, p4, parent, direction }),
    {
        Self { idx, id, p1, p2, p3, p4, parent, direction }
    }

    /// The row of the table that this is.
    pub open spec fn row(&self) -> SegmentRow {
        SegmentRow { id: self.id, p1: self.p1, p2: self.p2, p3: self.p3, p4: self.p4 }
    }

    /// The segment, through the positions that the map has for its points;
    /// `None` where the map lacks its start or its end.
    pub fn to_path_seg(&self, points: &HashMap<usize, PointData>) -> (seg: Option<PathSeg>)
        ensures
            match row_shape(points@, self.row()) {
                Some(shape) => seg matches Some(s) && control_points(s) == shape,
                None => seg.is_none(),
            },
    {
        row_segment(
            points,
            SegmentRow { id: self.id, p1: self.p1, p2: self.p2, p3: self.p3, p4: self.p4 },
        )
    }
}

/// The segments of a mesh, in the order in which they were added.
#[derive(Clone, Debug)]
pub struct SegmentTable {
    pub(crate) id: Vec<SegmentId>,
    pub(crate) p1: Vec<PointId>,
    pub(crate) p2: Vec<Option<PointId>>,
    pub(crate) p3: Vec<Option<PointId>>,
    pub(crate) p4: Vec<PointId>,
}

/// The row at place `at` is the first of `rows` with identifier `id`.
pub open spec fn first_segment_at(rows: Seq<SegmentRow>, id: SegmentId, at: int) -> bool {
    &&& 0 <= at < rows.len()
    &&& rows[at].id == id
    &&& forall|j: int| 0 <= j < at ==> rows[j].id != id
}

/// No row of `rows` has identifier `id`.
pub open spec fn no_segment(rows: Seq<SegmentRow>, id: SegmentId) -> bool {
    forall|j: int| 0 <= j < rows.len() ==> rows[j].id != id
}

impl SegmentTable {
    /// Every row has all its parts.
    pub closed spec fn wf(&self) -> bool {
        &&& self.id.len() == self.p1.len()
        &&& self.id.len() == self.p2.len()
        &&& self.id.len() == self.p3.len()
        &&& self.id.len() == self.p4.len()
    }

    /// The rows, first to last.
    pub closed spec fn view(&self) -> Seq<SegmentRow> {
        Seq::new(
            self.id.len() as nat,
            |i: int|
                SegmentRow {
                    id: self.id[i],
                    p1: self.p1[i],
                    p2: self.p2[i],
                    p3: self.p3[i],
                    p4: self.p4[i],
                },
        )
    }

    pub fn new() -> (table: Self)
        ensures
            table.wf(),
            table@ == Seq::<SegmentRow>::empty(),
    {
        Self { id: Vec::new(), p1: Vec::new(), p2: Vec::new(), p3: Vec::new(), p4: Vec::new() }
    }

    /// The number of rows.
    pub fn len(&self) -> (n: usize)
        requires
            self.wf(),
        ensures
            n == self@.len(),
    {
        self.id.len()
    }

    /// The row at place `i`.
    pub fn row(&self, i: usize) -> (row: SegmentRow)
        requires
            self.wf(),
            i < self@.len(),
        ensures
            row == self@[i as int],
    {
        SegmentRow { id: self.id[i], p1: self.p1[i], p2: self.p2[i], p3: self.p3[i], p4: self.p4[i] }
    }

    /// The rows, each with its place in the table; none knows a segment that it
    /// was cut from.
    pub fn data(&self) -> (rows: Vec<SegmentData>)
        requires
            self.wf(),
        ensures
            rows.len() == self@.len(),
            forall|i: int|
                0 <= i < rows.len() ==> (#[trigger] rows[i]).row() == self@[i] && rows[i].idx
                    == SegmentIndex(i as usize) && rows[i].parent.is_none()
                    && rows[i].direction.is_none(),
    {
        let mut rows: Vec<SegmentData> = Vec::new();
        let mut idx: usize = 0;
        while idx < self.id.len()
            invariant
                self.wf(),
                idx <= self.id.len(),
                rows.len() == idx,
                forall|i: int|
                    0 <= i < idx ==> (#[trigger] rows[i]).row() == self@[i] && rows[i].idx
                        == SegmentIndex(i as usize) && rows[i].parent.is_none()
                        && rows[i].direction.is_none(),
            decreases self.id.len() - idx,
        {
            rows.push(
                SegmentData::new(
                    SegmentIndex(idx),
                    self.id[idx],
                    self.p1[idx],
                    self.p2[idx],
                    self.p3[idx],
                    self.p4[idx],
                    None,
                    None,
                ),
            );
            idx += 1;
        }
        rows
    }

    /// Adds a row at the end.
    pub fn push(
        &mut self,
        id: SegmentId,
        p1: PointId,
        p2: Option<PointId>,
        p3: Option<PointId>,
        p4: PointId,
    )
        requires
            old(self).wf(),
        ensures
            final(self).wf(),
            final(self)@ == old(self)@.push(SegmentRow { id, p1, p2, p3, p4 }),
    {
        self.id.push(id);
        self.p1.push(p1);
        self.p2.push(p2);
        self.p3.push(p3);
        self.p4.push(p4);
    }

    /// Where the first row with identifier `id` stands.
    pub fn find(&self, id: SegmentId) -> (found: Option<usize>)
        requires
            self.wf(),
        ensures
            match found {
                Some(at) => first_segment_at(self@, id, at as int),
                None => no_segment(self@, id),
            },
    {
        let mut idx: usize = 0;
        while idx < self.id.len()
            invariant
                self.wf(),
                idx <= self.id.len(),
                forall|j: int| 0 <= j < idx ==> self@[j].id != id,
            decreases self.id.len() - idx,
        {
            if self.id[idx] == id {
                return Some(idx);
            }
            idx += 1;
        }
        None
    }

    /// Takes out the first row with identifier `id`; the rows behind it move up.
    pub fn remove(&mut self, id: SegmentId)
        requires
            old(self).wf(),
        ensures
            final(self).wf(),
            no_segment(old(self)@, id) ==> final(self)@ == old(self)@,
            forall|at: int|
                first_segment_at(old(self)@, id, at) ==> final(self)@ == old(self)@.remove(at),
    {
        match self.find(id) {
            Some(index) => {
                self.id.remove(index);
                self.p1.remove(index);
                self.p2.remove(index);
                self.p3.remove(index);
                self.p4.remove(index);
            },
            None => {},
        }
    }

    /// Gives the row at place `at` other points.
    pub fn set(&mut self, at: usize, p1: PointId, p2: Option<PointId>, p3: Option<PointId>, p4: PointId)
        requires
            old(self).wf(),
            at < old(self)@.len(),
        ensures
            final(self).wf(),
            final(self)@ == old(self)@.update(
                at as int,
                SegmentRow { id: old(self)@[at as int].id, p1, p2, p3, p4 },
            ),
    {
        self.p1.set(at, p1);
        self.p2.set(at, p2);
        self.p3.set(at, p3);
        self.p4.set(at, p4);
        assert(self@ =~= old(self)@.update(
            at as int,
            SegmentRow { id: old(self)@[at as int].id, p1, p2, p3, p4 },
        ));
    }
}

/// A drawing: points, segments between them, and the counter that both take
/// their identifiers from.
#[derive(Debug)]
pub struct MMesh {
    pub(crate) points: PointTable,
    pub(crate) segments: SegmentTable,
    pub(crate) next_id: NextId,
}

/// Every point has an identifier below `bound`.
pub open spec fn points_below(rows: Seq<(PointId, Point)>, bound: nat) -> bool {
    forall|i: int| 0 <= i < rows.len() ==> (#[trigger] rows[i]).0@ < bound
}

/// Every segment has an identifier below `bound`.
pub open spec fn segments_below(rows: Seq<SegmentRow>, bound: nat) -> bool {
    forall|i: int| 0 <= i < rows.len() ==> (#[trigger] rows[i]).id@ < bound
}

/// `map` holds the points of the table by their identifiers, and no others:
/// each with its identifier, its place in the table, and its position.
pub open spec fn maps_points(points: Seq<(PointId, Point)>, map: Map<usize, PointData>) -> bool {
    &&& forall|k: usize| #[trigger] map.contains_key(k) <==> has_point(points, PointId(k))
    &&& forall|k: usize|
        #[trigger] map.contains_key(k) ==> map[k].id == PointId(k) && 0 <= map[k].idx@
            < points.len() && points[map[k].idx@ as int] == (PointId(k), map[k].position)
}

/// A point with identifier `id` is among `rows`.
pub open spec fn has_point(rows: Seq<(PointId, Point)>, id: PointId) -> bool {
    exists|i: int| 0 <= i < rows.len() && (#[trigger] rows[i]).0 == id
}

/// The handle, where there is one, is among `rows`.
pub open spec fn has_handle(rows: Seq<(PointId, Point)>, id: Option<PointId>) -> bool {
    match id {
        Some(id) => has_point(rows, id),
        None => true,
    }
}

/// The segment of the row starts, ends or has a handle at the point `id`.
pub open spec fn uses_point(row: SegmentRow, id: PointId) -> bool {
    row.p1 == id || row.p2 == Some(id) || row.p3 == Some(id) || row.p4 == id
}

/// No segment of `rows` starts, ends or has a handle at the point `id`.
pub open spec fn is_floating(rows: Seq<SegmentRow>, id: PointId) -> bool {
    forall|i: int| 0 <= i < rows.len() ==> !uses_point(#[trigger] rows[i], id)
}

/// `rows` without the first row with identifier `id`.
pub open spec fn without_point(rows: Seq<(PointId, Point)>, id: PointId) -> Seq<(PointId, Point)> {
    if no_point(rows, id) {
        rows
    } else {
        rows.remove(choose|at: int| first_point_at(rows, id, at))
    }
}

/// `rows` without the first row of the handle, where there is a handle.
pub open spec fn without_handle(rows: Seq<(PointId, Point)>, id: Option<PointId>) -> Seq<
    (PointId, Point),
> {
    match id {
        Some(id) => without_point(rows, id),
        None => rows,
    }
}

/// `rows` without the first row with identifier `id`, where no segment of
/// `segments` uses that point.
pub open spec fn without_floating(
    rows: Seq<(PointId, Point)>,
    segments: Seq<SegmentRow>,
    id: PointId,
) -> Seq<(PointId, Point)> {
    if is_floating(segments, id) {
        without_point(rows, id)
    } else {
        rows
    }
}

/// The position of the first point with the identifier, where there is one.
pub open spec fn position_of(rows: Seq<(PointId, Point)>, id: PointId) -> Option<Point> {
    if no_point(rows, id) {
        None
    } else {
        Some(rows[choose|at: int| first_point_at(rows, id, at)].1)
    }
}

/// The position of a handle, where there is a handle and a point of it.
pub open spec fn position_of_handle(rows: Seq<(PointId, Point)>, id: Option<PointId>) -> Option<
    Point,
> {
    match id {
        Some(id) => position_of(rows, id),
        None => None,
    }
}

/// The control points of the segment of a row in a drawing with the points
/// `rows`. There is none where the drawing lacks the start or the end of the
/// segment; a handle that the drawing lacks counts as no handle.
pub open spec fn shape_of(rows: Seq<(PointId, Point)>, row: SegmentRow) -> Option<Seq<Point>> {
    match (position_of(rows, row.p1), position_of(rows, row.p4)) {
        (Some(start), Some(end)) => Some(
            segment_shape(
                start,
                position_of_handle(rows, row.p2),
                position_of_handle(rows, row.p3),
                end,
            ),
        ),
        _ => None,
    }
}

/// A row with the identifier is among `rows`, or none is: the one or the other.
pub proof fn lemma_point_found_or_not(rows: Seq<(PointId, Point)>, id: PointId)
    ensures
        no_point(rows, id) || exists|at: int| first_point_at(rows, id, at),
        no_point(rows, id) <==> !has_point(rows, id),
    decreases rows.len(),
{
    if rows.len() > 0 {
        let front = rows.drop_last();
        lemma_point_found_or_not(front, id);
        if no_point(front, id) {
            assert forall|j: int| 0 <= j < rows.len() - 1 implies rows[j].0 != id by {
                assert(front[j] == rows[j]);
            }
            if rows.last().0 == id {
                assert(first_point_at(rows, id, rows.len() - 1));
            } else {
                assert(no_point(rows, id));
            }
        } else {
            let at = choose|at: int| first_point_at(front, id, at);
            assert(front[at] == rows[at]);
            assert forall|j: int| 0 <= j < at implies rows[j].0 != id by {
                assert(front[j] == rows[j]);
            }
            assert(first_point_at(rows, id, at));
        }
    }
    if has_point(rows, id) {
        let i = choose|i: int| 0 <= i < rows.len() && (#[trigger] rows[i]).0 == id;
        assert(!no_point(rows, id));
    }
    if !no_point(rows, id) {
        let j = choose|j: int| 0 <= j < rows.len() && rows[j].0 == id;
        assert(rows[j].0 == id);
    }
}

impl MMesh {
    /// The points: identifier and position of each, in the order in which they
    /// were added.
    pub closed spec fn points(&self) -> Seq<(PointId, Point)> {
        self.points@
    }

    /// The segments, in the order in which they were added.
    pub closed spec fn segments(&self) -> Seq<SegmentRow> {
        self.segments@
    }

    /// The number that the next identifier will be.
    pub closed spec fn counter(&self) -> nat {
        self.next_id@
    }

    /// The tables are whole.
    pub closed spec fn tables_wf(&self) -> bool {
        self.points.wf() && self.segments.wf()
    }

    /// The tables are whole, and every identifier in them was handed out by the
    /// counter: it is below the next one.
    pub open spec fn wf(&self) -> bool {
        &&& self.tables_wf()
        &&& points_below(self.points(), self.counter())
        &&& segments_below(self.segments(), self.counter())
    }

    pub fn empty() -> (mesh: Self)
        ensures
            mesh.wf(),
            mesh.points() == Seq::<(PointId, Point)>::empty(),
            mesh.segments() == Seq::<SegmentRow>::empty(),
            mesh.counter() == 0,
    {
        Self { points: PointTable::new(), segments: SegmentTable::new(), next_id: NextId::new() }
    }

    /// The number that the next identifier will be. The drawing can take new
    /// points and segments as long as this is below the greatest number.
    pub fn next_number(&self) -> (n: usize)
        ensures
            n == self.counter(),
    {
        self.next_id.peek()
    }

    /// A new identifier for a point: the number of the counter, which goes up
    /// by one.
    pub fn next_point_id(&mut self) -> (id: PointId)
        requires
            old(self).wf(),
            old(self).counter() < usize::MAX,
        ensures
            final(self).wf(),
            id@ == old(self).counter(),
            final(self).counter() == old(self).counter() + 1,
            final(self).points() == old(self).points(),
            final(self).segments() == old(self).segments(),
    {
        PointId(self.next_id.next())
    }

    /// A new identifier for a segment: the number of the counter, which goes up
    /// by one.
    pub fn next_segment_id(&mut self) -> (id: SegmentId)
        requires
            old(self).wf(),
            old(self).counter() < usize::MAX,
        ensures
            final(self).wf(),
            id@ == old(self).counter(),
            final(self).counter() == old(self).counter() + 1,
            final(self).points() == old(self).points(),
            final(self).segments() == old(self).segments(),
    {
        SegmentId(self.next_id.next())
    }

    /// The points by their identifiers.
    pub fn points_map(&self) -> (map: HashMap<usize, PointData>)
        requires
            self.wf(),
        ensures
            maps_points(self.points(), map@),
    {
        let rows = self.points.data();
        let mut map: HashMap<usize, PointData> = HashMap::new();
        let mut i: usize = 0;
        while i < rows.len()
            invariant
                self.wf(),
                rows.len() == self.points().len(),
                i <= rows.len(),
                forall|r: int|
                    0 <= r < rows.len() ==> rows[r] == (PointData {
                        idx: PointIndex(r as usize),
                        id: self.points()[r].0,
                        position: self.points()[r].1,
                    }),
                forall|k: usize|
                    #[trigger] map@.contains_key(k) <==> has_point(
                        self.points().take(i as int),
                        PointId(k),
                    ),
                forall|k: usize|
                    #[trigger] map@.contains_key(k) ==> map@[k].id == PointId(k) && 0
                        <= map@[k].idx@ < self.points().len()
                        && self.points()[map@[k].idx@ as int] == (PointId(k), map@[k].position),
            decreases rows.len() - i,
        {
            let row = rows[i];
            let ghost before = map@;
            map.insert(row.id.0, row);
            proof {
                let upto = self.points().take(i as int);
                let next = self.points().take(i + 1);
                assert(next == upto.push(self.points()[i as int]));
                assert forall|k: usize| #[trigger] map@.contains_key(k) <==> has_point(
                    next,
                    PointId(k),
                ) by {
                    if has_point(upto, PointId(k)) {
                        let r = choose|r: int| 0 <= r < upto.len() && (#[trigger] upto[r]).0 == PointId(k);
                        assert(next[r].0 == PointId(k));
                    }
                    if k == row.id.0 {
                        assert(next[i as int].0 == PointId(k));
                    }
                    if has_point(next, PointId(k)) {
                        let r = choose|r: int| 0 <= r < next.len() && (#[trigger] next[r]).0 == PointId(k);
                        if r < i {
                            assert(upto[r].0 == PointId(k));
                        }
                    }
                }
            }
            i += 1;
        }
        assert(self.points().take(i as int) == self.points());
        map
    }

    /// The segments by their identifiers.
    pub fn segments_map(&self) -> (map: HashMap<usize, SegmentData>)
        requires
            self.wf(),
        ensures
            forall|k: usize|
                #[trigger] map@.contains_key(k) ==> 0 <= map@[k].idx@ < self.segments().len()
                    && self.segments()[map@[k].idx@ as int] == map@[k].row() && map@[k].id
                    == SegmentId(k),
            forall|i: int|
                0 <= i < self.segments().len() ==> map@.contains_key(
                    (#[trigger] self.segments()[i]).id@,
                ),
    {
        let rows = self.segments.data();
        let mut map: HashMap<usize, SegmentData> = HashMap::new();
        let mut i: usize = 0;
        while i < rows.len()
            invariant
                self.wf(),
                rows.len() == self.segments().len(),
                i <= rows.len(),
                forall|r: int|
                    0 <= r < rows.len() ==> (#[trigger] rows[r]).row() == self.segments()[r]
                        && rows[r].idx == SegmentIndex(r as usize),
                forall|k: usize|
                    #[trigger] map@.contains_key(k) ==> 0 <= map@[k].idx@ < self.segments().len()
                        && self.segments()[map@[k].idx@ as int] == map@[k].row() && map@[k].id
                        == SegmentId(k),
                forall|r: int|
                    0 <= r < i ==> map@.contains_key((#[trigger] self.segments()[r]).id@),
            decreases rows.len() - i,
        {
            let row = rows[i];
            assert(row.row() == self.segments()[i as int]);
            map.insert(row.id.0, row);
            i += 1;
        }
        map
    }

    /// The segment at a place of the table, through the positions that the map
    /// has for its points. `None` where the table has no such place, or the map
    /// lacks the start or the end of the segment.
    pub fn segment(&self, index: SegmentIndex, points: &HashMap<usize, PointData>) -> (seg: Option<
        PathSeg,
    >)
        requires
            self.wf(),
        ensures
            index@ >= self.segments().len() ==> seg.is_none(),
            index@ < self.segments().len() ==> match row_shape(
                points@,
                self.segments()[index@ as int],
            ) {
                Some(shape) => seg matches Some(s) && control_points(s) == shape,
                None => seg.is_none(),
            },
    {
        if index.0 >= self.segments.len() {
            return None;
        }
        row_segment(points, self.segments.row(index.0))
    }

    /// Adds a point, and says which identifier it got.
    pub fn append_point(&mut self, point: Point) -> (id: PointId)
        requires
            old(self).wf(),
            old(self).counter() < usize::MAX,
        ensures
            final(self).wf(),
            id@ == old(self).counter(),
            no_point(old(self).points(), id),
            final(self).counter() == old(self).counter() + 1,
            final(self).points() == old(self).points().push((id, point)),
            final(self).segments() == old(self).segments(),
    {
        let id = self.next_point_id();
        self.points.push(id, point);
        id
    }

    /// Adds a segment between points of the drawing, and says which identifier
    /// it got. Where one of the points is not in the drawing, nothing is added.
    pub fn append_segment(
        &mut self,
        p1: PointId,
        p2: Option<PointId>,
        p3: Option<PointId>,
        p4: PointId,
    ) -> (added: Option<SegmentId>)
        requires
            old(self).wf(),
            old(self).counter() < usize::MAX,
        ensures
            final(self).wf(),
            final(self).points() == old(self).points(),
            added.is_some() <==> has_point(old(self).points(), p1) && has_handle(
                old(self).points(),
                p2,
            ) && has_handle(old(self).points(), p3) && has_point(old(self).points(), p4),
            match added {
                Some(id) => {
                    &&& id@ == old(self).counter()
                    &&& final(self).counter() == old(self).counter() + 1
                    &&& final(self).segments() == old(self).segments().push(
                        SegmentRow { id, p1, p2, p3, p4 },
                    )
                },
                None => {
                    &&& final(self).counter() == old(self).counter()
                    &&& final(self).segments() == old(self).segments()
                },
            },
    {
        proof {
            lemma_point_found_or_not(self.points(), p1);
            lemma_point_found_or_not(self.points(), p4);
            if p2.is_some() {
                lemma_point_found_or_not(self.points(), p2.unwrap());
            }
            if p3.is_some() {
                lemma_point_found_or_not(self.points(), p3.unwrap());
            }
        }
        let first = self.points.find(p1).is_some();
        let second = match p2 {
            Some(id) => self.points.find(id).is_some(),
            None => true,
        };
        let third = match p3 {
            Some(id) => self.points.find(id).is_some(),
            None => true,
        };
        let fourth = self.points.find(p4).is_some();
        if !(first && second && third && fourth) {
            return None;
        }
        let id = self.next_segment_id();
        self.segments.push(id, p1, p2, p3, p4);
        Some(id)
    }

    /// Moves the point with the identifier to another position. Where the
    /// drawing has no such point, nothing changes.
    pub fn set_point(&mut self, point_id: PointId, point_position: Point)
        requires
            old(self).wf(),
        ensures
            final(self).wf(),
            final(self).counter() == old(self).counter(),
            final(self).segments() == old(self).segments(),
            no_point(old(self).points(), point_id) ==> final(self).points() == old(self).points(),
            forall|at: int|
                first_point_at(old(self).points(), point_id, at) ==> final(self).points() == old(
                    self,
                ).points().update(at, (point_id, point_position)),
    {
        match self.points.find(point_id) {
            Some(at) => {
                self.points.position.set(at, point_position);
                assert(self.points@ =~= old(self).points@.update(
                    at as int,
                    (point_id, point_position),
                ));
            },
            None => {},
        }
    }

    /// The position of the point with the identifier, where the drawing has such
    /// a point.
    pub fn get_point(&self, point_id: PointId) -> (position: Option<Point>)
        requires
            self.wf(),
        ensures
            position == position_of(self.points(), point_id),
            no_point(self.points(), point_id) ==> position.is_none(),
            forall|at: int|
                first_point_at(self.points(), point_id, at) ==> position == Some(
                    self.points()[at].1,
                ),
    {
        match self.points.find(point_id) {
            Some(at) => {
                proof {
                    let other = choose|other: int| first_point_at(self.points(), point_id, other);
                    assert(other == at);
                }
                Some(self.points.position[at])
            },
            None => None,
        }
    }

    /// The number of segments.
    pub fn segment_count(&self) -> (n: usize)
        requires
            self.wf(),
        ensures
            n == self.segments().len(),
    {
        self.segments.len()
    }

    /// The row of the segment at place `at`.
    pub fn segment_row(&self, at: usize) -> (row: SegmentRow)
        requires
            self.wf(),
            at < self.segments().len(),
        ensures
            row == self.segments()[at as int],
    {
        self.segments.row(at)
    }

    /// The segment at place `at` as a curve through the positions of its points.
    /// `None` where the drawing lacks its start or its end.
    pub fn path_segment(&self, at: usize) -> (seg: Option<PathSeg>)
        requires
            self.wf(),
            at < self.segments().len(),
        ensures
            match shape_of(self.points(), self.segments()[at as int]) {
                Some(shape) => seg matches Some(s) && control_points(s) == shape,
                None => seg.is_none(),
            },
    {
        let row = self.segments.row(at);
        let start = self.get_point(row.p1);
        let end = self.get_point(row.p4);
        match (start, end) {
            (Some(start), Some(end)) => {
                let first = match row.p2 {
                    Some(id) => self.get_point(id),
                    None => None,
                };
                let second = match row.p3 {
                    Some(id) => self.get_point(id),
                    None => None,
                };
                Some(points_to_segment(start, first, second, end))
            },
            _ => None,
        }
    }

    /// Whether no segment starts, ends or has a handle at the point.
    pub fn floats(&self, point_id: PointId) -> (floating: bool)
        requires
            self.wf(),
        ensures
            floating == is_floating(self.segments(), point_id),
    {
        let mut index: usize = 0;
        while index < self.segments.len()
            invariant
                self.wf(),
                index <= self.segments().len(),
                forall|i: int| 0 <= i < index ==> !uses_point(#[trigger] self.segments()[i], point_id),
            decreases self.segments().len() - index,
        {
            let row = self.segments.row(index);
            let at_second = match row.p2 {
                Some(id) => id == point_id,
                None => false,
            };
            let at_third = match row.p3 {
                Some(id) => id == point_id,
                None => false,
            };
            if row.p1 == point_id || at_second || at_third || row.p4 == point_id {
                assert(uses_point(self.segments()[index as int], point_id));
                return false;
            }
            index += 1;
        }
        true
    }

    /// Takes the point out of the drawing where no segment uses it.
    pub fn remove_floating_point(&mut self, point_id: PointId)
        requires
            old(self).wf(),
        ensures
            final(self).wf(),
            final(self).counter() == old(self).counter(),
            final(self).segments() == old(self).segments(),
            final(self).points() == without_floating(
                old(self).points(),
                old(self).segments(),
                point_id,
            ),
    {
        if self.floats(point_id) {
            self.drop_point(point_id);
        }
    }

    /// Takes the point out of the drawing, whether a segment uses it or not.
    fn drop_point(&mut self, point_id: PointId)
        requires
            old(self).wf(),
        ensures
            final(self).wf(),
            final(self).counter() == old(self).counter(),
            final(self).segments() == old(self).segments(),
            final(self).points() == without_point(old(self).points(), point_id),
    {
        proof {
            lemma_point_found_or_not(self.points(), point_id);
        }
        self.points.remove(point_id);
        proof {
            if !no_point(old(self).points(), point_id) {
                let at = choose|at: int| first_point_at(old(self).points(), point_id, at);
                assert(self.points@ == old(self).points@.remove(at));
            }
        }
    }

    /// Gives the segment with the identifier other points. Where the drawing has
    /// no such segment, nothing changes.
    pub fn set_segment(
        &mut self,
        id: SegmentId,
        p1: PointId,
        p2: Option<PointId>,
        p3: Option<PointId>,
        p4: PointId,
    )
        requires
            old(self).wf(),
        ensures
            final(self).wf(),
            final(self).counter() == old(self).counter(),
            final(self).points() == old(self).points(),
            no_segment(old(self).segments(), id) ==> final(self).segments() == old(self).segments(),
            forall|at: int|
                first_segment_at(old(self).segments(), id, at) ==> final(self).segments() == old(
                    self,
                ).segments().update(at, SegmentRow { id, p1, p2, p3, p4 }),
    {
        match self.segments.find(id) {
            Some(at) => {
                self.segments.set(at, p1, p2, p3, p4);
            },
            None => {},
        }
    }

    /// Takes the segment with the identifier out of the drawing, and with it its
    /// handles, and its start and its end where no other segment uses them.
    /// Where the drawing has no such segment, nothing changes.
    pub fn remove_segment(&mut self, id: SegmentId)
        requires
            old(self).wf(),
        ensures
            final(self).wf(),
            final(self).counter() == old(self).counter(),
            no_segment(old(self).segments(), id) ==> final(self).segments() == old(self).segments()
                && final(self).points() == old(self).points(),
            forall|at: int|
                first_segment_at(old(self).segments(), id, at) ==> {
                    let row = old(self).segments()[at];
                    let rest = old(self).segments().remove(at);
                    &&& final(self).segments() == rest
                    &&& final(self).points() == without_handle(
                        without_handle(
                            without_floating(
                                without_floating(old(self).points(), rest, row.p1),
                                rest,
                                row.p4,
                            ),
                            row.p2,
                        ),
                        row.p3,
                    )
                },
    {
        match self.segments.find(id) {
            Some(index) => {
                let row = self.segments.row(index);
                self.segments.remove(id);
                assert(self.segments() == old(self).segments().remove(index as int));
                assert(segments_below(self.segments(), self.counter())) by {
                    assert forall|i: int| 0 <= i < self.segments().len() implies (
                    #[trigger] self.segments()[i]).id@ < self.counter() by {
                        if i < index {
                            assert(self.segments()[i] == old(self).segments()[i]);
                        } else {
                            assert(self.segments()[i] == old(self).segments()[i + 1]);
                        }
                    }
                }
                self.remove_floating_point(row.p1);
                self.remove_floating_point(row.p4);
                match row.p2 {
                    Some(handle) => {
                        self.drop_point(handle);
                    },
                    None => {},
                }
                match row.p3 {
                    Some(handle) => {
                        self.drop_point(handle);
                    },
                    None => {},
                }
            },
            None => {},
        }
    }
}

/// The radius within which a point counts as near where none is given: five
/// units, as a binary64 pattern.
pub const DEFAULT_RADIUS: u64 = 0x4014_0000_0000_0000;

/// The point that the search for the closest point holds after the first `k`
/// points. A point within the radius of `point` is taken where none is held
/// yet, and where it lies nearer to the point held than `point` does.
pub open spec fn closest_upto(
    rows: Seq<(PointId, Point)>,
    point: Point,
    radius: u64,
    k: int,
) -> Option<(PointId, Point)>
    decreases k,
{
    if k <= 0 {
        None
    } else {
        let before = closest_upto(rows, point, radius, k - 1);
        let next = rows[k - 1];
        if distance(next.1, point) < radius {
            match before {
                Some(held) => if distance(next.1, held.1) < distance(point, held.1) {
                    Some(next)
                } else {
                    before
                },
                None => Some(next),
            }
        } else {
            before
        }
    }
}

/// A drawing while a path is added to it: its points and segments, the number
/// that the next identifier will be, and the point at which the path stands.
pub struct Chain {
    pub points: Seq<(PointId, Point)>,
    pub segments: Seq<SegmentRow>,
    pub counter: nat,
    pub last: Option<PointId>,
}

/// The chain with one more point, as the point at which the path stands.
pub open spec fn with_point(chain: Chain, point: Point) -> Chain {
    Chain {
        points: chain.points.push((PointId(chain.counter as usize), point)),
        counter: chain.counter + 1,
        last: Some(PointId(chain.counter as usize)),
        ..chain
    }
}

/// The chain with a segment from `from`, where the path stood at a point, to
/// the point at which it stands now.
pub open spec fn with_segment(
    chain: Chain,
    from: Option<PointId>,
    p2: Option<PointId>,
    p3: Option<PointId>,
) -> Chain {
    match (from, chain.last) {
        (Some(p1), Some(p4)) => Chain {
            segments: chain.segments.push(
                SegmentRow { id: SegmentId(chain.counter as usize), p1, p2, p3, p4 },
            ),
            counter: chain.counter + 1,
            ..chain
        },
        _ => chain,
    }
}

/// The chain after one more element of the path. A move makes a point. A line,
/// a quadratic and a cubic make their handles and their end as points and then
/// the segment, each with the next identifier; the handle of a quadratic is
/// its second handle. Closing the path lets it stand at no point.
pub open spec fn drawn(chain: Chain, el: PathElement) -> Chain {
    match el {
        PathElement::MoveTo(p) => with_point(chain, p),
        PathElement::LineTo(p4) => with_segment(with_point(chain, p4), chain.last, None, None),
        PathElement::QuadTo(p3, p4) => {
            let handle = with_point(chain, p3);
            with_segment(with_point(handle, p4), chain.last, None, handle.last)
        },
        PathElement::CurveTo(p2, p3, p4) => {
            let first = with_point(chain, p2);
            let second = with_point(first, p3);
            with_segment(with_point(second, p4), chain.last, first.last, second.last)
        },
        PathElement::ClosePath => Chain { last: None, ..chain },
    }
}

/// The chain after the first `k` elements of a path.
pub open spec fn drawn_all(start: Chain, els: Seq<PathElement>, k: int) -> Chain
    decreases k,
{
    if k <= 0 {
        start
    } else {
        drawn(drawn_all(start, els, k - 1), els[k - 1])
    }
}

/// The place of the last of the first `k` segments that starts at the point.
pub open spec fn last_starting(rows: Seq<SegmentRow>, id: PointId, k: int) -> Option<int>
    decreases k,
{
    if k <= 0 {
        None
    } else if rows[k - 1].p1 == id {
        Some(k - 1)
    } else {
        last_starting(rows, id, k - 1)
    }
}

/// The place of the last of the first `k` segments that ends at the point.
pub open spec fn last_ending(rows: Seq<SegmentRow>, id: PointId, k: int) -> Option<int>
    decreases k,
{
    if k <= 0 {
        None
    } else if rows[k - 1].p4 == id {
        Some(k - 1)
    } else {
        last_ending(rows, id, k - 1)
    }
}

/// The point at which the chain through `cur` starts: from `cur` back along the
/// segments that end where the one before started, until no segment ends
/// there, the point `first` is reached, or `fuel` segments have been passed.
pub open spec fn chain_start(rows: Seq<SegmentRow>, first: PointId, cur: PointId, fuel: int) -> PointId
    decreases fuel,
{
    if fuel <= 0 {
        cur
    } else {
        match last_ending(rows, cur, rows.len() as int) {
            None => cur,
            Some(r) => if rows[r].p1 == first {
                first
            } else {
                chain_start(rows, first, rows[r].p1, fuel - 1)
            },
        }
    }
}

/// The path along the chain from `cur`: the segment that starts there, then the
/// one that starts where it ends, and so on, until no segment starts there, a
/// segment lacks its start or its end, or `fuel` segments have been drawn. The
/// path begins with a move to the first point, unless it has `begun`.
pub open spec fn chain_path(
    points: Seq<(PointId, Point)>,
    rows: Seq<SegmentRow>,
    cur: PointId,
    fuel: int,
    begun: bool,
) -> Seq<PathElement>
    decreases fuel,
{
    if fuel <= 0 {
        Seq::empty()
    } else {
        match last_starting(rows, cur, rows.len() as int) {
            None => Seq::empty(),
            Some(r) => match shape_of(points, rows[r]) {
                None => Seq::empty(),
                Some(shape) => (if begun {
                    Seq::empty()
                } else {
                    seq![PathElement::MoveTo(shape[0])]
                }) + seq![drawing_element(shape)] + chain_path(
                    points,
                    rows,
                    rows[r].p4,
                    fuel - 1,
                    true,
                ),
            },
        }
    }
}

/// The path of a drawing: the chain that its first segment lies on, from the
/// start of the chain, with at most as many segments as the drawing has.
pub open spec fn mesh_path(points: Seq<(PointId, Point)>, rows: Seq<SegmentRow>) -> Seq<PathElement> {
    if rows.len() == 0 {
        Seq::empty()
    } else {
        chain_path(
            points,
            rows,
            chain_start(rows, rows[0].p1, rows[0].p1, rows.len() as int),
            rows.len() as int,
            false,
        )
    }
}

impl MMesh {
    /// The point of the drawing that the search for the closest point to `point`
    /// ends with, among the points within `max_radius` of it, or within five
    /// units where no radius is given. A radius is given as a binary64 pattern.
    pub fn closest_point(&self, point: Point, max_radius: Option<u64>) -> (closest: Option<
        (PointId, Point),
    >)
        requires
            self.wf(),
        ensures
            closest == closest_upto(
                self.points(),
                point,
                match max_radius {
                    Some(radius) => radius,
                    None => DEFAULT_RADIUS,
                },
                self.points().len() as int,
            ),
    {
        let radius = match max_radius {
            Some(radius) => radius,
            None => DEFAULT_RADIUS,
        };
        let mut closest: Option<(PointId, Point)> = None;
        let mut k: usize = 0;
        while k < self.points.id.len()
            invariant
                self.wf(),
                k <= self.points().len(),
                closest == closest_upto(self.points(), point, radius, k as int),
            decreases self.points().len() - k,
        {
            let next = (self.points.id[k], self.points.position[k]);
            assert(next == self.points()[k as int]);
            if point_distance(next.1, point) < radius {
                closest = match closest {
                    Some(held) => if point_distance(next.1, held.1) < point_distance(point, held.1) {
                        Some(next)
                    } else {
                        Some(held)
                    },
                    None => Some(next),
                };
            }
            k += 1;
        }
        closest
    }

    /// The drawing as a chain that a path can be added to.
    pub open spec fn chain(&self, last: Option<PointId>) -> Chain {
        Chain {
            points: self.points(),
            segments: self.segments(),
            counter: self.counter(),
            last,
        }
    }

    /// Adds the elements of a path to the drawing.
    pub fn append_elements(&mut self, els: &Vec<PathElement>)
        requires
            old(self).wf(),
            old(self).counter() + 4 * els.len() < usize::MAX,
        ensures
            final(self).wf(),
            final(self).points() == drawn_all(old(self).chain(None), els@, els.len() as int).points,
            final(self).segments() == drawn_all(
                old(self).chain(None),
                els@,
                els.len() as int,
            ).segments,
            final(self).counter() == drawn_all(
                old(self).chain(None),
                els@,
                els.len() as int,
            ).counter,
    {
        let mut last: Option<PointId> = None;
        let mut k: usize = 0;
        while k < els.len()
            invariant
                self.wf(),
                k <= els.len(),
                old(self).counter() + 4 * els.len() < usize::MAX,
                self.counter() <= old(self).counter() + 4 * k,
                self.chain(last) == drawn_all(old(self).chain(None), els@, k as int),
                last matches Some(id) ==> id@ < self.counter(),
            decreases els.len() - k,
        {
            let ghost before = self.chain(last);
            let from = last;
            match els[k] {
                PathElement::MoveTo(p) => {
                    last = Some(self.append_point(p));
                },
                PathElement::LineTo(p4) => {
                    let end = self.append_point(p4);
                    last = Some(end);
                    self.join(from, None, None, end);
                },
                PathElement::QuadTo(p3, p4) => {
                    let handle = self.append_point(p3);
                    let end = self.append_point(p4);
                    last = Some(end);
                    self.join(from, None, Some(handle), end);
                },
                PathElement::CurveTo(p2, p3, p4) => {
                    let first = self.append_point(p2);
                    let second = self.append_point(p3);
                    let end = self.append_point(p4);
                    last = Some(end);
                    self.join(from, Some(first), Some(second), end);
                },
                PathElement::ClosePath => {
                    last = None;
                },
            }
            assert(self.chain(last) == drawn(before, els@[k as int]));
            k += 1;
        }
    }

    /// Adds a segment from `from`, where there is such a point, to `end`.
    fn join(&mut self, from: Option<PointId>, p2: Option<PointId>, p3: Option<PointId>, end: PointId)
        requires
            old(self).wf(),
            old(self).counter() < usize::MAX,
            end@ < old(self).counter(),
        ensures
            final(self).wf(),
            final(self).chain(Some(end)) == with_segment(old(self).chain(Some(end)), from, p2, p3),
    {
        match from {
            Some(start) => {
                let id = self.next_segment_id();
                self.segments.push(id, start, p2, p3, end);
            },
            None => {},
        }
    }

    /// Adds a path to the drawing. A path with more elements than identifiers
    /// can be handed out for is not added.
    pub fn append_bezpath(&mut self, bezpath: &BezPath)
        requires
            old(self).wf(),
        ensures
            final(self).wf(),
            ({
                let els = path_elements(*bezpath);
                let chain = if old(self).counter() + 4 * els.len() < usize::MAX {
                    drawn_all(old(self).chain(None), els, els.len() as int)
                } else {
                    old(self).chain(None)
                };
                &&& final(self).points() == chain.points
                &&& final(self).segments() == chain.segments
                &&& final(self).counter() == chain.counter
            }),
    {
        let els = elements_of(bezpath);
        let used = self.next_number();
        if used < usize::MAX && els.len() <= (usize::MAX - used - 1) / 4 {
            self.append_elements(&els);
        }
    }

    /// The place of the last segment that starts at the point.
    fn starting_at(&self, id: PointId) -> (found: Option<usize>)
        requires
            self.wf(),
        ensures
            match found {
                Some(r) => last_starting(self.segments(), id, self.segments().len() as int) == Some(
                    r as int,
                ) && r < self.segments().len(),
                None => last_starting(self.segments(), id, self.segments().len() as int).is_none(),
            },
    {
        let mut k = self.segments.len();
        while k > 0
            invariant
                self.wf(),
                k <= self.segments().len(),
                last_starting(self.segments(), id, self.segments().len() as int) == last_starting(
                    self.segments(),
                    id,
                    k as int,
                ),
            decreases k,
        {
            if self.segments.row(k - 1).p1 == id {
                return Some(k - 1);
            }
            k -= 1;
        }
        None
    }

    /// The place of the last segment that ends at the point.
    fn ending_at(&self, id: PointId) -> (found: Option<usize>)
        requires
            self.wf(),
        ensures
            match found {
                Some(r) => last_ending(self.segments(), id, self.segments().len() as int) == Some(
                    r as int,
                ) && r < self.segments().len(),
                None => last_ending(self.segments(), id, self.segments().len() as int).is_none(),
            },
    {
        let mut k = self.segments.len();
        while k > 0
            invariant
                self.wf(),
                k <= self.segments().len(),
                last_ending(self.segments(), id, self.segments().len() as int) == last_ending(
                    self.segments(),
                    id,
                    k as int,
                ),
            decreases k,
        {
            if self.segments.row(k - 1).p4 == id {
                return Some(k - 1);
            }
            k -= 1;
        }
        None
    }

    /// The drawing as a path: the chain of segments that its first segment lies
    /// on, from the start of the chain on.
    pub fn to_bezpath(&self) -> (bezpath: BezPath)
        requires
            self.wf(),
        ensures
            path_elements(bezpath) == mesh_path(self.points(), self.segments()),
    {
        let mut bezpath = new_path();
        let count = self.segments.len();
        if count == 0 {
            return bezpath;
        }
        let first = self.segments.row(0).p1;
        let mut start = first;
        let mut fuel = count;
        loop
            invariant_except_break
                chain_start(self.segments(), first, first, count as int) == chain_start(
                    self.segments(),
                    first,
                    start,
                    fuel as int,
                ),
            invariant
                self.wf(),
                count == self.segments().len(),
                fuel <= count,
            ensures
                start == chain_start(self.segments(), first, first, count as int),
            decreases fuel,
        {
            if fuel == 0 {
                break ;
            }
            match self.ending_at(start) {
                Some(r) => {
                    start = self.segments.row(r).p1;
                    if start == first {
                        break ;
                    }
                    fuel -= 1;
                },
                None => {
                    break ;
                },
            }
        }
        let ghost whole = mesh_path(self.points(), self.segments());
        let mut cur = start;
        let mut left = count;
        let mut begun = false;
        loop
            invariant
                self.wf(),
                count == self.segments().len(),
                left <= count,
                begun == (path_elements(bezpath).len() > 0),
                begun ==> path_elements(bezpath).first() is MoveTo,
                whole == path_elements(bezpath) + chain_path(
                    self.points(),
                    self.segments(),
                    cur,
                    left as int,
                    begun,
                ),
            ensures
                path_elements(bezpath) == whole,
            decreases left,
        {
            if left == 0 {
                assert(whole == path_elements(bezpath) + Seq::<PathElement>::empty());
                break ;
            }
            let found = self.starting_at(cur);
            let seg = match found {
                Some(r) => self.path_segment(r),
                None => None,
            };
            match (found, seg) {
                (Some(r), Some(seg)) => {
                    let ghost before = path_elements(bezpath);
                    let ghost shape = control_points(seg);
                    let ghost rest = chain_path(
                        self.points(),
                        self.segments(),
                        self.segments()[r as int].p4,
                        left - 1,
                        true,
                    );
                    if !begun {
                        push_element(&mut bezpath, PathElement::MoveTo(start_point(&seg)));
                        begun = true;
                    }
                    push_element(&mut bezpath, as_element(&seg));
                    proof {
                        if before.len() == 0 {
                            assert(path_elements(bezpath) + rest == before + (seq![
                                PathElement::MoveTo(shape[0]),
                            ] + seq![drawing_element(shape)] + rest));
                        } else {
                            assert(path_elements(bezpath) + rest == before + (Seq::<
                                PathElement,
                            >::empty() + seq![drawing_element(shape)] + rest));
                        }
                    }
                    cur = self.segments.row(r).p4;
                    left -= 1;
                },
                _ => {
                    assert(whole == path_elements(bezpath) + Seq::<PathElement>::empty());
                    break ;
                },
            }
        }
        bezpath
    }
}

} // verus!
