use vstd::prelude::*;
use std::collections::HashMap;
use glam::DVec2;
use crate::dynamic::Direction;
use crate::mesh::{row_segment, row_shape, PointData, SegmentData, SegmentRow};
use kurbo::{
    BezPath, CubicBez, Line, ParamCurve, PathEl, PathSeg, Point, QuadBez, Rect, Shape, Vec2,
    DEFAULT_ACCURACY,
};

verus! {

/// kurbo's `Point`, a place in the plane. What it holds is known through kurbo
/// only.
#[verifier::external_type_specification]
#[verifier::external_body]
pub struct ExPoint(Point);

/// kurbo's `Vec2`, a direction and a length in the plane. What it holds is known
/// through kurbo only.
#[verifier::external_type_specification]
#[verifier::external_body]
pub struct ExVec2(Vec2);

/// kurbo's `Rect`, a box with sides along the axes. What it holds is known
/// through kurbo only.
#[verifier::external_type_specification]
#[verifier::external_body]
pub struct ExRect(Rect);

/// kurbo's `PathSeg`: a line, a quadratic or a cubic. Of what it holds, the
/// control points are known, as `control_points`.
#[verifier::external_type_specification]
#[verifier::external_body]
pub struct ExPathSeg(PathSeg);

/// kurbo's `BezPath`, a path of lines and curves. Of what it holds, the
/// elements are known, as `path_elements`.
#[verifier::external_type_specification]
#[verifier::external_body]
pub struct ExBezPath(BezPath);

/// One element of a path, as kurbo's `PathEl` has them.
#[derive(Clone, Copy, Debug)]
pub enum PathElement {
    MoveTo(Point),
    LineTo(Point),
    QuadTo(Point, Point),
    CurveTo(Point, Point, Point),
    ClosePath,
}

/// The control points of a segment, first to last: two of a line, three of a
/// quadratic, four of a cubic.
pub uninterp spec fn control_points(seg: PathSeg) -> Seq<Point>;

/// The two halves that kurbo's `CubicBez::subdivide` makes of a cubic segment.
pub uninterp spec fn cubic_halves(seg: PathSeg) -> (PathSeg, PathSeg);

/// The bounding box that kurbo computes of a segment.
pub uninterp spec fn segment_box(seg: PathSeg) -> Rect;

/// The bounding box that kurbo computes of a path.
pub uninterp spec fn path_box(path: BezPath) -> Rect;

/// Whether kurbo's `Rect::overlaps` holds of two boxes.
pub uninterp spec fn boxes_overlap(a: Rect, b: Rect) -> bool;

/// Width of a box, as the binary64 pattern of the number that kurbo returns.
pub uninterp spec fn box_width(r: Rect) -> u64;

/// Height of a box, as the binary64 pattern of the number that kurbo returns.
pub uninterp spec fn box_height(r: Rect) -> u64;

/// Area of a box, as the binary64 pattern of the number that kurbo returns.
pub uninterp spec fn box_area(r: Rect) -> u64;

/// Distance of two points, as the binary64 pattern of the number that kurbo returns.
pub uninterp spec fn distance(a: Point, b: Point) -> u64;

/// The elements that a path holds, first to last.
pub uninterp spec fn path_elements(path: BezPath) -> Seq<PathElement>;

/// The point with the given whole numbers as its coordinates.
pub uninterp spec fn whole_point(x: u8, y: u8) -> Point;

/// The point midway between two points, as kurbo computes it.
pub uninterp spec fn midpoint(a: Point, b: Point) -> Point;

/// The part of a segment between two parameters, as kurbo's `subsegment` cuts
/// it. The parameters are given as the first coordinates of two points.
pub uninterp spec fn part_between(seg: PathSeg, from: Point, to: Point) -> PathSeg;

/// The path is empty or begins with a `MoveTo`, as kurbo asks of a path that it
/// is to read.
pub open spec fn begins_with_move(path: BezPath) -> bool {
    path_elements(path).len() == 0 || path_elements(path).first() is MoveTo
}

/// The point of a segment at a parameter, as kurbo's `eval` computes it. The
/// parameter is given as the first coordinate of a point.
pub uninterp spec fn curve_point(seg: PathSeg, at: Point) -> Point;

/// The vector from one point to another, as kurbo subtracts the first from the
/// second.
pub uninterp spec fn difference(from: Point, to: Point) -> Vec2;

/// The vector divided by its length, as kurbo's `normalize` computes it.
pub uninterp spec fn unit(v: Vec2) -> Vec2;

/// What `as_path_el` makes of a segment with these control points: the element
/// that draws the segment from its first point.
pub open spec fn drawing_element(points: Seq<Point>) -> PathElement {
    if points.len() == 2 {
        PathElement::LineTo(points[1])
    } else if points.len() == 3 {
        PathElement::QuadTo(points[1], points[2])
    } else {
        PathElement::CurveTo(points[1], points[2], points[3])
    }
}

/// `Line::new` of kurbo, as a path segment from `p1` to `p4`.
#[verifier::external_body]
pub(crate) fn line_segment(p1: Point, p4: Point) -> (seg: PathSeg)
    ensures
        control_points(seg) == seq![p1, p4],
{
    PathSeg::Line(Line::new(p1, p4))
}

/// `QuadBez::new` of kurbo, as a path segment from `p1` to `p4` with the handle `p2`.
#[verifier::external_body]
pub(crate) fn quad_segment(p1: Point, p2: Point, p4: Point) -> (seg: PathSeg)
    ensures
        control_points(seg) == seq![p1, p2, p4],
{
    PathSeg::Quad(QuadBez::new(p1, p2, p4))
}

/// `CubicBez::new` of kurbo, as a path segment from `p1` to `p4` with the handles
/// `p2` and `p3`.
#[verifier::external_body]
pub(crate) fn cubic_segment(p1: Point, p2: Point, p3: Point, p4: Point) -> (seg: PathSeg)
    ensures
        control_points(seg) == seq![p1, p2, p3, p4],
{
    PathSeg::Cubic(CubicBez::new(p1, p2, p3, p4))
}

/// The fields of kurbo's `Line`, `QuadBez` or `CubicBez` inside a segment, in
/// their order.
#[verifier::external_body]
pub(crate) fn segment_points(seg: &PathSeg) -> (points: Vec<Point>)
    ensures
        points@ == control_points(*seg),
        2 <= points.len() <= 4,
{
    match seg {
        PathSeg::Line(l) => vec![l.p0, l.p1],
        PathSeg::Quad(q) => vec![q.p0, q.p1, q.p2],
        PathSeg::Cubic(c) => vec![c.p0, c.p1, c.p2, c.p3],
    }
}

/// `ParamCurve::start` of kurbo on a segment: its first control point.
#[verifier::external_body]
pub(crate) fn start_point(seg: &PathSeg) -> (p: Point)
    ensures
        p == control_points(*seg).first(),
{
    seg.start()
}

/// `ParamCurve::end` of kurbo on a segment: its last control point.
#[verifier::external_body]
pub(crate) fn end_point(seg: &PathSeg) -> (p: Point)
    ensures
        p == control_points(*seg).last(),
{
    seg.end()
}

/// `PathSeg::reverse` of kurbo: the same control points, last to first.
#[verifier::external_body]
pub(crate) fn reversed(seg: &PathSeg) -> (back: PathSeg)
    ensures
        control_points(back) == control_points(*seg).reverse(),
{
    seg.reverse()
}

/// `PathSeg::as_path_el` of kurbo: the element that draws the segment from its
/// first point, made of the control points behind the first.
#[verifier::external_body]
pub(crate) fn as_element(seg: &PathSeg) -> (el: PathElement)
    ensures
        el == drawing_element(control_points(*seg)),
{
    match seg.as_path_el() {
        PathEl::MoveTo(p) => PathElement::MoveTo(p),
        PathEl::LineTo(p) => PathElement::LineTo(p),
        PathEl::QuadTo(p, q) => PathElement::QuadTo(p, q),
        PathEl::CurveTo(p, q, r) => PathElement::CurveTo(p, q, r),
        PathEl::ClosePath => PathElement::ClosePath,
    }
}

/// `Point::new` of kurbo on two whole numbers.
#[verifier::external_body]
pub(crate) fn point_at(x: u8, y: u8) -> (p: Point)
    ensures
        p == whole_point(x, y),
{
    Point::new(x.into(), y.into())
}

/// `Point::midpoint` of kurbo.
#[verifier::external_body]
pub(crate) fn middle(a: Point, b: Point) -> (m: Point)
    ensures
        m == midpoint(a, b),
{
    a.midpoint(b)
}

/// `ParamCurve::subsegment` of kurbo on a segment, from the parameter that is
/// the first coordinate of `from` to the one that is the first coordinate of
/// `to`. The part is of the kind of the segment.
#[verifier::external_body]
pub(crate) fn subsegment(seg: &PathSeg, from: Point, to: Point) -> (part: PathSeg)
    ensures
        part == part_between(*seg, from, to),
        control_points(part).len() == control_points(*seg).len(),
{
    seg.subsegment(from.x..to.x)
}

/// `ParamCurve::eval` of kurbo on a segment: the point of the segment at the
/// parameter that is the first coordinate of `at`.
#[verifier::external_body]
pub(crate) fn point_on(seg: &PathSeg, at: Point) -> (p: Point)
    ensures
        p == curve_point(*seg, at),
{
    seg.eval(at.x)
}

/// `CubicBez::subdivide` of kurbo on a cubic segment, which gives two cubics;
/// `None` for a line and for a quadratic.
#[verifier::external_body]
pub(crate) fn subdivide_cubic(seg: &PathSeg) -> (halves: Option<(PathSeg, PathSeg)>)
    ensures
        halves.is_some() <==> control_points(*seg).len() == 4,
        halves matches Some(both) ==> both == cubic_halves(*seg) && control_points(both.0).len()
            == 4 && control_points(both.1).len() == 4,
{
    match seg {
        PathSeg::Cubic(c) => {
            let (a, b) = c.subdivide();
            Some((PathSeg::Cubic(a), PathSeg::Cubic(b)))
        },
        _ => None,
    }
}

/// `Shape::bounding_box` of kurbo on a segment.
#[verifier::external_body]
pub(crate) fn bounding_box(seg: &PathSeg) -> (r: Rect)
    ensures
        r == segment_box(*seg),
{
    Shape::bounding_box(seg)
}

/// `Rect::overlaps` of kurbo.
#[verifier::external_body]
pub(crate) fn overlaps(a: &Rect, b: &Rect) -> (yes: bool)
    ensures
        yes == boxes_overlap(*a, *b),
{
    a.overlaps(*b)
}

/// `Rect::width` of kurbo, as the bit pattern of the number it returns.
#[verifier::external_body]
pub(crate) fn width(r: &Rect) -> (bits: u64)
    ensures
        bits == box_width(*r),
{
    r.width().to_bits()
}

/// `Rect::height` of kurbo, as the bit pattern of the number it returns.
#[verifier::external_body]
pub(crate) fn height(r: &Rect) -> (bits: u64)
    ensures
        bits == box_height(*r),
{
    r.height().to_bits()
}

/// `Rect::area` of kurbo, as the bit pattern of the number it returns.
#[verifier::external_body]
pub(crate) fn area(r: &Rect) -> (bits: u64)
    ensures
        bits == box_area(*r),
{
    r.area().to_bits()
}

/// kurbo's `DEFAULT_ACCURACY`, a millionth, as its bit pattern.
#[verifier::external_body]
pub(crate) fn default_accuracy() -> (bits: u64)
    ensures
        bits == 0x3EB0_C6F7_A0B5_ED8D,
{
    DEFAULT_ACCURACY.to_bits()
}

/// `Point::distance` of kurbo, as the bit pattern of the number it returns.
#[verifier::external_body]
pub(crate) fn point_distance(a: Point, b: Point) -> (bits: u64)
    ensures
        bits == distance(a, b),
{
    a.distance(b).to_bits()
}

/// kurbo's difference of two points: the vector from `from` to `to`.
#[verifier::external_body]
pub(crate) fn vector_between(from: Point, to: Point) -> (v: Vec2)
    ensures
        v == difference(from, to),
{
    to - from
}

/// `Vec2::normalize` of kurbo: the vector divided by its length, which kurbo
/// takes as the square root of the sum of the squares.
#[verifier::external_body]
pub(crate) fn normalized(v: Vec2) -> (direction: Vec2)
    ensures
        direction == unit(v),
{
    v.normalize()
}

/// `DVec2::angle_to` of glam from `from` to `to`, as the bit pattern of the
/// angle it returns. The angle comes from an arc cosine, whose last digits are
/// not the same on every machine, so nothing is stated of it.
#[verifier::external_body]
pub(crate) fn angle_to(from: Vec2, to: Vec2) -> (bits: u64)
{
    DVec2::new(from.x, from.y).angle_to(DVec2::new(to.x, to.y)).to_bits()
}

/// `BezPath::new` of kurbo: a path without elements.
#[verifier::external_body]
pub(crate) fn new_path() -> (path: BezPath)
    ensures
        path_elements(path) == Seq::<PathElement>::empty(),
{
    BezPath::new()
}

/// `BezPath::push` of kurbo: the element is added at the end. kurbo asks that a
/// path begins with a `MoveTo`.
#[verifier::external_body]
pub(crate) fn push_element(path: &mut BezPath, el: PathElement)
    requires
        path_elements(*old(path)).push(el).first() is MoveTo,
    ensures
        path_elements(*final(path)) == path_elements(*old(path)).push(el),
{
    path.push(
        match el {
            PathElement::MoveTo(p) => PathEl::MoveTo(p),
            PathElement::LineTo(p) => PathEl::LineTo(p),
            PathElement::QuadTo(p, q) => PathEl::QuadTo(p, q),
            PathElement::CurveTo(p, q, r) => PathEl::CurveTo(p, q, r),
            PathElement::ClosePath => PathEl::ClosePath,
        },
    )
}

/// `Clone::clone` of kurbo's `BezPath`: a path with the same elements.
#[verifier::external_body]
pub(crate) fn copy_path(path: &BezPath) -> (copy: BezPath)
    ensures
        path_elements(copy) == path_elements(*path),
{
    path.clone()
}

/// `BezPath::elements` of kurbo, each element in the library's own type.
#[verifier::external_body]
pub(crate) fn elements_of(path: &BezPath) -> (els: Vec<PathElement>)
    ensures
        els@ == path_elements(*path),
{
    let mut els = Vec::new();
    for el in path.elements() {
        els.push(
            match *el {
                PathEl::MoveTo(p) => PathElement::MoveTo(p),
                PathEl::LineTo(p) => PathElement::LineTo(p),
                PathEl::QuadTo(p, q) => PathElement::QuadTo(p, q),
                PathEl::CurveTo(p, q, r) => PathElement::CurveTo(p, q, r),
                PathEl::ClosePath => PathElement::ClosePath,
            },
        );
    }
    els
}

/// `Shape::bounding_box` of kurbo on a path. kurbo reads the path segment by
/// segment, and cannot begin with a `ClosePath`.
#[verifier::external_body]
pub(crate) fn path_bounding_box(path: &BezPath) -> (r: Rect)
    requires
        begins_with_move(*path),
    ensures
        r == path_box(*path),
{
    path.bounding_box()
}

/// `Shape::contains` of kurbo on a path: whether the winding number of the point
/// is not zero. For curved elements kurbo finds it with cube roots and cosines,
/// so nothing is stated of the answer. kurbo reads the path segment by segment,
/// and cannot begin with a `ClosePath`.
#[verifier::external_body]
pub(crate) fn path_contains(path: &BezPath, point: Point) -> (inside: bool)
    requires
        begins_with_move(*path),
{
    path.contains(point)
}

/// The segment through the given points: a line without handles, a quadratic
/// with one handle (in either place), a cubic with both.
pub fn points_to_segment(p1: Point, p2: Option<Point>, p3: Option<Point>, p4: Point) -> (seg:
    PathSeg)
    ensures
        control_points(seg) == segment_shape(p1, p2, p3, p4),
{
    match (p2, p3) {
        (None, None) => line_segment(p1, p4),
        (Some(handle), None) => quad_segment(p1, handle, p4),
        (None, Some(handle)) => quad_segment(p1, handle, p4),
        (Some(first), Some(second)) => cubic_segment(p1, first, second, p4),
    }
}

/// The segment of a row taken the given way, through the positions that the map
/// has for its points; `None` where the map lacks its start or its end.
pub fn segment_data_to_pathseg(
    points_data: &HashMap<usize, PointData>,
    segment_data: SegmentData,
    direction: Direction,
) -> (seg: Option<PathSeg>)
    ensures
        match row_shape(points_data@, read(segment_data.row(), direction)) {
            Some(shape) => seg matches Some(s) && control_points(s) == shape,
            None => seg.is_none(),
        },
{
    let row = match direction {
        Direction::StartToEnd => SegmentRow {
            id: segment_data.id,
            p1: segment_data.p1,
            p2: segment_data.p2,
            p3: segment_data.p3,
            p4: segment_data.p4,
        },
        Direction::EndToStart => SegmentRow {
            id: segment_data.id,
            p1: segment_data.p4,
            p2: segment_data.p3,
            p3: segment_data.p2,
            p4: segment_data.p1,
        },
    };
    row_segment(points_data, row)
}

/// The row read the given way: as it is, or from its end to its start.
pub open spec fn read(row: SegmentRow, direction: Direction) -> SegmentRow {
    match direction {
        Direction::StartToEnd => row,
        Direction::EndToStart => SegmentRow {
            id: row.id,
            p1: row.p4,
            p2: row.p3,
            p3: row.p2,
            p4: row.p1,
        },
    }
}

/// The control points of the segment from `p1` to `p4` with the handles that
/// are there.
pub open spec fn segment_shape(p1: Point, p2: Option<Point>, p3: Option<Point>, p4: Point) -> Seq<
    Point,
> {
    match (p2, p3) {
        (None, None) => seq![p1, p4],
        (Some(handle), None) => seq![p1, handle, p4],
        (None, Some(handle)) => seq![p1, handle, p4],
        (Some(first), Some(second)) => seq![p1, first, second, p4],
    }
}

} // verus!
