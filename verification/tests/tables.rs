use std::collections::HashSet;

use kurbo::{ParamCurve, PathSeg, Point};
use mesh::mesh::{
    row_segment, MMesh, PointData, PointId, PointIndex, PointTable, SegmentData, SegmentId,
    SegmentIndex, SegmentRow, SegmentTable,
};
use mesh::util::{points_to_segment, segment_data_to_pathseg};

fn p(x: f64, y: f64) -> Point {
    Point::new(x, y)
}

#[test]
fn identifiers_give_their_numbers() {
    assert_eq!(PointId(7).id(), 7);
    assert_eq!(PointIndex(3).index(), 3);
    assert_eq!(SegmentId(9).id(), 9);
    assert_eq!(SegmentIndex(2).idx(), 2);
}

#[test]
fn point_table_keeps_rows_in_order() {
    let mut table = PointTable::new();
    table.push(PointId(5), p(1., 2.));
    table.push(PointId(8), p(3., 4.));
    table.push(PointId(5), p(5., 6.));
    let rows = table.data();
    assert_eq!(rows.len(), 3);
    assert_eq!(rows[1].idx, PointIndex(1));
    assert_eq!(rows[1].id, PointId(8));
    assert_eq!(rows[1].position, p(3., 4.));
    assert_eq!(table.find(PointId(5)), Some(0));
    assert_eq!(table.find(PointId(6)), None);
    table.remove(PointId(5));
    let rows = table.data();
    assert_eq!(rows.len(), 2);
    assert_eq!(rows[0].id, PointId(8));
    assert_eq!(rows[1].id, PointId(5));
    assert_eq!(rows[1].position, p(5., 6.));
    assert_eq!(rows[1].idx, PointIndex(1));
    table.remove(PointId(99));
    assert_eq!(table.data().len(), 2);
}

#[test]
fn remove_multiple_keeps_the_others() {
    let mut table = PointTable::new();
    for k in 0..6 {
        table.push(PointId(k), p(k as f64, 0.));
    }
    let gone: HashSet<usize> = [1, 4, 5, 17].into_iter().collect();
    table.remove_multiple(&gone);
    let ids: Vec<usize> = table.data().iter().map(|row| row.id.id()).collect();
    assert_eq!(ids, vec![0, 2, 3]);
    assert_eq!(table.data()[2].position, p(3., 0.));
}

#[test]
fn segment_table_keeps_rows_in_order() {
    let mut table = SegmentTable::new();
    table.push(SegmentId(10), PointId(0), None, None, PointId(1));
    table.push(SegmentId(11), PointId(1), Some(PointId(2)), Some(PointId(3)), PointId(4));
    table.push(SegmentId(12), PointId(4), None, Some(PointId(5)), PointId(6));
    assert_eq!(table.len(), 3);
    let rows = table.data();
    assert_eq!(rows[1].idx, SegmentIndex(1));
    assert_eq!(rows[1].id, SegmentId(11));
    assert_eq!(rows[1].p2, Some(PointId(2)));
    assert_eq!(rows[1].p3, Some(PointId(3)));
    assert_eq!(rows[1].parent, None);
    assert_eq!(rows[1].direction, None);
    assert_eq!(table.find(SegmentId(12)), Some(2));
    table.remove(SegmentId(11));
    assert_eq!(table.len(), 2);
    assert_eq!(
        table.row(1),
        SegmentRow { id: SegmentId(12), p1: PointId(4), p2: None, p3: Some(PointId(5)), p4: PointId(6) }
    );
    table.set(0, PointId(7), Some(PointId(8)), None, PointId(9));
    assert_eq!(
        table.row(0),
        SegmentRow { id: SegmentId(10), p1: PointId(7), p2: Some(PointId(8)), p3: None, p4: PointId(9) }
    );
}

#[test]
fn mesh_hands_out_identifiers_in_turn() {
    let mut mesh = MMesh::empty();
    let a = mesh.append_point(p(0., 0.));
    let b = mesh.append_point(p(10., 0.));
    let s = mesh.append_segment(a, None, None, b).unwrap();
    let c = mesh.next_point_id();
    let t = mesh.next_segment_id();
    assert_eq!((a.id(), b.id(), s.id(), c.id(), t.id()), (0, 1, 2, 3, 4));
}

#[test]
fn append_segment_wants_its_points() {
    let mut mesh = MMesh::empty();
    let a = mesh.append_point(p(0., 0.));
    let b = mesh.append_point(p(10., 0.));
    assert_eq!(mesh.append_segment(a, None, None, PointId(50)), None);
    assert_eq!(mesh.append_segment(PointId(50), None, None, b), None);
    assert_eq!(mesh.append_segment(a, Some(PointId(50)), None, b), None);
    assert_eq!(mesh.append_segment(a, None, Some(PointId(50)), b), None);
    assert_eq!(mesh.segment_count(), 0);
    let s = mesh.append_segment(a, Some(b), Some(a), b).unwrap();
    assert_eq!(s.id(), 2);
    assert_eq!(mesh.segment_count(), 1);
    assert_eq!(
        mesh.segment_row(0),
        SegmentRow { id: s, p1: a, p2: Some(b), p3: Some(a), p4: b }
    );
}

#[test]
fn points_can_be_read_and_moved() {
    let mut mesh = MMesh::empty();
    let a = mesh.append_point(p(0., 0.));
    let b = mesh.append_point(p(10., 0.));
    assert_eq!(mesh.get_point(b), Some(p(10., 0.)));
    assert_eq!(mesh.get_point(PointId(9)), None);
    mesh.set_point(a, p(3., 4.));
    mesh.set_point(PointId(9), p(7., 7.));
    assert_eq!(mesh.get_point(a), Some(p(3., 4.)));
    assert_eq!(mesh.get_point(b), Some(p(10., 0.)));
    assert_eq!(mesh.get_point(PointId(9)), None);
}

#[test]
fn floating_point_goes_and_used_point_stays() {
    let mut mesh = MMesh::empty();
    let a = mesh.append_point(p(0., 0.));
    let b = mesh.append_point(p(10., 0.));
    let h = mesh.append_point(p(5., 5.));
    let lone = mesh.append_point(p(50., 50.));
    mesh.append_segment(a, Some(h), None, b).unwrap();
    assert!(!mesh.floats(a));
    assert!(!mesh.floats(h));
    assert!(mesh.floats(lone));
    assert!(mesh.floats(PointId(77)));
    mesh.remove_floating_point(a);
    mesh.remove_floating_point(h);
    mesh.remove_floating_point(lone);
    assert_eq!(mesh.get_point(a), Some(p(0., 0.)));
    assert_eq!(mesh.get_point(h), Some(p(5., 5.)));
    assert_eq!(mesh.get_point(lone), None);
}

#[test]
fn remove_segment_takes_its_own_points() {
    let mut mesh = MMesh::empty();
    let a = mesh.append_point(p(0., 0.));
    let b = mesh.append_point(p(10., 0.));
    let c = mesh.append_point(p(20., 0.));
    let h1 = mesh.append_point(p(12., 5.));
    let h2 = mesh.append_point(p(18., 5.));
    let first = mesh.append_segment(a, None, None, b).unwrap();
    let second = mesh.append_segment(b, Some(h1), Some(h2), c).unwrap();
    mesh.remove_segment(SegmentId(99));
    assert_eq!(mesh.segment_count(), 2);
    mesh.remove_segment(second);
    assert_eq!(mesh.segment_count(), 1);
    assert_eq!(mesh.segment_row(0).id, first);
    assert_eq!(mesh.get_point(a), Some(p(0., 0.)));
    assert_eq!(mesh.get_point(b), Some(p(10., 0.)));
    assert_eq!(mesh.get_point(c), None);
    assert_eq!(mesh.get_point(h1), None);
    assert_eq!(mesh.get_point(h2), None);
    mesh.remove_segment(first);
    assert_eq!(mesh.segment_count(), 0);
    assert_eq!(mesh.get_point(a), None);
    assert_eq!(mesh.get_point(b), None);
}

#[test]
fn set_segment_changes_the_points_of_one_segment() {
    let mut mesh = MMesh::empty();
    let a = mesh.append_point(p(0., 0.));
    let b = mesh.append_point(p(10., 0.));
    let c = mesh.append_point(p(20., 0.));
    let s = mesh.append_segment(a, None, None, b).unwrap();
    let t = mesh.append_segment(b, None, None, c).unwrap();
    mesh.set_segment(s, a, Some(b), None, c);
    mesh.set_segment(SegmentId(99), c, None, None, a);
    assert_eq!(mesh.segment_row(0), SegmentRow { id: s, p1: a, p2: Some(b), p3: None, p4: c });
    assert_eq!(mesh.segment_row(1), SegmentRow { id: t, p1: b, p2: None, p3: None, p4: c });
}

#[test]
fn maps_hold_the_rows_by_identifier() {
    let mut mesh = MMesh::empty();
    let a = mesh.append_point(p(0., 0.));
    let b = mesh.append_point(p(10., 0.));
    let s = mesh.append_segment(a, None, None, b).unwrap();
    let points = mesh.points_map();
    assert_eq!(points.len(), 2);
    assert_eq!(points[&b.id()].position, p(10., 0.));
    assert_eq!(points[&b.id()].idx, PointIndex(1));
    let segments = mesh.segments_map();
    assert_eq!(segments.len(), 1);
    assert_eq!(segments[&s.id()].p4, b);
    assert_eq!(segments[&s.id()].idx, SegmentIndex(0));
}

#[test]
fn segments_take_their_kind_from_their_handles() {
    let a = p(0., 0.);
    let h = p(1., 5.);
    let k = p(9., 5.);
    let b = p(10., 0.);
    assert_eq!(points_to_segment(a, None, None, b), PathSeg::Line(kurbo::Line::new(a, b)));
    assert_eq!(
        points_to_segment(a, Some(h), None, b),
        PathSeg::Quad(kurbo::QuadBez::new(a, h, b))
    );
    assert_eq!(
        points_to_segment(a, None, Some(k), b),
        PathSeg::Quad(kurbo::QuadBez::new(a, k, b))
    );
    assert_eq!(
        points_to_segment(a, Some(h), Some(k), b),
        PathSeg::Cubic(kurbo::CubicBez::new(a, h, k, b))
    );
}

#[test]
fn segment_of_a_row_goes_through_the_map() {
    let mut mesh = MMesh::empty();
    let a = mesh.append_point(p(0., 0.));
    let h = mesh.append_point(p(1., 5.));
    let k = mesh.append_point(p(9., 5.));
    let b = mesh.append_point(p(10., 0.));
    mesh.append_segment(a, Some(h), Some(k), b).unwrap();
    let map = mesh.points_map();
    let whole = PathSeg::Cubic(kurbo::CubicBez::new(p(0., 0.), p(1., 5.), p(9., 5.), p(10., 0.)));
    assert_eq!(mesh.segment(SegmentIndex(0), &map), Some(whole));
    assert_eq!(mesh.segment(SegmentIndex(1), &map), None);
    assert_eq!(mesh.path_segment(0), Some(whole));
    let data = mesh.segments_map()[&4];
    assert_eq!(data.to_path_seg(&map), Some(whole));
    assert_eq!(
        segment_data_to_pathseg(&map, data, mesh::dynamic::Direction::EndToStart),
        Some(whole.reverse())
    );
    assert_eq!(
        mesh::mesh::planar::segment_data_to_pathseg(
            &map,
            data,
            mesh::mesh::planar::Direction::StartToEnd
        ),
        Some(whole)
    );
    let row = SegmentRow { id: SegmentId(9), p1: a, p2: Some(PointId(40)), p3: None, p4: b };
    assert_eq!(row_segment(&map, row), Some(PathSeg::Line(kurbo::Line::new(p(0., 0.), p(10., 0.)))));
    let lost = SegmentRow { id: SegmentId(9), p1: PointId(40), p2: None, p3: None, p4: b };
    assert_eq!(row_segment(&map, lost), None);
    let made = SegmentData::new(
        SegmentIndex(0),
        SegmentId(9),
        b,
        None,
        None,
        a,
        Some(SegmentId(1)),
        None,
    );
    assert_eq!(made.to_path_seg(&map).unwrap().start(), p(10., 0.));
    let made_point = PointData::new(PointIndex(2), PointId(3), p(1., 1.));
    assert_eq!(made_point.id, PointId(3));
}

#[test]
fn closest_point_is_sought_within_the_radius() {
    let mut mesh = MMesh::empty();
    let far = mesh.append_point(p(100., 100.));
    let near = mesh.append_point(p(3., 0.));
    let nearer = mesh.append_point(p(1., 0.));
    assert_eq!(mesh.closest_point(p(0., 0.), None), Some((nearer, p(1., 0.))));
    assert_eq!(mesh.closest_point(p(0., 0.), Some(2.0f64.to_bits())), Some((nearer, p(1., 0.))));
    assert_eq!(mesh.closest_point(p(0., 0.), Some(0.5f64.to_bits())), None);
    assert_eq!(mesh.closest_point(p(99., 99.), Some(3.0f64.to_bits())), Some((far, p(100., 100.))));
    assert_eq!(mesh.closest_point(p(4., 0.), Some(1.5f64.to_bits())), Some((near, p(3., 0.))));
}

#[test]
fn closest_point_holds_on_to_a_point_across_the_way() {
    let mut mesh = MMesh::empty();
    let held = mesh.append_point(p(3., 0.));
    mesh.append_point(p(-2., 0.));
    assert_eq!(mesh.closest_point(p(0., 0.), None), Some((held, p(3., 0.))));
}

#[test]
fn bezpath_works() {
    let mut bezpath = kurbo::BezPath::new();

    bezpath.move_to(Point::new(10., 15.));
    bezpath.quad_to(Point::new(100., 120.), Point::new(100., 200.));
    bezpath.quad_to(Point::new(200., 220.), Point::new(200., 300.));

    let mut mesh = MMesh::empty();
    mesh.append_bezpath(&bezpath);

    let result = mesh.to_bezpath();
    assert_eq!(result, bezpath);
}

#[test]
fn path_of_lines_and_cubics_comes_back() {
    let mut bezpath = kurbo::BezPath::new();
    bezpath.move_to(p(0., 0.));
    bezpath.line_to(p(10., 0.));
    bezpath.curve_to(p(12., 5.), p(18., 5.), p(20., 0.));
    bezpath.line_to(p(30., 10.));
    let mut mesh = MMesh::empty();
    mesh.append_bezpath(&bezpath);
    assert_eq!(mesh.segment_count(), 3);
    assert_eq!(mesh.to_bezpath(), bezpath);
    assert_eq!(MMesh::empty().to_bezpath(), kurbo::BezPath::new());
}

#[test]
fn closed_chain_is_drawn_once_round() {
    let mut mesh = MMesh::empty();
    let a = mesh.append_point(p(0., 0.));
    let b = mesh.append_point(p(10., 0.));
    let c = mesh.append_point(p(5., 8.));
    mesh.append_segment(a, None, None, b).unwrap();
    mesh.append_segment(b, None, None, c).unwrap();
    mesh.append_segment(c, None, None, a).unwrap();
    let mut round = kurbo::BezPath::new();
    round.move_to(p(0., 0.));
    round.line_to(p(10., 0.));
    round.line_to(p(5., 8.));
    round.line_to(p(0., 0.));
    assert_eq!(mesh.to_bezpath(), round);
}
