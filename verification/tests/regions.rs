use kurbo::{ParamCurve, Point, Shape};
use mesh::algo::PARAM_ONE;
use mesh::dynamic::{
    cut, intersection, intersection_plan, links, Color, DynamicData, DynamicRegionStructure, Flow,
    Part,
};
use mesh::mesh::{MMesh, PointId, SegmentId};
use mesh::walk::Step;

fn polygon(mesh: &mut MMesh, corners: &[(f64, f64)]) -> Vec<PointId> {
    let ids: Vec<_> = corners.iter().map(|c| mesh.append_point(Point::new(c.0, c.1))).collect();
    for i in 0..ids.len() {
        let next = (i + 1) % ids.len();
        assert!(mesh.append_segment(ids[i], None, None, ids[next]).is_some());
    }
    ids
}

fn regions_of(mesh: &MMesh) -> DynamicData {
    DynamicData::build(intersection(mesh)).filter_outer_regions()
}

const RED: Color = Color { r: 230, g: 41, b: 55, a: 255 };
const BLUE: Color = Color { r: 0, g: 121, b: 241, a: 255 };

#[test]
fn simple_polygon_has_two_faces_and_one_after_filter() {
    let mut mesh = MMesh::empty();
    polygon(&mut mesh, &[(10., 10.), (110., 10.), (110., 90.), (10., 90.)]);
    let plan = intersection_plan(&mesh);
    assert_eq!(plan.pieces.len(), 4);
    for cuts in &plan.cuts {
        assert_eq!(cuts.len(), 2);
        assert_eq!(cuts[0].ticks, 0);
        assert_eq!(cuts[1].ticks, PARAM_ONE);
    }
    let data = cut(&plan);
    assert_eq!(data.len(), 4);
    let regions = DynamicData::build(data);
    assert_eq!(regions.len(), 2);
    assert_eq!(regions.structure(0).len(), 4);
    assert_eq!(regions.structure(1).len(), 4);
    for i in 0..4 {
        assert_eq!(regions.structure(0).edge(i).flow, Flow::StartToEnd);
        assert_eq!(regions.structure(1).edge(i).flow, Flow::EndToStart);
        assert_eq!(regions.structure(0).edge(i).part, None);
    }
    assert_eq!(regions.color(0), None);
    let inner = regions.filter_outer_regions();
    assert_eq!(inner.len(), 1);
    assert_eq!(inner.structure(0).edge(0).flow, Flow::StartToEnd);
}

#[test]
fn face_path_runs_along_the_pieces() {
    let mut mesh = MMesh::empty();
    polygon(&mut mesh, &[(10., 10.), (110., 10.), (110., 90.), (10., 90.)]);
    let regions = DynamicData::build(intersection(&mesh));
    let forth = regions.path(0).elements().to_vec();
    assert_eq!(
        forth,
        vec![
            kurbo::PathEl::MoveTo(Point::new(10., 10.)),
            kurbo::PathEl::LineTo(Point::new(110., 10.)),
            kurbo::PathEl::LineTo(Point::new(110., 90.)),
            kurbo::PathEl::LineTo(Point::new(10., 90.)),
            kurbo::PathEl::LineTo(Point::new(10., 10.)),
        ]
    );
    let back = regions.path(1).elements().to_vec();
    assert_eq!(
        back,
        vec![
            kurbo::PathEl::MoveTo(Point::new(110., 10.)),
            kurbo::PathEl::LineTo(Point::new(10., 10.)),
            kurbo::PathEl::LineTo(Point::new(10., 90.)),
            kurbo::PathEl::LineTo(Point::new(110., 90.)),
            kurbo::PathEl::LineTo(Point::new(110., 10.)),
        ]
    );
    assert_eq!(regions.path(0).bounding_box().area(), 8000.);
}

#[test]
fn two_overlapping_rectangles_have_three_bounded_faces() {
    let mut mesh = MMesh::empty();
    polygon(&mut mesh, &[(10., 10.), (110., 10.), (110., 90.), (10., 90.)]);
    polygon(&mut mesh, &[(60., 50.), (170., 50.), (170., 130.), (60., 130.)]);
    let data = intersection(&mesh);
    assert_eq!(data.len(), 12);
    let regions = DynamicData::build(data);
    assert_eq!(regions.len(), 4);
    let inner = regions.filter_outer_regions();
    assert_eq!(inner.len(), 3);
    for i in 0..inner.len() {
        for j in 0..inner.len() {
            assert_eq!(inner.structure(i).match_structure(inner.structure(j)), i == j);
        }
    }
}

#[test]
fn open_chain_has_no_face() {
    let mut mesh = MMesh::empty();
    let a = mesh.append_point(Point::new(0., 0.));
    let b = mesh.append_point(Point::new(100., 0.));
    let c = mesh.append_point(Point::new(100., 100.));
    mesh.append_segment(a, None, None, b).unwrap();
    mesh.append_segment(b, None, None, c).unwrap();
    let data = intersection(&mesh);
    assert_eq!(data.len(), 2);
    let table = links(&data);
    assert_eq!(table[0], Some(Step { index: 1, flow: Flow::StartToEnd }));
    assert_eq!(table[1], None);
    assert_eq!(table[2], None);
    assert_eq!(table[3], Some(Step { index: 0, flow: Flow::EndToStart }));
    assert!(DynamicData::build_region(&data, 0, Flow::StartToEnd).is_none());
    let regions = DynamicData::build(data);
    assert_eq!(regions.len(), 0);
    assert_eq!(regions.filter_outer_regions().len(), 0);
}

#[test]
fn build_region_starts_with_the_given_step() {
    let mut mesh = MMesh::empty();
    polygon(&mut mesh, &[(0., 0.), (50., 0.), (25., 40.)]);
    let data = intersection(&mesh);
    let (path, structure, visited) =
        DynamicData::build_region(&data, 1, Flow::EndToStart).unwrap();
    assert_eq!(visited, vec![1, 0, 2]);
    assert_eq!(structure.len(), 3);
    for i in 0..3 {
        assert_eq!(structure.edge(i).flow, Flow::EndToStart);
    }
    assert_eq!(structure.edge(0).parent, data.piece(1).parent);
    assert_eq!(path.elements().len(), 4);
    assert_eq!(path.elements()[0], kurbo::PathEl::MoveTo(Point::new(25., 40.)));
}

#[test]
fn single_region_stays_after_filter() {
    let mut regions = DynamicData::new();
    let mut path = kurbo::BezPath::new();
    path.move_to((0., 0.));
    path.line_to((10., 0.));
    path.line_to((10., 10.));
    let mut structure = DynamicRegionStructure::new();
    structure.push((SegmentId(1), None), Flow::StartToEnd);
    structure.push((SegmentId(2), None), Flow::StartToEnd);
    regions.push(path, structure);
    let kept = regions.filter_outer_regions();
    assert_eq!(kept.len(), 1);
}

#[test]
fn filter_takes_out_the_last_of_the_greatest() {
    let mut regions = DynamicData::new();
    for (k, side) in [10., 30., 20., 30., 5.].iter().enumerate() {
        let mut path = kurbo::BezPath::new();
        path.move_to((0., 0.));
        path.line_to((*side, 0.));
        path.line_to((*side, *side));
        let mut structure = DynamicRegionStructure::new();
        structure.push((SegmentId(k), None), Flow::StartToEnd);
        structure.push((SegmentId(k), None), Flow::EndToStart);
        regions.push(path, structure);
    }
    let kept = regions.filter_outer_regions();
    assert_eq!(kept.len(), 4);
    let parents: Vec<usize> = (0..4).map(|i| kept.structure(i).edge(0).parent.id()).collect();
    assert_eq!(parents, vec![0, 1, 2, 4]);
}

#[test]
fn unchanged_drawing_keeps_every_style() {
    let mut mesh = MMesh::empty();
    polygon(&mut mesh, &[(10., 10.), (110., 10.), (110., 90.), (10., 90.)]);
    polygon(&mut mesh, &[(60., 50.), (170., 50.), (170., 130.), (60., 130.)]);
    let mut first = regions_of(&mesh);
    assert_eq!(first.len(), 3);
    first.apply_style(Some(RED), Point::new(20., 20.));
    first.apply_style(Some(BLUE), Point::new(150., 120.));
    let colors: Vec<_> = (0..3).map(|i| first.color(i)).collect();
    assert_eq!(colors.iter().filter(|c| **c == Some(RED)).count(), 1);
    assert_eq!(colors.iter().filter(|c| **c == Some(BLUE)).count(), 1);
    assert_eq!(colors.iter().filter(|c| c.is_none()).count(), 1);
    let second = regions_of(&mesh).dynamic(first);
    assert_eq!(second.len(), 3);
    for i in 0..3 {
        assert_eq!(second.color(i), colors[i]);
    }
}

#[test]
fn apply_style_paints_only_the_region_that_holds_the_point() {
    let mut mesh = MMesh::empty();
    polygon(&mut mesh, &[(10., 10.), (110., 10.), (110., 90.), (10., 90.)]);
    polygon(&mut mesh, &[(60., 50.), (170., 50.), (170., 130.), (60., 130.)]);
    let mut regions = regions_of(&mesh);
    regions.apply_style(Some(RED), Point::new(80., 70.));
    let painted: Vec<usize> = (0..3).filter(|i| regions.color(*i) == Some(RED)).collect();
    assert_eq!(painted.len(), 1);
    assert!(regions.path(painted[0]).contains(Point::new(80., 70.)));
    assert_eq!(regions.structure(painted[0]).len(), 4);
    regions.apply_style(Some(BLUE), Point::new(500., 500.));
    assert_eq!((0..3).filter(|i| regions.color(*i) == Some(BLUE)).count(), 0);
    regions.apply_style(None, Point::new(80., 70.));
    assert_eq!((0..3).filter(|i| regions.color(*i).is_some()).count(), 0);
}

#[test]
fn paint_gives_the_style_to_the_marked_regions() {
    let mut mesh = MMesh::empty();
    polygon(&mut mesh, &[(10., 10.), (110., 10.), (110., 90.), (10., 90.)]);
    polygon(&mut mesh, &[(60., 50.), (170., 50.), (170., 130.), (60., 130.)]);
    let mut regions = regions_of(&mesh);
    regions.paint(&vec![true, false, true], Some(RED));
    assert_eq!(regions.color(0), Some(RED));
    assert_eq!(regions.color(1), None);
    assert_eq!(regions.color(2), Some(RED));
    regions.paint(&vec![false, true, true], Some(BLUE));
    assert_eq!(regions.color(0), Some(RED));
    assert_eq!(regions.color(1), Some(BLUE));
    assert_eq!(regions.color(2), Some(BLUE));
}

#[test]
fn small_move_keeps_faces_and_styles() {
    let mut mesh = MMesh::empty();
    let ids = polygon(&mut mesh, &[(10., 10.), (110., 10.), (110., 90.), (10., 90.)]);
    polygon(&mut mesh, &[(60., 50.), (170., 50.), (170., 130.), (60., 130.)]);
    let mut first = regions_of(&mesh);
    first.apply_style(Some(RED), Point::new(80., 70.));
    first.apply_style(Some(BLUE), Point::new(20., 20.));
    mesh.set_point(ids[0], Point::new(10.4, 9.7));
    let second = regions_of(&mesh).dynamic(first);
    assert_eq!(second.len(), 3);
    let red: Vec<usize> = (0..3).filter(|i| second.color(*i) == Some(RED)).collect();
    assert_eq!(red.len(), 1);
    assert!(second.path(red[0]).contains(Point::new(80., 70.)));
    let blue: Vec<usize> = (0..3).filter(|i| second.color(*i) == Some(BLUE)).collect();
    assert_eq!(blue.len(), 1);
    assert!(second.path(blue[0]).contains(Point::new(20., 20.)));
}

#[test]
fn large_move_changes_the_faces() {
    let mut mesh = MMesh::empty();
    polygon(&mut mesh, &[(10., 10.), (110., 10.), (110., 90.), (10., 90.)]);
    let ids = polygon(&mut mesh, &[(200., 50.), (300., 50.), (300., 130.), (200., 130.)]);
    let data = intersection(&mesh);
    assert_eq!(data.len(), 8);
    let apart = DynamicData::build(data);
    assert_eq!(apart.len(), 4);
    assert!((0..4).all(|i| apart.structure(i).len() == 4));
    mesh.set_point(ids[0], Point::new(60., 50.));
    let data = intersection(&mesh);
    assert_eq!(data.len(), 12);
    let crossing = DynamicData::build(data).filter_outer_regions();
    assert_eq!(crossing.len(), 3);
    let mut sizes: Vec<usize> = (0..3).map(|i| crossing.structure(i).len()).collect();
    sizes.sort();
    assert_eq!(sizes, vec![3, 5, 7]);
}

#[test]
fn cubic_is_searched_in_two_halves() {
    let mut mesh = MMesh::empty();
    let a = mesh.append_point(Point::new(0., 0.));
    let h1 = mesh.append_point(Point::new(0., 100.));
    let h2 = mesh.append_point(Point::new(100., 100.));
    let b = mesh.append_point(Point::new(100., 0.));
    let id = mesh.append_segment(a, Some(h1), Some(h2), b).unwrap();
    mesh.append_segment(b, None, None, a).unwrap();
    let plan = intersection_plan(&mesh);
    assert_eq!(plan.pieces.len(), 3);
    assert_eq!(plan.pieces[0].part, Some(Part::First));
    assert_eq!(plan.pieces[1].part, Some(Part::Second));
    assert_eq!(plan.pieces[2].part, None);
    assert_eq!(plan.pieces[0].parent, id);
    assert_eq!(plan.pieces[1].parent, id);
    assert_eq!(plan.pieces[0].segment.start(), Point::new(0., 0.));
    assert_eq!(plan.pieces[0].segment.end(), Point::new(50., 75.));
    assert_eq!(plan.pieces[1].segment.start(), Point::new(50., 75.));
    assert_eq!(plan.pieces[1].segment.end(), Point::new(100., 0.));
    let regions = DynamicData::build(cut(&plan));
    assert_eq!(regions.len(), 2);
    assert_eq!(regions.structure(0).len(), 3);
    assert_eq!(regions.filter_outer_regions().len(), 1);
}

#[test]
fn segment_without_its_points_is_left_out() {
    let mut mesh = MMesh::empty();
    let ids = polygon(&mut mesh, &[(0., 0.), (50., 0.), (25., 40.)]);
    mesh.remove_floating_point(ids[0]);
    assert_eq!(mesh.get_point(ids[0]), Some(Point::new(0., 0.)));
    assert_eq!(intersection_plan(&mesh).pieces.len(), 3);
    let last = mesh.segment_row(2);
    mesh.set_segment(last.id, last.p1, None, None, PointId(99));
    assert_eq!(mesh.path_segment(2), None);
    let plan = intersection_plan(&mesh);
    assert_eq!(plan.pieces.len(), 2);
    assert_eq!(plan.pieces[0].parent, mesh.segment_row(0).id);
    assert_eq!(plan.pieces[1].parent, mesh.segment_row(1).id);
    let regions = DynamicData::build(intersection(&mesh));
    assert_eq!(regions.len(), 0);
}

#[test]
fn pieces_are_cut_at_their_places() {
    let mut mesh = MMesh::empty();
    let a = mesh.append_point(Point::new(0., 0.));
    let h = mesh.append_point(Point::new(50., 100.));
    let b = mesh.append_point(Point::new(100., 0.));
    let c = mesh.append_point(Point::new(-10., 30.));
    let d = mesh.append_point(Point::new(110., 31.));
    mesh.append_segment(a, None, Some(h), b).unwrap();
    mesh.append_segment(c, None, None, d).unwrap();
    let plan = intersection_plan(&mesh);
    assert_eq!(plan.cuts[0].len(), 4);
    assert_eq!(plan.cuts[1].len(), 4);
    let data = cut(&plan);
    assert_eq!(data.len(), 6);
    let mut k = 0;
    for (piece, cuts) in plan.pieces.iter().zip(plan.cuts.iter()) {
        for pair in cuts.windows(2) {
            let lo = pair[0].ticks as f64 / PARAM_ONE as f64;
            let hi = pair[1].ticks as f64 / PARAM_ONE as f64;
            assert_eq!(pair[0].place(), Point::new(lo, 0.));
            assert_eq!(pair[1].place(), Point::new(hi, 0.));
            assert_eq!(data.piece(k).segment, piece.segment.subsegment(lo..hi));
            assert_eq!(data.piece(k).parent, piece.parent);
            assert_eq!(data.piece(k).part, piece.part);
            k += 1;
        }
    }
    let whole = intersection(&mesh);
    assert_eq!(whole.len(), 6);
    for k in 0..6 {
        assert_eq!(whole.piece(k).segment, data.piece(k).segment);
    }
}

#[test]
fn parts_are_of_the_kind_of_their_piece() {
    let mut mesh = MMesh::empty();
    let a = mesh.append_point(Point::new(0., 0.));
    let h = mesh.append_point(Point::new(50., 100.));
    let b = mesh.append_point(Point::new(100., 0.));
    let c = mesh.append_point(Point::new(-10., 30.));
    let d = mesh.append_point(Point::new(110., 31.));
    let e = mesh.append_point(Point::new(0., 200.));
    let h1 = mesh.append_point(Point::new(0., 300.));
    let h2 = mesh.append_point(Point::new(100., 300.));
    let f = mesh.append_point(Point::new(100., 200.));
    mesh.append_segment(a, None, Some(h), b).unwrap();
    mesh.append_segment(c, None, None, d).unwrap();
    mesh.append_segment(e, Some(h1), Some(h2), f).unwrap();
    let data = intersection(&mesh);
    assert_eq!(data.len(), 8);
    for k in 0..3 {
        assert!(matches!(data.piece(k).segment, kurbo::PathSeg::Quad(_)));
    }
    for k in 3..6 {
        assert!(matches!(data.piece(k).segment, kurbo::PathSeg::Line(_)));
    }
    for k in 6..8 {
        assert!(matches!(data.piece(k).segment, kurbo::PathSeg::Cubic(_)));
    }
}

#[test]
fn ring_of_pieces_has_the_same_boundary_forth_and_back() {
    let mut mesh = MMesh::empty();
    polygon(&mut mesh, &[(0., 0.), (80., 0.), (100., 60.), (40., 90.), (-20., 50.)]);
    let data = intersection(&mesh);
    let n = data.len();
    assert_eq!(n, 5);
    let regions = DynamicData::build(data.clone());
    assert_eq!(regions.len(), 2);
    assert_eq!(regions.structure(0).len(), n);
    assert_eq!(regions.structure(1).len(), n);
    for k in 0..n {
        let forth = regions.structure(0).edge(k);
        assert_eq!(forth.parent, data.piece(k).parent);
        assert_eq!(forth.flow, Flow::StartToEnd);
        let back = regions.structure(1).edge(k);
        let mirror = regions.structure(0).edge((n - k) % n);
        assert_eq!(back.parent, mirror.parent);
        assert_eq!(back.part, mirror.part);
        assert_eq!(back.flow, Flow::EndToStart);
    }
}

#[test]
fn two_rectangles_give_four_faces_and_lose_the_outside() {
    let mut mesh = MMesh::empty();
    polygon(&mut mesh, &[(0., 0.), (10., 0.), (10., 10.), (0., 10.)]);
    polygon(&mut mesh, &[(4., 3.), (15., 3.), (15., 15.), (4., 15.)]);
    let data = intersection(&mesh);
    assert_eq!(data.len(), 12);
    let regions = DynamicData::build(data);
    assert_eq!(regions.len(), 4);
    let mut found: Vec<(usize, i64)> = (0..4)
        .map(|i| {
            (regions.structure(i).len(), regions.path(i).bounding_box().area().round() as i64)
        })
        .collect();
    let at_first = found.clone();
    found.sort();
    assert_eq!(found, vec![(4, 42), (6, 100), (6, 132), (8, 225)]);
    let inner = regions.filter_outer_regions();
    assert_eq!(inner.len(), 3);
    let left: Vec<(usize, i64)> = (0..3)
        .map(|i| (inner.structure(i).len(), inner.path(i).bounding_box().area().round() as i64))
        .collect();
    let expected: Vec<(usize, i64)> = at_first.into_iter().filter(|f| f.1 != 225).collect();
    assert_eq!(left, expected);
}
