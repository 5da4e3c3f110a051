use std::collections::HashMap;

use kurbo::Point;
use mesh::dynamic::{intersection, Flow};
use mesh::mesh::planar::{
    best_style, calculate_style, Direction, RegionStyle, XColor,
};
use mesh::mesh::{MMesh, PointId, SegmentData, SegmentId, SegmentIndex};
use mesh::walk::Step;

fn polygon(mesh: &mut MMesh, corners: &[(f64, f64)]) -> Vec<SegmentId> {
    let ids: Vec<_> = corners.iter().map(|c| mesh.append_point(Point::new(c.0, c.1))).collect();
    let mut segments = Vec::new();
    for i in 0..ids.len() {
        let next = (i + 1) % ids.len();
        segments.push(mesh.append_segment(ids[i], None, None, ids[next]).unwrap());
    }
    segments
}

#[test]
fn uncrossed_polygon_comes_back_from_the_planar_graph() {
    let mut mesh = MMesh::empty();
    let segments = polygon(&mut mesh, &[(10., 10.), (110., 10.), (110., 90.), (10., 90.)]);
    let data = intersection(&mesh);
    let (laid, _) = MMesh::lay_out(&data);
    assert_eq!(laid.points_map().len(), 8);
    let (graph, parents) = MMesh::planar_graph_of(&data);
    assert_eq!(graph.segment_count(), 4);
    assert_eq!(graph.points_map().len(), 4);
    for k in 0..4 {
        let row = graph.segment_row(k);
        let next = graph.segment_row((k + 1) % 4);
        assert_eq!(row.p4, next.p1);
        assert_eq!(parents[&row.id.id()], segments[k]);
        assert_eq!(graph.get_point(row.p1), mesh.get_point(mesh.segment_row(k).p1));
        assert_eq!(graph.get_point(row.p4), mesh.get_point(mesh.segment_row(k).p4));
    }
}

#[test]
fn pieces_of_one_segment_are_linked() {
    let mut mesh = MMesh::empty();
    polygon(&mut mesh, &[(10., 10.), (110., 10.), (110., 90.), (10., 90.)]);
    polygon(&mut mesh, &[(60., 50.), (170., 50.), (170., 130.), (60., 130.)]);
    let data = intersection(&mesh);
    assert_eq!(data.len(), 12);
    let (laid, parents) = MMesh::lay_out(&data);
    assert_eq!(laid.segment_count(), 12);
    assert_eq!(parents.len(), 12);
    // 8 starts, 12 ends
    assert_eq!(laid.points_map().len(), 20);
    let mut linked = 0;
    for k in 1..12 {
        if data.piece(k).parent == data.piece(k - 1).parent {
            assert_eq!(laid.segment_row(k).p1, laid.segment_row(k - 1).p4);
            linked += 1;
        }
    }
    assert_eq!(linked, 4);
    let (graph, _) = mesh.planar_graph().unwrap();
    assert_eq!(graph.segment_count(), 12);
    // 8 corners and 2 crossings
    assert_eq!(graph.points_map().len(), 10);
    for k in 0..12 {
        let row = graph.segment_row(k);
        assert!(graph.get_point(row.p1).is_some());
        assert!(graph.get_point(row.p4).is_some());
        assert!(graph.path_segment(k).is_some());
    }
}

#[test]
fn regions_of_a_planar_graph() {
    let mut mesh = MMesh::empty();
    polygon(&mut mesh, &[(10., 10.), (110., 10.), (110., 90.), (10., 90.)]);
    let (graph, _) = mesh.planar_graph().unwrap();
    let table = graph.links();
    assert_eq!(table.len(), 8);
    assert_eq!(table[0], Some(Step { index: 1, flow: Flow::StartToEnd }));
    assert_eq!(table[1], Some(Step { index: 3, flow: Flow::EndToStart }));
    let (regions, points) = graph.calculate_regions();
    assert_eq!(points.len(), 4);
    assert_eq!(regions.len(), 2);
    let forth: Vec<(usize, Direction)> =
        regions[0].iter().map(|(data, way)| (data.idx.idx(), *way)).collect();
    assert_eq!(
        forth,
        vec![
            (1, Direction::StartToEnd),
            (2, Direction::StartToEnd),
            (3, Direction::StartToEnd),
            (0, Direction::StartToEnd)
        ]
    );
    let back: Vec<(usize, Direction)> =
        regions[1].iter().map(|(data, way)| (data.idx.idx(), *way)).collect();
    assert_eq!(
        back,
        vec![
            (3, Direction::EndToStart),
            (2, Direction::EndToStart),
            (1, Direction::EndToStart),
            (0, Direction::EndToStart)
        ]
    );
    assert_eq!(regions[0][1].0.id, graph.segment_row(2).id);

    let mut crossed = MMesh::empty();
    polygon(&mut crossed, &[(10., 10.), (110., 10.), (110., 90.), (10., 90.)]);
    polygon(&mut crossed, &[(60., 50.), (170., 50.), (170., 130.), (60., 130.)]);
    let (graph, _) = crossed.planar_graph().unwrap();
    let (regions, _) = graph.calculate_regions();
    assert_eq!(regions.len(), 4);
}

#[test]
fn weld_merges_near_points_and_leaves_handles() {
    let mut mesh = MMesh::empty();
    let a = mesh.append_point(Point::new(0., 0.));
    let b = mesh.append_point(Point::new(10., 0.));
    let b2 = mesh.append_point(Point::new(11., 1.));
    let h = mesh.append_point(Point::new(10.5, 0.5));
    let c = mesh.append_point(Point::new(20., 0.));
    let b3 = mesh.append_point(Point::new(12.5, 0.));
    let s = mesh.append_segment(a, None, None, b).unwrap();
    let t = mesh.append_segment(b2, Some(h), None, c).unwrap();
    let u = mesh.append_segment(c, None, None, b3).unwrap();
    mesh.weld();
    assert_eq!(mesh.segment_row(0).id, s);
    assert_eq!(mesh.segment_row(0).p4, b);
    assert_eq!(mesh.segment_row(1).id, t);
    assert_eq!(mesh.segment_row(1).p1, b);
    assert_eq!(mesh.segment_row(1).p2, Some(h));
    assert_eq!(mesh.segment_row(1).p4, c);
    assert_eq!(mesh.segment_row(2).id, u);
    assert_eq!(mesh.segment_row(2).p4, b);
    assert_eq!(mesh.get_point(b2), None);
    assert_eq!(mesh.get_point(b3), None);
    assert_eq!(mesh.get_point(h), Some(Point::new(10.5, 0.5)));
    assert_eq!(mesh.get_point(b), Some(Point::new(10., 0.)));
    assert_eq!(mesh.points_map().len(), 4);
}

fn edges(list: &[(usize, Direction)]) -> Vec<(SegmentId, Direction)> {
    list.iter().map(|(id, way)| (SegmentId(*id), *way)).collect()
}

const F: Direction = Direction::StartToEnd;
const B: Direction = Direction::EndToStart;

#[test]
fn match_style_counts_shared_edges() {
    let style = RegionStyle::new(edges(&[(1, F), (2, F), (3, B)]), XColor::Red);
    assert_eq!(style.color(), XColor::Red);
    assert_eq!(style.match_style(&edges(&[(1, F), (2, F), (3, B)])), 3);
    assert_eq!(style.match_style(&edges(&[(3, B), (9, F), (1, F)])), 2);
    assert_eq!(style.match_style(&edges(&[(3, F), (1, B)])), 0);
    assert_eq!(style.match_style(&edges(&[(1, F), (1, F)])), 2);
    assert_eq!(style.match_style(&edges(&[])), 0);
}

#[test]
fn best_style_is_the_last_that_shares_most() {
    let styles = vec![
        RegionStyle::new(edges(&[(1, F), (2, F)]), XColor::Red),
        RegionStyle::new(edges(&[(1, F), (2, F), (3, F)]), XColor::Green),
        RegionStyle::new(edges(&[(3, F), (2, F), (1, F)]), XColor::Blue),
        RegionStyle::new(edges(&[(5, F)]), XColor::Brown),
    ];
    assert_eq!(best_style(&styles, &edges(&[(1, F), (2, F), (3, F)])), Some(2));
    assert_eq!(best_style(&styles, &edges(&[(5, F)])), Some(3));
    assert_eq!(best_style(&styles, &edges(&[(8, F)])), Some(3));
    assert_eq!(best_style(&vec![], &edges(&[(1, F)])), None);
}

fn data(id: usize) -> SegmentData {
    SegmentData::new(
        SegmentIndex(0),
        SegmentId(id),
        PointId(0),
        None,
        None,
        PointId(1),
        None,
        None,
    )
}

#[test]
fn styles_are_carried_by_the_parents_of_the_edges() {
    let regions = vec![
        vec![(data(10), F), (data(11), F), (data(12), B)],
        vec![(data(13), B), (data(14), B)],
    ];
    let parents: HashMap<usize, SegmentId> = [
        (10, SegmentId(1)),
        (11, SegmentId(1)),
        (12, SegmentId(2)),
        (13, SegmentId(3)),
        (14, SegmentId(4)),
    ]
    .into_iter()
    .collect();
    let styles = vec![
        RegionStyle::new(edges(&[(3, B), (4, B)]), XColor::Yellow),
        RegionStyle::new(edges(&[(1, F), (2, B)]), XColor::Gray),
    ];
    let carried = calculate_style(&regions, &parents, &styles, &vec![false, false], None);
    assert_eq!(carried.len(), 2);
    assert_eq!(carried[0].color(), XColor::Gray);
    assert_eq!(carried[1].color(), XColor::Yellow);
    assert_eq!(carried[0].match_style(&edges(&[(1, F), (1, F), (2, B)])), 3);
    let set = calculate_style(&regions, &parents, &styles, &vec![false, true], Some(XColor::Blue));
    assert_eq!(set[0].color(), XColor::Gray);
    assert_eq!(set[1].color(), XColor::Blue);
    let none = calculate_style(&regions, &parents, &vec![], &vec![true, false], None);
    assert_eq!(none[0].color(), XColor::Blank);
    assert_eq!(none[1].color(), XColor::Blank);
}
