use kurbo::{BezPath, Line, PathEl, PathSeg, Point};
use mesh::dynamic::{closed, links, links_from, step_after, DynamicData, Flow, IntersectData};
use mesh::mesh::{MMesh, SegmentId};
use mesh::walk::Step;

fn forth(index: usize) -> Step {
    Step { index, flow: Flow::StartToEnd }
}

fn back(index: usize) -> Step {
    Step { index, flow: Flow::EndToStart }
}

fn lines(ends: &[((f64, f64), (f64, f64))]) -> IntersectData {
    let mut data = IntersectData::new();
    for (k, (a, b)) in ends.iter().enumerate() {
        let seg = PathSeg::Line(Line::new(Point::new(a.0, a.1), Point::new(b.0, b.1)));
        data.push(seg, (SegmentId(k), None));
    }
    data
}

fn fork() -> IntersectData {
    lines(&[((0., 0.), (10., 0.)), ((10., 0.), (20., 10.)), ((10., 0.), (20., -10.))])
}

fn bits(angles: &[f64]) -> Vec<u64> {
    angles.iter().map(|a| a.to_bits()).collect()
}

#[test]
fn step_after_takes_the_least_turn_of_the_candidates() {
    let data = fork();
    assert_eq!(step_after(&data, forth(0), &bits(&[1., 1., 1.])), Some(forth(1)));
    assert_eq!(step_after(&data, forth(0), &bits(&[0.1, 2., 1.])), Some(forth(2)));
    assert_eq!(step_after(&data, forth(0), &bits(&[1., -1., 3.])), Some(forth(2)));
    assert_eq!(step_after(&data, forth(0), &bits(&[1., -1., -2.])), Some(forth(2)));
    assert_eq!(step_after(&data, forth(0), &bits(&[1., -2., -1.])), Some(forth(1)));
    assert_eq!(step_after(&data, back(1), &bits(&[-0.5, 0.1, 3.])), Some(forth(2)));
    assert_eq!(step_after(&data, back(2), &bits(&[2., 2., 0.1])), Some(back(0)));
}

#[test]
fn step_after_finds_none_without_a_candidate_or_a_turn() {
    let data = fork();
    assert_eq!(step_after(&data, back(0), &bits(&[1., 1., 1.])), None);
    assert_eq!(step_after(&data, forth(1), &bits(&[1., 1., 1.])), None);
    assert_eq!(step_after(&data, forth(0), &bits(&[1., 0., 0.])), None);
    assert_eq!(step_after(&data, forth(0), &bits(&[1., 4., -4.])), None);
    assert_eq!(step_after(&data, forth(0), &bits(&[1., f64::NAN, 0.])), None);
}

#[test]
fn links_from_gives_each_step_its_least_turn() {
    let data = fork();
    let one = bits(&[1., 1., 1.]);
    let angles = vec![
        bits(&[0., 2., 1.]),
        one.clone(),
        one.clone(),
        bits(&[-1., 0., -2.]),
        one.clone(),
        bits(&[0., 3., 0.]),
    ];
    let table = links_from(&data, &angles);
    assert_eq!(table, vec![Some(forth(2)), None, None, Some(forth(2)), None, Some(forth(1))]);
    let none = bits(&[0., 0., 0.]);
    let table = links_from(&data, &vec![none; 6]);
    assert_eq!(table, vec![None; 6]);
}

#[test]
fn links_from_the_angles_of_a_triangle_close_two_regions() {
    let data = lines(&[((0., 0.), (40., 0.)), ((40., 0.), (0., 30.)), ((0., 30.), (0., 0.))]);
    let table = links_from(&data, &vec![bits(&[1., 1., 1.]); 6]);
    assert_eq!(
        table,
        vec![
            Some(forth(1)),
            Some(back(2)),
            Some(forth(2)),
            Some(back(0)),
            Some(forth(0)),
            Some(back(1)),
        ]
    );
    assert_eq!(table, links(&data));
    let regions = DynamicData::build_with(&data, &table);
    assert_eq!(regions.len(), 2);
    assert_eq!(regions.structure(0).len(), 3);
    assert_eq!(regions.structure(1).len(), 3);
    let open = DynamicData::build_with(&data, &links_from(&data, &vec![bits(&[0., 0., 0.]); 6]));
    assert_eq!(open.len(), 0);
}

#[test]
fn links_of_a_crossroads_turn_to_the_nearest_side() {
    let data = lines(&[
        ((0., 0.), (10., 0.)),
        ((10., 0.), (20., 0.)),
        ((10., 0.), (10., 10.)),
        ((10., 0.), (10., -10.)),
    ]);
    let table = links(&data);
    let after = table[0].unwrap();
    assert!(after == forth(2) || after == forth(3));
    let other = if after == forth(2) { forth(3) } else { forth(2) };
    assert_eq!(table[3], Some(other));
    assert_eq!(table[1], None);
}

#[test]
fn closed_path_ends_with_a_close() {
    let mut path = BezPath::new();
    assert!(closed(&path).is_none());
    path.move_to(Point::new(0., 0.));
    path.line_to(Point::new(10., 0.));
    path.line_to(Point::new(10., 10.));
    let shut = closed(&path).unwrap();
    assert_eq!(
        shut.elements().to_vec(),
        vec![
            PathEl::MoveTo(Point::new(0., 0.)),
            PathEl::LineTo(Point::new(10., 0.)),
            PathEl::LineTo(Point::new(10., 10.)),
            PathEl::ClosePath,
        ]
    );
    assert_eq!(path.elements().len(), 3);
}

#[test]
fn graph_links_from_angles_are_those_of_the_least_turn() {
    let mut mesh = MMesh::empty();
    let a = mesh.append_point(Point::new(0., 0.));
    let b = mesh.append_point(Point::new(10., 0.));
    let c = mesh.append_point(Point::new(20., 10.));
    let d = mesh.append_point(Point::new(20., -10.));
    mesh.append_segment(a, None, None, b).unwrap();
    mesh.append_segment(b, None, None, c).unwrap();
    mesh.append_segment(b, None, None, d).unwrap();
    assert_eq!(mesh.step_after(forth(0), &bits(&[1., 1., 1.])), Some(forth(1)));
    assert_eq!(mesh.step_after(forth(0), &bits(&[1., -1., 3.])), Some(forth(2)));
    assert_eq!(mesh.step_after(forth(0), &bits(&[1., 0., 4.])), None);
    assert_eq!(mesh.step_after(back(0), &bits(&[1., 1., 1.])), None);
    let one = bits(&[1., 1., 1.]);
    let angles = vec![
        bits(&[0., 2., 1.]),
        one.clone(),
        one.clone(),
        bits(&[-1., 0., -2.]),
        one.clone(),
        bits(&[0., 3., 0.]),
    ];
    let table = mesh.links_from(&angles);
    assert_eq!(table, vec![Some(forth(2)), None, None, Some(forth(2)), None, Some(forth(1))]);
}

#[test]
fn graph_links_of_two_joined_segments() {
    let mut mesh = MMesh::empty();
    let a = mesh.append_point(Point::new(0., 0.));
    let b = mesh.append_point(Point::new(10., 0.));
    let c = mesh.append_point(Point::new(20., 10.));
    mesh.append_segment(a, None, None, b).unwrap();
    mesh.append_segment(b, None, None, c).unwrap();
    assert_eq!(mesh.step_after(forth(0), &bits(&[1., 1.])), Some(forth(1)));
    assert_eq!(mesh.links()[0], Some(forth(1)));
    assert_eq!(mesh.links()[3], Some(back(0)));
}
