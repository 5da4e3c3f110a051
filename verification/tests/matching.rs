use mesh::dynamic::{DynamicRegionStructure, Flow, Part};
use mesh::mesh::SegmentId;

fn structure(edges: &[(usize, Option<Part>, Flow)]) -> DynamicRegionStructure {
    let mut s = DynamicRegionStructure::new();
    for e in edges {
        s.push((SegmentId(e.0), e.1), e.2);
    }
    s
}

const F: Flow = Flow::StartToEnd;
const B: Flow = Flow::EndToStart;

#[test]
fn boundary_matches_itself_from_any_edge() {
    let a = structure(&[(1, None, F), (2, None, B), (3, Some(Part::First), F), (4, None, F)]);
    let same = structure(&[(1, None, F), (2, None, B), (3, Some(Part::First), F), (4, None, F)]);
    let one = structure(&[(2, None, B), (3, Some(Part::First), F), (4, None, F), (1, None, F)]);
    let three = structure(&[(4, None, F), (1, None, F), (2, None, B), (3, Some(Part::First), F)]);
    assert!(a.match_structure(&same));
    assert!(a.match_structure(&one));
    assert!(one.match_structure(&a));
    assert!(a.match_structure(&three));
    assert!(three.match_structure(&one));
}

#[test]
fn boundary_does_not_match_another_order() {
    let a = structure(&[(1, None, F), (2, None, F), (3, None, F), (4, None, F)]);
    let swapped = structure(&[(1, None, F), (3, None, F), (2, None, F), (4, None, F)]);
    assert!(!a.match_structure(&swapped));
    assert!(!swapped.match_structure(&a));
}

#[test]
fn boundary_on_other_segments_never_matches() {
    let a = structure(&[(1, None, F), (2, None, F), (3, None, F)]);
    let b = structure(&[(1, None, F), (2, None, F), (7, None, F)]);
    assert!(!a.match_structure(&b));
    assert!(!b.match_structure(&a));
}

#[test]
fn flow_and_part_belong_to_the_edge() {
    let a = structure(&[(1, None, F), (2, None, F)]);
    let other_flow = structure(&[(1, None, F), (2, None, B)]);
    let other_part = structure(&[(1, None, F), (2, Some(Part::Second), F)]);
    assert!(!a.match_structure(&other_flow));
    assert!(!a.match_structure(&other_part));
}

#[test]
fn longer_or_shorter_boundary_does_not_match() {
    let a = structure(&[(1, None, F), (2, None, F)]);
    let longer = structure(&[(1, None, F), (2, None, F), (1, None, F)]);
    assert!(!a.match_structure(&longer));
    assert!(!longer.match_structure(&a));
}

#[test]
fn edge_that_stands_twice_is_matched_twice() {
    let a = structure(&[(1, None, F), (1, None, F), (2, None, F)]);
    let b = structure(&[(1, None, F), (2, None, F), (1, None, F)]);
    let c = structure(&[(1, None, F), (2, None, F), (2, None, F)]);
    assert!(a.match_structure(&b));
    assert!(!a.match_structure(&c));
}

#[test]
fn empty_boundary_matches_nothing() {
    let empty = structure(&[]);
    let other = structure(&[]);
    let a = structure(&[(1, None, F), (2, None, F)]);
    assert!(!empty.match_structure(&other));
    assert!(!empty.match_structure(&a));
    assert!(!a.match_structure(&empty));
}

#[test]
fn copy_has_the_same_edges() {
    let a = structure(&[(1, None, F), (2, Some(Part::First), B)]);
    let b = a.copy();
    assert_eq!(b.len(), 2);
    assert_eq!(b.edge(1), a.edge(1));
    assert!(a.match_structure(&b));
}
