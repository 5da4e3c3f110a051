use kurbo::{Line, ParamCurve, PathSeg, Point, QuadBez};
use mesh::algo::{
    cleanup_intersections, path_intersections, Param, ACCURACY, PARAM_ONE, UNIT_LENGTH,
};

fn line(a: (f64, f64), b: (f64, f64)) -> PathSeg {
    PathSeg::Line(Line::new(a, b))
}

fn value(p: &Param) -> f64 {
    p.ticks as f64 / PARAM_ONE as f64
}

fn at(t: f64) -> Param {
    Param { ticks: (t * PARAM_ONE as f64) as u64 }
}

#[test]
fn crossing_lines_meet_at_one_place() {
    let a = line((0., 0.), (100., 60.));
    let b = line((0., 40.), (100., 10.));
    let on_a = path_intersections(a, b);
    let on_b = path_intersections(b, a);
    assert!(!on_a.is_empty());
    assert!(!on_b.is_empty());
    let meet = Point::new(400. / 9., 240. / 9.);
    for p in &on_a {
        assert!(a.eval(value(p)).distance(meet) < 3e-6);
    }
    for p in &on_b {
        assert!(b.eval(value(p)).distance(meet) < 3e-6);
    }
    let cuts = cleanup_intersections(&on_a);
    assert_eq!(cuts.len(), 3);
    assert_eq!(cuts[0].ticks, 0);
    assert!((value(&cuts[1]) - 4. / 9.).abs() < 1e-7);
    assert_eq!(cuts[2].ticks, PARAM_ONE);
}

#[test]
fn lines_apart_do_not_meet() {
    let a = line((0., 0.), (100., 0.));
    let b = line((0., 10.), (100., 10.));
    assert!(path_intersections(a, b).is_empty());
}

#[test]
fn joined_segments_do_not_cross() {
    let a = line((0., 0.), (100., 0.));
    let b = line((100., 0.), (100., 100.));
    let c = PathSeg::Quad(QuadBez::new((100., 100.), (50., 150.), (0., 0.)));
    assert!(path_intersections(a, b).is_empty());
    assert!(path_intersections(b, a).is_empty());
    assert!(path_intersections(b, c).is_empty());
    assert!(path_intersections(c, a).is_empty());
    assert!(path_intersections(a, c).is_empty());
}

#[test]
fn curve_and_line_meet_twice() {
    let curve = PathSeg::Quad(QuadBez::new((0., 0.), (50., 100.), (100., 0.)));
    let chord = line((-10., 30.), (110., 30.));
    let found = path_intersections(curve, chord);
    let cuts = cleanup_intersections(&found);
    assert_eq!(cuts.len(), 4);
    for p in &found {
        assert!((curve.eval(value(p)).y - 30.).abs() < 3e-6);
    }
    assert!(value(&cuts[1]) < 0.5 && value(&cuts[2]) > 0.5);
}

#[test]
fn cleanup_sorts_and_drops_what_lies_close() {
    let found = vec![at(0.5), at(0.25), at(0.505), at(0.2501), at(0.75)];
    let cuts = cleanup_intersections(&found);
    let ticks: Vec<u64> = cuts.iter().map(|p| p.ticks).collect();
    assert_eq!(ticks, vec![0, at(0.25).ticks, at(0.5).ticks, at(0.75).ticks, PARAM_ONE]);
}

#[test]
fn cleanup_of_nothing_is_the_two_ends() {
    let cuts = cleanup_intersections(&vec![]);
    assert_eq!(cuts, vec![Param { ticks: 0 }, Param { ticks: PARAM_ONE }]);
    assert_eq!(Param::zero().ticks, 0);
    assert_eq!(Param::one().ticks, PARAM_ONE);
}

#[test]
fn cleanup_keeps_the_start_and_may_drop_the_end() {
    let cuts = cleanup_intersections(&vec![at(0.005), at(0.995)]);
    let ticks: Vec<u64> = cuts.iter().map(|p| p.ticks).collect();
    assert_eq!(ticks, vec![0, at(0.995).ticks]);
}

#[test]
fn gap_of_a_hundredth_is_not_enough() {
    let hundredth = PARAM_ONE / 100;
    let cuts = cleanup_intersections(&vec![Param { ticks: hundredth }]);
    assert_eq!(cuts.len(), 2);
    let cuts = cleanup_intersections(&vec![Param { ticks: hundredth + 1 }]);
    assert_eq!(cuts.len(), 3);
}

#[test]
fn patterns_of_the_constants() {
    assert_eq!(UNIT_LENGTH, 1.0f64.to_bits());
    assert_eq!(ACCURACY, kurbo::DEFAULT_ACCURACY.to_bits());
    assert_eq!(PARAM_ONE, 1u64 << 53);
    assert_eq!(mesh::MIN_SEPARATION, 1.5f64.to_bits());
    assert_eq!(mesh::mesh::planar::WELD_DISTANCE, 3.0f64.to_bits());
    assert_eq!(mesh::mesh::DEFAULT_RADIUS, 5.0f64.to_bits());
    assert_eq!(mesh::WIDTH, 900);
    assert_eq!(mesh::HEIGHT, 600);
}

#[test]
fn place_of_a_parameter_is_its_number() {
    assert_eq!(Param::zero().place(), Point::new(0., 0.));
    assert_eq!(Param::one().place(), Point::new(1., 0.));
    assert_eq!(Param { ticks: PARAM_ONE / 2 }.place(), Point::new(0.5, 0.));
    assert_eq!(Param { ticks: 3 * (PARAM_ONE / 8) }.place(), Point::new(0.375, 0.));
    assert_eq!(Param { ticks: 1 }.place(), Point::new(1. / PARAM_ONE as f64, 0.));
    assert_eq!(Param { ticks: PARAM_ONE - 1 }.place(), Point::new(1. - 1. / PARAM_ONE as f64, 0.));
    assert_eq!(at(0.98).place(), Point::new(value(&at(0.98)), 0.));
    assert_eq!(Param { ticks: PARAM_ONE + 5 }.place(), Point::new(1., 0.));
}

#[test]
fn small_segment_in_the_box_of_a_long_one_does_not_meet_it() {
    let a = line((90., 10.), (90.0000001, 10.0000001));
    let b = line((0., 0.), (100., 100.));
    assert!(path_intersections(a, b).is_empty());
    assert!(path_intersections(b, a).is_empty());
}

#[test]
fn short_line_across_a_long_one_meets_it_in_the_middle() {
    let a = line((49., 51.), (51., 49.));
    let b = line((0., 0.), (1000., 1000.));
    let found = path_intersections(a, b);
    assert!(!found.is_empty());
    for p in &found {
        assert!((value(p) - 0.5).abs() < 1e-6);
    }
    let found = path_intersections(b, a);
    assert!(!found.is_empty());
    for p in &found {
        assert!((value(p) - 0.05).abs() < 1e-6);
    }
}
