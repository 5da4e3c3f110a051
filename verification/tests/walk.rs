use mesh::dynamic::{choose_next, turn_key, Flow, Turn, HALF_TURN};
use mesh::walk::{slot, trace, trace_faces, Step};

fn forth(index: usize) -> Step {
    Step { index, flow: Flow::StartToEnd }
}

fn back(index: usize) -> Step {
    Step { index, flow: Flow::EndToStart }
}

#[test]
fn slot_of_a_step() {
    assert_eq!(slot(forth(0)), 0);
    assert_eq!(slot(back(0)), 1);
    assert_eq!(slot(forth(3)), 6);
    assert_eq!(slot(back(3)), 7);
}

#[test]
fn trace_follows_the_links_round() {
    // triangle 0 -> 1 -> 2 -> 0 forth, and back the other way
    let links = vec![
        Some(forth(1)),
        Some(back(2)),
        Some(forth(2)),
        Some(back(0)),
        Some(forth(0)),
        Some(back(1)),
    ];
    assert_eq!(trace(&links, forth(1)), Some(vec![forth(1), forth(2), forth(0)]));
    assert_eq!(trace(&links, back(0)), Some(vec![back(0), back(2), back(1)]));
    let faces = trace_faces(&links);
    assert_eq!(
        faces,
        vec![vec![forth(0), forth(1), forth(2)], vec![back(0), back(2), back(1)]]
    );
}

#[test]
fn trace_gives_up_on_open_and_stray_walks() {
    // 0 forth leads into the cycle 1 <-> 2, which never comes back to it
    let links = vec![Some(forth(1)), None, Some(forth(2)), None, Some(forth(1)), Some(back(2))];
    assert_eq!(trace(&links, forth(0)), None);
    assert_eq!(trace(&links, back(0)), None);
    assert_eq!(trace(&links, forth(1)), Some(vec![forth(1), forth(2)]));
    // a step that follows itself closes after one link: no face
    assert_eq!(trace(&links, back(2)), None);
    assert_eq!(trace_faces(&links), vec![vec![forth(1), forth(2)]]);
}

#[test]
fn turn_rank_orders_the_angles() {
    let quarter = std::f64::consts::FRAC_PI_2.to_bits();
    let minus_quarter = (-std::f64::consts::FRAC_PI_2).to_bits();
    let half = std::f64::consts::PI.to_bits();
    let minus_half = (-std::f64::consts::PI).to_bits();
    assert_eq!(half, HALF_TURN);
    assert_eq!(turn_key(quarter), Some(quarter));
    assert_eq!(turn_key(half), Some(half));
    assert_eq!(turn_key(minus_half), Some(half + 1));
    assert_eq!(turn_key(minus_quarter), Some(2 * half + 1 - quarter));
    assert_eq!(turn_key(0.0f64.to_bits()), None);
    assert_eq!(turn_key((-0.0f64).to_bits()), None);
    assert_eq!(turn_key(4.0f64.to_bits()), None);
    assert_eq!(turn_key(f64::NAN.to_bits()), None);
    let small = turn_key(0.1f64.to_bits()).unwrap();
    let large = turn_key(3.0f64.to_bits()).unwrap();
    let past_half = turn_key((-3.0f64).to_bits()).unwrap();
    let nearly_whole = turn_key((-0.1f64).to_bits()).unwrap();
    assert!(small < large && large < past_half && past_half < nearly_whole);
}

#[test]
fn choose_next_takes_the_first_least_turn() {
    assert_eq!(choose_next(&vec![]), None);
    let turns = vec![
        Turn { next: forth(4), rank: 30 },
        Turn { next: back(5), rank: 10 },
        Turn { next: forth(6), rank: 10 },
        Turn { next: forth(7), rank: 20 },
    ];
    assert_eq!(choose_next(&turns), Some(back(5)));
}
