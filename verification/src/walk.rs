use vstd::prelude::*;
use crate::dynamic::Flow;

verus! {

/// One piece of a cut drawing, taken in one of its two ways.
#[derive(Clone, Copy, Debug, PartialEq, Eq, Structural)]
pub struct Step {
    pub index: usize,
    pub flow: Flow,
}

/// The place of a step in a table of links: two places for each piece, first
/// the one from start to end.
pub open spec fn slot_of(step: Step) -> int {
    2 * step.index + if step.flow == Flow::StartToEnd {
        0int
    } else {
        1int
    }
}

/// A table of links holds, for each step, the step that follows it on the
/// boundary of a region, where there is one.
pub open spec fn links_wf(links: Seq<Option<Step>>) -> bool {
    &&& links.len() % 2 == 0
    &&& forall|s: int|
        0 <= s < links.len() ==> ((#[trigger] links[s]) matches Some(next) ==> slot_of(next)
            < links.len())
}

/// A step of the drawing that the table `links` is about.
pub open spec fn step_in(links: Seq<Option<Step>>, step: Step) -> bool {
    slot_of(step) < links.len()
}

/// Where the walk from `start` stands after `k` links; `None` where it has come
/// to a step that nothing follows.
pub open spec fn walk(links: Seq<Option<Step>>, start: Step, k: int) -> Option<Step>
    decreases k,
{
    if k <= 0 {
        Some(start)
    } else {
        match walk(links, start, k - 1) {
            Some(at) => links[slot_of(at)],
            None => None,
        }
    }
}

/// The walk from `start` is back at `start` after `m` links, and not before.
pub open spec fn returns_after(links: Seq<Option<Step>>, start: Step, m: int) -> bool {
    &&& m >= 1
    &&& walk(links, start, m) == Some(start)
    &&& forall|j: int| 0 < j < m ==> walk(links, start, j) != Some(start)
}

/// The walk from `start` closes to the boundary of a region: it comes back to
/// `start` after two links or more, and after no more links than the table has
/// places.
pub open spec fn has_face(links: Seq<Option<Step>>, start: Step) -> bool {
    exists|m: int| 2 <= m <= links.len() && #[trigger] returns_after(links, start, m)
}

/// `face` is the boundary of a region: the steps of the walk from its first
/// step, up to the return to that step.
pub open spec fn is_face(links: Seq<Option<Step>>, face: Seq<Step>) -> bool {
    &&& 2 <= face.len() <= links.len()
    &&& returns_after(links, face[0], face.len() as int)
    &&& forall|i: int|
        0 <= i < face.len() ==> step_in(links, #[trigger] face[i]) && walk(links, face[0], i)
            == Some(face[i])
}

/// A walk that has met another walk goes on as that one does.
pub proof fn lemma_walk_joins(
    links: Seq<Option<Step>>,
    a: Step,
    i: int,
    b: Step,
    j: int,
    d: int,
)
    requires
        0 <= i,
        0 <= j,
        0 <= d,
        walk(links, a, i) == walk(links, b, j),
    ensures
        walk(links, a, i + d) == walk(links, b, j + d),
    decreases d,
{
    if d > 0 {
        lemma_walk_joins(links, a, i, b, j, d - 1);
    }
}

/// The walk along the boundary of a region goes round and round it.
pub proof fn lemma_face_periodic(links: Seq<Option<Step>>, face: Seq<Step>, t: int)
    requires
        is_face(links, face),
        0 <= t,
    ensures
        0 <= t % (face.len() as int) < face.len(),
        walk(links, face[0], t) == Some(face[t % (face.len() as int)]),
    decreases t,
{
    let m = face.len() as int;
    if t >= m {
        lemma_face_periodic(links, face, t - m);
        lemma_walk_joins(links, face[0], 0, face[0], m, t - m);
        assert((t - m) % m == t % m) by (nonlinear_arith)
            requires
                t >= m,
                m > 0,
        ;
    } else {
        assert(t % m == t) by (nonlinear_arith)
            requires
                0 <= t < m,
        ;
    }
}

/// No step stands twice on the boundary of a region.
pub proof fn lemma_face_simple(links: Seq<Option<Step>>, face: Seq<Step>, i: int, j: int)
    requires
        is_face(links, face),
        0 <= i < j < face.len(),
    ensures
        face[i] != face[j],
{
    if face[i] == face[j] {
        let m = face.len() as int;
        assert(walk(links, face[0], i) == walk(links, face[0], j));
        lemma_walk_joins(links, face[0], i, face[0], j, m - j);
        assert(walk(links, face[0], i + m - j) == Some(face[0]));
    }
}

/// The boundaries of two regions that share a step are the same cycle: the
/// first step of either stands on the other.
pub proof fn lemma_faces_share(
    links: Seq<Option<Step>>,
    face: Seq<Step>,
    other: Seq<Step>,
    i: int,
    j: int,
) -> (at: int)
    requires
        is_face(links, face),
        is_face(links, other),
        0 <= i < face.len(),
        0 <= j < other.len(),
        face[i] == other[j],
    ensures
        0 <= at < face.len(),
        face[at] == other[0],
{
    let m = other.len() as int;
    assert(walk(links, other[0], j) == walk(links, face[0], i));
    lemma_walk_joins(links, other[0], j, face[0], i, m - j);
    lemma_face_periodic(links, face, i + m - j);
    let at = (i + m - j) % (face.len() as int);
    at
}

/// The place of a step in a table of links.
pub fn slot(step: Step) -> (s: usize)
    requires
        step.index < usize::MAX / 2,
    ensures
        s == slot_of(step),
{
    match step.flow {
        Flow::StartToEnd => 2 * step.index,
        Flow::EndToStart => 2 * step.index + 1,
    }
}

/// Walks from `start` along the links. Where the walk comes back to `start`
/// after two links or more, its steps are the boundary of a region. Where it
/// ends at a step that nothing follows, comes back after one link, or has not
/// come back after as many links as the table has places, there is none.
pub fn trace(links: &Vec<Option<Step>>, start: Step) -> (face: Option<Vec<Step>>)
    requires
        links_wf(links@),
        step_in(links@, start),
    ensures
        match face {
            Some(steps) => is_face(links@, steps@) && steps@[0] == start,
            None => !has_face(links@, start),
        },
{
    let mut steps: Vec<Step> = Vec::new();
    steps.push(start);
    let mut at = start;
    loop
        invariant
            links_wf(links@),
            step_in(links@, start),
            1 <= steps.len() <= links.len(),
            steps@[0] == start,
            at == steps@[steps.len() - 1],
            step_in(links@, at),
            forall|i: int|
                0 <= i < steps.len() ==> walk(links@, start, i) == Some(#[trigger] steps@[i]),
            forall|i: int| 0 <= i < steps.len() ==> step_in(links@, #[trigger] steps@[i]),
            forall|j: int| 0 < j < steps.len() ==> walk(links@, start, j) != Some(start),
        decreases links.len() - steps.len(),
    {
        let ghost k = steps.len() as int;
        assert(walk(links@, start, k - 1) == Some(at));
        match links[slot(at)] {
            None => {
                proof {
                    assert(walk(links@, start, k).is_none());
                    assert forall|m: int| 2 <= m <= links.len() implies !returns_after(
                        links@,
                        start,
                        m,
                    ) by {
                        if m >= k {
                            lemma_walk_ends(links@, start, k, m - k);
                        }
                    }
                }
                return None;
            },
            Some(next) => {
                assert(walk(links@, start, k) == Some(next));
                if next == start {
                    if steps.len() >= 2 {
                        return Some(steps);
                    }
                    return None;
                }
                if steps.len() == links.len() {
                    return None;
                }
                steps.push(next);
                at = next;
            },
        }
    }
}

/// A walk that has ended stays ended.
pub proof fn lemma_walk_ends(links: Seq<Option<Step>>, start: Step, k: int, d: int)
    requires
        0 <= d,
        walk(links, start, k).is_none(),
    ensures
        walk(links, start, k + d).is_none(),
    decreases d,
{
    if d > 0 {
        lemma_walk_ends(links, start, k, d - 1);
    }
}

/// `step` is the `i`-th step of the `f`-th of the boundaries.
pub open spec fn holds(faces: Seq<Vec<Step>>, f: int, i: int, step: Step) -> bool {
    0 <= f < faces.len() && 0 <= i < faces[f]@.len() && faces[f]@[i] == step
}

/// `step` stands on one of the boundaries.
pub open spec fn on_faces(faces: Seq<Vec<Step>>, step: Step) -> bool {
    exists|f: int, i: int| holds(faces, f, i, step)
}

/// No step stands twice on the boundaries, be it on one of them or on two.
pub open spec fn faces_distinct(faces: Seq<Vec<Step>>) -> bool {
    forall|f: int, i: int, g: int, j: int, step: Step|
        holds(faces, f, i, step) && holds(faces, g, j, step) ==> f == g && i == j
}

/// Each boundary begins with the step on it that has the least place in the
/// table of links, and the boundaries stand in the order of these steps.
pub open spec fn faces_in_order(faces: Seq<Vec<Step>>) -> bool {
    &&& forall|f: int, i: int|
        0 <= f < faces.len() && 0 < i < faces[f]@.len() ==> slot_of(faces[f]@[0]) < slot_of(
            #[trigger] faces[f]@[i],
        )
    &&& forall|f: int, g: int|
        0 <= f < g < faces.len() ==> slot_of((#[trigger] faces[f])@[0]) < slot_of(
            (#[trigger] faces[g])@[0],
        )
}

/// Each of `faces` is the boundary of a region.
pub open spec fn all_faces(links: Seq<Option<Step>>, faces: Seq<Vec<Step>>) -> bool {
    forall|f: int| 0 <= f < faces.len() ==> is_face(links, (#[trigger] faces[f])@)
}

/// The `i`-th step of `face` has the place `x` in a table of links.
pub open spec fn takes(face: Seq<Step>, i: int, x: int) -> bool {
    slot_of(face[i]) == x
}

/// One of the first `k` steps of `face` has the place `x` in a table of links.
pub open spec fn among(face: Seq<Step>, k: int, x: int) -> bool {
    exists|i: int| 0 <= i < k && #[trigger] takes(face, i, x)
}

/// The step at a place of a table of links.
pub open spec fn step_at(s: int) -> Step {
    Step {
        index: (s / 2) as usize,
        flow: if s % 2 == 0 {
            Flow::StartToEnd
        } else {
            Flow::EndToStart
        },
    }
}

/// The walk from any step of the boundary of a region closes to that boundary.
pub proof fn lemma_face_from_any_step(links: Seq<Option<Step>>, face: Seq<Step>, i: int)
    requires
        is_face(links, face),
        0 <= i < face.len(),
    ensures
        has_face(links, face[i]),
{
    let m = face.len() as int;
    assert forall|t: int| 0 <= t <= m implies walk(links, face[i], t) == Some(
        face[(i + t) % m],
    ) by {
        lemma_walk_joins(links, face[i], 0, face[0], i, t);
        lemma_face_periodic(links, face, i + t);
    }
    assert((i + m) % m == i) by (nonlinear_arith)
        requires
            0 <= i < m,
    ;
    assert forall|t: int| 0 < t < m implies walk(links, face[i], t) != Some(face[i]) by {
        let at = (i + t) % m;
        assert(walk(links, face[i], t) == Some(face[at]));
        assert(0 <= at < m && at != i) by (nonlinear_arith)
            requires
                0 <= i < m,
                0 < t < m,
                at == (i + t) % m,
        ;
        if at < i {
            lemma_face_simple(links, face, at, i);
        } else {
            lemma_face_simple(links, face, i, at);
        }
    }
    assert(returns_after(links, face[i], m));
}

/// The step along the piece at `i` from its start to its end.
pub open spec fn forth(i: int) -> Step {
    Step { index: i as usize, flow: Flow::StartToEnd }
}

/// The step along the piece at `i` from its end to its start.
pub open spec fn back(i: int) -> Step {
    Step { index: i as usize, flow: Flow::EndToStart }
}

/// The place `k` places behind `i` on a ring of `n` places, for `k` up to `n`.
pub open spec fn ring_ahead(i: int, k: int, n: int) -> int {
    if i + k < n {
        i + k
    } else {
        i + k - n
    }
}

/// The place `k` places before `i` on a ring of `n` places, for `k` up to `n`.
pub open spec fn ring_behind(i: int, k: int, n: int) -> int {
    if i - k >= 0 {
        i - k
    } else {
        i - k + n
    }
}

/// The links of a ring of `n` pieces, each of which ends where the next starts,
/// and the last where the first starts: forth, each piece is followed by the
/// next, and back, by the one before it.
pub open spec fn is_ring(links: Seq<Option<Step>>, n: int) -> bool {
    &&& 2 <= n
    &&& links.len() == 2 * n
    &&& 2 * n <= usize::MAX
    &&& forall|i: int| 0 <= i < n ==> #[trigger] link_forth(links, i) == Some(forth(ring_ahead(i, 1, n)))
    &&& forall|i: int| 0 <= i < n ==> #[trigger] link_back(links, i) == Some(back(ring_behind(i, 1, n)))
}

/// What follows the step forth along the piece at `i`.
pub open spec fn link_forth(links: Seq<Option<Step>>, i: int) -> Option<Step> {
    links[slot_of(forth(i))]
}

/// What follows the step back along the piece at `i`.
pub open spec fn link_back(links: Seq<Option<Step>>, i: int) -> Option<Step> {
    links[slot_of(back(i))]
}

/// On a ring, the walk forth from a piece passes the pieces in their order.
pub proof fn lemma_ring_walk_forth(links: Seq<Option<Step>>, n: int, i: int, k: int)
    requires
        is_ring(links, n),
        0 <= i < n,
        0 <= k <= n,
    ensures
        walk(links, forth(i), k) == Some(forth(ring_ahead(i, k, n))),
    decreases k,
{
    if k > 0 {
        lemma_ring_walk_forth(links, n, i, k - 1);
        let at = ring_ahead(i, k - 1, n);
        assert(link_forth(links, at) == Some(forth(ring_ahead(at, 1, n))));
    }
}

/// On a ring, the walk back from a piece passes the pieces against their order.
pub proof fn lemma_ring_walk_back(links: Seq<Option<Step>>, n: int, i: int, k: int)
    requires
        is_ring(links, n),
        0 <= i < n,
        0 <= k <= n,
    ensures
        walk(links, back(i), k) == Some(back(ring_behind(i, k, n))),
    decreases k,
{
    if k > 0 {
        lemma_ring_walk_back(links, n, i, k - 1);
        let at = ring_behind(i, k - 1, n);
        assert(link_back(links, at) == Some(back(ring_behind(at, 1, n))));
    }
}

/// The step at `p` of a boundary runs along the piece at `j`, the way that the
/// first step of the boundary runs.
pub open spec fn passes(face: Seq<Step>, p: int, j: int) -> bool {
    face[p] == (Step { index: j as usize, flow: face[0].flow })
}

/// One of the first `n` steps of a boundary runs along the piece at `j`.
pub open spec fn passed(face: Seq<Step>, n: int, j: int) -> bool {
    exists|p: int| 0 <= p < n && #[trigger] passes(face, p, j)
}

/// On a ring of `n` pieces, the boundary of a region has `n` steps, all of them
/// the same way as its first, and every piece is passed by one of them.
pub proof fn lemma_ring_face(links: Seq<Option<Step>>, n: int, face: Seq<Step>)
    requires
        is_ring(links, n),
        is_face(links, face),
    ensures
        face.len() == n,
        forall|p: int| 0 <= p < n ==> (#[trigger] face[p]).flow == face[0].flow,
        forall|j: int| 0 <= j < n ==> #[trigger] passed(face, n, j),
{
    let first = face[0];
    let a = first.index as int;
    let m = face.len() as int;
    assert(step_in(links, first));
    assert(0 <= a < n);
    if first.flow == Flow::StartToEnd {
        assert(first == forth(a));
        lemma_ring_walk_forth(links, n, a, n);
        if m < n {
            lemma_ring_walk_forth(links, n, a, m);
            assert(forth(ring_ahead(a, m, n)) == forth(a));
        }
        assert(m == n);
        assert forall|p: int| 0 <= p < n implies (#[trigger] face[p]).flow == first.flow by {
            lemma_ring_walk_forth(links, n, a, p);
        }
        assert forall|j: int| 0 <= j < n implies #[trigger] passed(face, n, j) by {
            let p = if j >= a {
                j - a
            } else {
                j - a + n
            };
            lemma_ring_walk_forth(links, n, a, p);
            assert(face[p] == forth(j));
            assert(passes(face, p, j));
        }
    } else {
        assert(first == back(a));
        lemma_ring_walk_back(links, n, a, n);
        if m < n {
            lemma_ring_walk_back(links, n, a, m);
            assert(back(ring_behind(a, m, n)) == back(a));
        }
        assert(m == n);
        assert forall|p: int| 0 <= p < n implies (#[trigger] face[p]).flow == first.flow by {
            lemma_ring_walk_back(links, n, a, p);
        }
        assert forall|j: int| 0 <= j < n implies #[trigger] passed(face, n, j) by {
            let p = if a >= j {
                a - j
            } else {
                a - j + n
            };
            lemma_ring_walk_back(links, n, a, p);
            assert(face[p] == back(j));
            assert(passes(face, p, j));
        }
    }
}

/// `h` is one of `f` and `g`.
pub open spec fn is_either(h: int, f: int, g: int) -> bool {
    h == f || h == g
}

/// A ring of pieces bounds two regions: the one round which the pieces run
/// forth, and the one round which they run back.
pub proof fn lemma_ring_has_two_faces(links: Seq<Option<Step>>, n: int, faces: Seq<Vec<Step>>)
    requires
        is_ring(links, n),
        all_faces(links, faces),
        faces_distinct(faces),
        forall|step: Step| step_in(links, step) && #[trigger] has_face(links, step) ==> on_faces(
            faces,
            step,
        ),
    ensures
        faces.len() == 2,
{
    lemma_ring_walk_forth(links, n, 0, n);
    assert forall|k: int| 0 < k < n implies walk(links, forth(0), k) != Some(forth(0)) by {
        lemma_ring_walk_forth(links, n, 0, k);
    }
    assert(returns_after(links, forth(0), n));
    assert(has_face(links, forth(0)));
    lemma_ring_walk_back(links, n, 0, n);
    assert forall|k: int| 0 < k < n implies walk(links, back(0), k) != Some(back(0)) by {
        lemma_ring_walk_back(links, n, 0, k);
    }
    assert(returns_after(links, back(0), n));
    assert(has_face(links, back(0)));
    let (f, fp) = choose|f: int, p: int| holds(faces, f, p, forth(0));
    let (g, gp) = choose|g: int, p: int| holds(faces, g, p, back(0));
    lemma_ring_face(links, n, faces[f]@);
    lemma_ring_face(links, n, faces[g]@);
    assert(faces[f]@[fp].flow == faces[f]@[0].flow);
    assert(faces[g]@[gp].flow == faces[g]@[0].flow);
    assert(f != g);
    assert forall|h: int| 0 <= h < faces.len() implies #[trigger] is_either(h, f, g) by {
        lemma_ring_face(links, n, faces[h]@);
        let first = faces[h]@[0];
        assert(step_in(links, first));
        let j = first.index as int;
        if first.flow == Flow::StartToEnd {
            assert(passed(faces[f]@, n, j));
            let p = choose|p: int| 0 <= p < n && passes(faces[f]@, p, j);
            assert(holds(faces, f, p, first));
            assert(holds(faces, h, 0, first));
        } else {
            assert(passed(faces[g]@, n, j));
            let p = choose|p: int| 0 <= p < n && passes(faces[g]@, p, j);
            assert(holds(faces, g, p, first));
            assert(holds(faces, h, 0, first));
        }
    }
    if faces.len() > 2 {
        assert(is_either(0, f, g));
        assert(is_either(1, f, g));
        assert(is_either(2, f, g));
    }
}

/// The boundary round which the pieces of a ring of `n` pieces run forth, from
/// the first piece on.
pub open spec fn ring_forth(n: int) -> Seq<Step> {
    Seq::new(n as nat, |k: int| forth(k))
}

/// The boundary round which the pieces of a ring of `n` pieces run back: the
/// first piece, then the last, and so on to the second.
pub open spec fn ring_back(n: int) -> Seq<Step> {
    Seq::new(n as nat, |k: int| back(ring_behind(0, k, n)))
}

/// The boundaries of a ring of `n` pieces, as they are traced, are the one
/// round which the pieces run forth, and then the one round which they run
/// back.
pub proof fn lemma_ring_faces(links: Seq<Option<Step>>, n: int, faces: Seq<Vec<Step>>)
    requires
        is_ring(links, n),
        all_faces(links, faces),
        faces_distinct(faces),
        faces_in_order(faces),
        forall|step: Step| step_in(links, step) && #[trigger] has_face(links, step) ==> on_faces(
            faces,
            step,
        ),
    ensures
        faces.len() == 2,
        faces[0]@ == ring_forth(n),
        faces[1]@ == ring_back(n),
{
    lemma_ring_has_two_faces(links, n, faces);
    lemma_ring_face(links, n, faces[0]@);
    lemma_ring_face(links, n, faces[1]@);
    lemma_ring_walk_forth(links, n, 0, n);
    assert forall|k: int| 0 < k < n implies walk(links, forth(0), k) != Some(forth(0)) by {
        lemma_ring_walk_forth(links, n, 0, k);
    }
    assert(returns_after(links, forth(0), n));
    assert(has_face(links, forth(0)));
    lemma_ring_walk_back(links, n, 0, n);
    assert forall|k: int| 0 < k < n implies walk(links, back(0), k) != Some(back(0)) by {
        lemma_ring_walk_back(links, n, 0, k);
    }
    assert(returns_after(links, back(0), n));
    assert(has_face(links, back(0)));
    let (f, fp) = choose|f: int, p: int| holds(faces, f, p, forth(0));
    let (g, gp) = choose|g: int, p: int| holds(faces, g, p, back(0));
    assert(slot_of(forth(0)) == 0);
    assert(slot_of(back(0)) == 1);
    if fp > 0 {
        assert(slot_of(faces[f]@[0]) < slot_of(faces[f]@[fp]));
    }
    assert(fp == 0);
    if f == 1 {
        assert(slot_of(faces[0]@[0]) < slot_of(faces[1]@[0]));
    }
    assert(f == 0);
    assert(faces[g]@[gp].flow == faces[g]@[0].flow);
    assert(g == 1);
    if gp > 0 {
        assert(slot_of(faces[1]@[0]) < slot_of(faces[1]@[gp]));
        assert(faces[1]@[0] == forth(0));
    }
    assert(gp == 0);
    assert forall|k: int| 0 <= k < n implies faces[0]@[k] == #[trigger] ring_forth(n)[k] by {
        lemma_ring_walk_forth(links, n, 0, k);
    }
    assert forall|k: int| 0 <= k < n implies faces[1]@[k] == #[trigger] ring_back(n)[k] by {
        lemma_ring_walk_back(links, n, 0, k);
    }
    assert(faces[0]@ =~= ring_forth(n));
    assert(faces[1]@ =~= ring_back(n));
}

/// The boundaries of all regions that the links close, each found once: the
/// steps are tried in the order of their places, and a step that stands on a
/// boundary found before is not tried again.
pub fn trace_faces(links: &Vec<Option<Step>>) -> (faces: Vec<Vec<Step>>)
    requires
        links_wf(links@),
    ensures
        all_faces(links@, faces@),
        faces_distinct(faces@),
        faces_in_order(faces@),
        forall|step: Step|
            step_in(links@, step) && #[trigger] has_face(links@, step) ==> on_faces(faces@, step),
{
    let total = links.len();
    let mut visited: Vec<bool> = Vec::new();
    let mut c: usize = 0;
    while c < total
        invariant
            c <= total,
            visited.len() == c,
            forall|s: int| 0 <= s < c ==> !visited@[s],
        decreases total - c,
    {
        visited.push(false);
        c += 1;
    }
    let mut faces: Vec<Vec<Step>> = Vec::new();
    let mut s: usize = 0;
    while s < total
        invariant
            links_wf(links@),
            total == links.len(),
            visited.len() == total,
            s <= total,
            all_faces(links@, faces@),
            faces_distinct(faces@),
            faces_in_order(faces@),
            forall|f: int| 0 <= f < faces@.len() ==> slot_of((#[trigger] faces@[f])@[0]) < s,
            forall|x: int| 0 <= x < total ==> (visited@[x] <==> on_faces(faces@, #[trigger] step_at(x))),
            forall|x: int|
                0 <= x < s && has_face(links@, #[trigger] step_at(x)) ==> on_faces(
                    faces@,
                    step_at(x),
                ),
        decreases total - s,
    {
        let start = Step {
            index: s / 2,
            flow: if s % 2 == 0 {
                Flow::StartToEnd
            } else {
                Flow::EndToStart
            },
        };
        assert(start == step_at(s as int));
        assert(slot_of(start) == s);
        if !visited[s] {
            match trace(links, start) {
                Some(face) => {
                    let ghost before = faces@;
                    let ghost seen = visited@;
                    proof {
                        assert forall|f: int, i: int, j: int|
                            0 <= f < before.len() && 0 <= i < before[f]@.len() && 0 <= j
                                < face@.len() implies #[trigger] before[f]@[i] != #[trigger] face@[j] by {
                            if before[f]@[i] == face@[j] {
                                let at = lemma_faces_share(links@, before[f]@, face@, i, j);
                                assert(holds(before, f, at, start));
                            }
                        }
                        assert forall|i: int, j: int| 0 <= i < j < face@.len() implies face@[i]
                            != face@[j] by {
                            lemma_face_simple(links@, face@, i, j);
                        }
                        assert forall|j: int| 0 < j < face@.len() implies s < slot_of(
                            #[trigger] face@[j],
                        ) by {
                            let step = face@[j];
                            let x = slot_of(step);
                            assert(step_in(links@, step));
                            assert(step_at(x) == step);
                            lemma_face_simple(links@, face@, 0, j);
                            if x < s {
                                lemma_face_from_any_step(links@, face@, j);
                                assert(on_faces(before, step_at(x)));
                                let (f, i) = choose|f: int, i: int| holds(before, f, i, step);
                                assert(before[f]@[i] == face@[j]);
                            }
                        }
                    }
                    let mut k: usize = 0;
                    while k < face.len()
                        invariant
                            links_wf(links@),
                            total == links.len(),
                            visited.len() == total,
                            k <= face.len(),
                            is_face(links@, face@),
                            seen.len() == total,
                            forall|x: int|
                                0 <= x < total ==> (#[trigger] visited@[x] <==> (seen[x]
                                    || among(face@, k as int, x))),
                        decreases face.len() - k,
                    {
                        let step = face[k];
                        assert(step_in(links@, step));
                        let at = slot(step);
                        let ghost marked = visited@;
                        visited.set(at, true);
                        proof {
                            assert forall|x: int| 0 <= x < total implies (#[trigger] visited@[x]
                                <==> (seen[x] || among(face@, k + 1, x))) by {
                                if x == at {
                                    assert(takes(face@, k as int, x));
                                } else {
                                    assert(visited@[x] == marked[x]);
                                    if among(face@, k + 1, x) {
                                        let i = choose|i: int|
                                            0 <= i < k + 1 && takes(face@, i, x);
                                        assert(0 <= i < k && takes(face@, i, x));
                                    }
                                    if among(face@, k as int, x) {
                                        let i = choose|i: int| 0 <= i < k && takes(face@, i, x);
                                        assert(0 <= i < k + 1 && takes(face@, i, x));
                                    }
                                }
                            }
                        }
                        k += 1;
                    }
                    faces.push(face);
                    proof {
                        let after = faces@;
                        let last = before.len() as int;
                        assert forall|f: int, i: int, step: Step| holds(after, f, i, step) implies (
                        holds(before, f, i, step) || (f == last && 0 <= i < face@.len()
                            && face@[i] == step)) by {
                            if f < last {
                                assert(after[f] == before[f]);
                            }
                        }
                        assert forall|f: int, i: int, step: Step| holds(before, f, i, step) implies holds(
                            after,
                            f,
                            i,
                            step,
                        ) by {
                            assert(after[f] == before[f]);
                        }
                        assert forall|f: int| 0 <= f < after.len() implies is_face(
                            links@,
                            (#[trigger] after[f])@,
                        ) by {
                            if f < last {
                                assert(after[f] == before[f]);
                            }
                        }
                        assert forall|f: int, i: int, g: int, j: int, step: Step|
                            holds(after, f, i, step) && holds(after, g, j, step) implies f == g
                            && i == j by {
                            if f < last && g < last {
                                assert(holds(before, f, i, step) && holds(before, g, j, step));
                            }
                        }
                        assert forall|x: int| 0 <= x < total implies (visited@[x] <==> on_faces(
                            after,
                            #[trigger] step_at(x),
                        )) by {
                            let step = step_at(x);
                            assert(slot_of(step) == x);
                            if visited@[x] {
                                if seen[x] {
                                    let (f, i) = choose|f: int, i: int| holds(before, f, i, step);
                                    assert(holds(after, f, i, step));
                                } else {
                                    let i = choose|i: int|
                                        0 <= i < face@.len() && takes(face@, i, x);
                                    assert(face@[i] == step);
                                    assert(holds(after, last, i, step));
                                }
                            }
                            if on_faces(after, step) {
                                let (f, i) = choose|f: int, i: int| holds(after, f, i, step);
                                if f < last {
                                    assert(holds(before, f, i, step));
                                    assert(on_faces(before, step));
                                } else {
                                    assert(takes(face@, i, x));
                                }
                            }
                        }
                        assert forall|x: int|
                            0 <= x < s + 1 && has_face(links@, #[trigger] step_at(x)) implies on_faces(
                            after,
                            step_at(x),
                        ) by {
                            if x < s {
                                let (f, i) = choose|f: int, i: int|
                                    holds(before, f, i, step_at(x));
                                assert(holds(after, f, i, step_at(x)));
                            } else {
                                assert(holds(after, last, 0, start));
                            }
                        }
                        assert forall|f: int, i: int|
                            0 <= f < after.len() && 0 < i < after[f]@.len() implies slot_of(
                            after[f]@[0],
                        ) < slot_of(#[trigger] after[f]@[i]) by {
                            if f < last {
                                assert(after[f] == before[f]);
                            }
                        }
                        assert forall|f: int| 0 <= f < after.len() implies slot_of(
                            (#[trigger] after[f])@[0],
                        ) < s + 1 by {
                            if f < last {
                                assert(after[f] == before[f]);
                            }
                        }
                        assert forall|f: int, g: int| 0 <= f < g < after.len() implies slot_of(
                            (#[trigger] after[f])@[0],
                        ) < slot_of((#[trigger] after[g])@[0]) by {
                            assert(after[f] == before[f]);
                            if g < last {
                                assert(after[g] == before[g]);
                            }
                        }
                    }
                },
                None => {},
            }
        }
        s += 1;
    }
    proof {
        assert forall|step: Step|
            step_in(links@, step) && #[trigger] has_face(links@, step) implies on_faces(
            faces@,
            step,
        ) by {
            assert(step_at(slot_of(step)) == step);
        }
    }
    faces
}

} // verus!
