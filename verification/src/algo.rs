use vstd::prelude::*;
use vstd::seq_lib::*;
use kurbo::{PathSeg, Point};
use crate::util::{
    bounding_box, box_height, box_width, boxes_overlap, control_points, default_accuracy, distance,
    end_point, height, middle, midpoint, overlaps, part_between, point_at, point_distance,
    segment_box, start_point, subsegment, whole_point, width,
};

verus! {

/// The parameter 1, in steps: a parameter is counted in steps of 2^-53, so that
/// every middle of a window that the search looks at is a whole number of steps,
/// and every parameter is a number that binary64 holds exactly.
pub const PARAM_ONE: u64 = 0x20_0000_0000_0000;

/// The length 1, as a binary64 pattern. Of two lengths that are not negative,
/// the one with the smaller pattern is the shorter.
pub const UNIT_LENGTH: u64 = 0x3FF0_0000_0000_0000;

/// A place on a segment: the parameter `ticks / PARAM_ONE`, from 0 at the start
/// of the segment to 1 at its end.
#[derive(Clone, Copy, Debug, PartialEq, Eq, Structural)]
pub struct Param {
    pub ticks: u64,
}

impl Param {
    /// The start of a segment.
    pub fn zero() -> (p: Param)
        ensures
            p.ticks == 0,
    {
        Param { ticks: 0 }
    }

    /// The end of a segment.
    pub fn one() -> (p: Param)
        ensures
            p.ticks == PARAM_ONE,
    {
        Param { ticks: PARAM_ONE }
    }
}

/// The point of the stretch from `lo` to `hi` that stands for the parameter
/// `ticks`, where `lo` stands for `from` and `hi` for `from + width`: one of the
/// two, or the point found in that half of the stretch, to either side of its
/// middle, in which the parameter lies.
pub open spec fn located(lo: Point, hi: Point, from: int, width: int, ticks: int) -> Point
    decreases width,
{
    if ticks <= from {
        lo
    } else if ticks >= from + width {
        hi
    } else if width < 2 {
        lo
    } else if ticks < from + width / 2 {
        located(lo, midpoint(lo, hi), from, width / 2, ticks)
    } else {
        located(midpoint(lo, hi), hi, from + width / 2, width / 2, ticks)
    }
}

/// The parameter as kurbo takes it: the first coordinate of this point is the
/// number `ticks / PARAM_ONE`. The point lies on the stretch from the origin to
/// the point one unit to its right, and is reached from the two by halving; a
/// parameter beyond 1 counts as 1.
pub open spec fn param_place(ticks: int) -> Point {
    located(whole_point(0, 0), whole_point(1, 0), 0, PARAM_ONE as int, ticks)
}

impl Param {
    /// The parameter as kurbo takes it.
    pub fn place(self) -> (p: Point)
        ensures
            p == param_place(self.ticks as int),
    {
        let mut lo = point_at(0, 0);
        let mut hi = point_at(1, 0);
        let mut from: u64 = 0;
        let mut width: u64 = PARAM_ONE;
        while self.ticks > from && self.ticks < from + width && width >= 2
            invariant
                from + width <= PARAM_ONE,
                located(lo, hi, from as int, width as int, self.ticks as int) == param_place(
                    self.ticks as int,
                ),
            decreases width,
        {
            let mid = middle(lo, hi);
            let half = width / 2;
            if self.ticks < from + half {
                hi = mid;
            } else {
                lo = mid;
                from = from + half;
            }
            width = half;
        }
        if self.ticks <= from {
            lo
        } else if self.ticks >= from + width {
            hi
        } else {
            lo
        }
    }
}

/// Which ends of two segments lie less than one unit apart. Segments that are
/// joined at a point meet there, and that is no crossing.
#[derive(Clone, Copy, Debug)]
pub struct Joints {
    pub start_start: bool,
    pub start_end: bool,
    pub end_start: bool,
    pub end_end: bool,
}

/// The joints of two segments, from the distances of their ends.
pub open spec fn joints_of(a: PathSeg, b: PathSeg) -> Joints {
    Joints {
        start_start: distance(control_points(a).first(), control_points(b).first()) < UNIT_LENGTH,
        start_end: distance(control_points(a).first(), control_points(b).last()) < UNIT_LENGTH,
        end_start: distance(control_points(a).last(), control_points(b).first()) < UNIT_LENGTH,
        end_end: distance(control_points(a).last(), control_points(b).last()) < UNIT_LENGTH,
    }
}

/// The parameter, in steps, is less than a hundredth.
pub open spec fn near_start(ticks: int) -> bool {
    ticks * 100 < PARAM_ONE
}

/// The parameter, in steps, is more than ninety-nine hundredths.
pub open spec fn near_end(ticks: int) -> bool {
    ticks * 100 > 99 * PARAM_ONE
}

/// A meeting at the parameters `t1` and `t2` is the joint of two ends, not a
/// crossing.
pub open spec fn at_joint(near: Joints, t1: int, t2: int) -> bool {
    ||| near.start_start && near_start(t1) && near_start(t2)
    ||| near.start_end && near_start(t1) && near_end(t2)
    ||| near.end_start && near_end(t1) && near_start(t2)
    ||| near.end_end && near_end(t1) && near_end(t2)
}

/// A millionth, kurbo's default accuracy, as a binary64 pattern: two pieces
/// whose bounding boxes are less than this wide and high are searched no
/// further.
pub const ACCURACY: u64 = 0x3EB0_C6F7_A0B5_ED8D;

/// The bounding box of a piece is less than kurbo's default accuracy wide and
/// high.
pub open spec fn is_small(piece: PathSeg) -> bool {
    box_width(segment_box(piece)) < ACCURACY && box_height(segment_box(piece)) < ACCURACY
}

/// The piece of a segment from the parameter `lo` on, `w` steps long.
pub open spec fn window(seg: PathSeg, lo: int, w: int) -> PathSeg {
    part_between(seg, param_place(lo), param_place(lo + w))
}

/// The parameters on the segment `a` at which the search finds it to meet the
/// segment `b`, in the piece of `a` from `la` on and the piece of `b` from `lb`
/// on, both `w` steps long. Pieces whose bounding boxes do not overlap hold no
/// crossing. Where they overlap and both pieces are small, the start of the
/// piece of `a` is a crossing, unless the middles of the two pieces are a joint.
/// Else both pieces are halved and the four pairs of halves are searched, the
/// first half of `a` before its second. A piece of less than four steps is not
/// halved again and counts as small.
pub open spec fn crossings(a: PathSeg, la: int, b: PathSeg, lb: int, w: int, near: Joints) -> Seq<
    Param,
>
    decreases w,
{
    if w < 2 || !boxes_overlap(segment_box(window(a, la, w)), segment_box(window(b, lb, w))) {
        Seq::empty()
    } else if (is_small(window(a, la, w)) && is_small(window(b, lb, w))) || w < 4 {
        if at_joint(near, la + w / 2, lb + w / 2) {
            Seq::empty()
        } else {
            seq![Param { ticks: la as u64 }]
        }
    } else {
        let h = w / 2;
        crossings(a, la, b, lb, h, near) + crossings(a, la, b, lb + h, h, near) + crossings(
            a,
            la + h,
            b,
            lb,
            h,
            near,
        ) + crossings(a, la + h, b, lb + h, h, near)
    }
}

/// Every parameter of `s` lies from `lo` up to, and not at, `hi`, in steps.
pub open spec fn all_within(s: Seq<Param>, lo: int, hi: int) -> bool {
    forall|i: int| 0 <= i < s.len() ==> lo <= (#[trigger] s[i]).ticks < hi
}

/// Every parameter that the search finds lies in the window that was searched.
pub proof fn lemma_crossings_in_window(
    a: PathSeg,
    la: int,
    b: PathSeg,
    lb: int,
    w: int,
    near: Joints,
)
    requires
        0 <= la,
        la + w <= PARAM_ONE,
    ensures
        all_within(crossings(a, la, b, lb, w, near), la, la + w),
    decreases w,
{
    if w < 2 || !boxes_overlap(segment_box(window(a, la, w)), segment_box(window(b, lb, w))) {
    } else if (is_small(window(a, la, w)) && is_small(window(b, lb, w))) || w < 4 {
    } else {
        let h = w / 2;
        lemma_crossings_in_window(a, la, b, lb, h, near);
        lemma_crossings_in_window(a, la, b, lb + h, h, near);
        lemma_crossings_in_window(a, la + h, b, lb, h, near);
        lemma_crossings_in_window(a, la + h, b, lb + h, h, near);
        let c0 = crossings(a, la, b, lb, h, near);
        let c1 = crossings(a, la, b, lb + h, h, near);
        let c2 = crossings(a, la + h, b, lb, h, near);
        let c3 = crossings(a, la + h, b, lb + h, h, near);
        let all = c0 + c1 + c2 + c3;
        assert forall|i: int| 0 <= i < all.len() implies la <= (#[trigger] all[i]).ticks < la
            + w by {
            if i < c0.len() {
                assert(all[i] == c0[i]);
            } else if i < c0.len() + c1.len() {
                assert(all[i] == c1[i - c0.len()]);
            } else if i < c0.len() + c1.len() + c2.len() {
                assert(all[i] == c2[i - c0.len() - c1.len()]);
            } else {
                assert(all[i] == c3[i - c0.len() - c1.len() - c2.len()]);
            }
        }
    }
}

/// The piece of `a` from `t` on and the piece of `b` from `u` on, both `w`
/// steps long, meet: their bounding boxes overlap, both are small, or too short
/// to be halved, and their middles are no joint.
pub open spec fn is_meeting(a: PathSeg, t: int, b: PathSeg, u: int, w: int, near: Joints) -> bool {
    &&& w >= 2
    &&& boxes_overlap(segment_box(window(a, t, w)), segment_box(window(b, u, w)))
    &&& (is_small(window(a, t, w)) && is_small(window(b, u, w))) || w < 4
    &&& !at_joint(near, t + w / 2, u + w / 2)
}

/// The piece of `a` from `t` on meets a piece of `b` as long as itself that lies
/// in the window of `b` from `lb` on, `w` steps long.
pub open spec fn has_meeting(a: PathSeg, t: int, b: PathSeg, lb: int, w: int, near: Joints) -> bool {
    exists|u: int, v: int|
        lb <= u && u + v <= lb + w && #[trigger] is_meeting(a, t, b, u, v, near)
}

/// Every parameter that the search finds is the start of a piece of `a` that
/// meets a piece of `b`: both are small, and their bounding boxes overlap.
pub proof fn lemma_crossings_meet(a: PathSeg, la: int, b: PathSeg, lb: int, w: int, near: Joints)
    requires
        0 <= la,
        la + w <= PARAM_ONE,
    ensures
        forall|i: int|
            0 <= i < crossings(a, la, b, lb, w, near).len() ==> has_meeting(
                a,
                (#[trigger] crossings(a, la, b, lb, w, near)[i]).ticks as int,
                b,
                lb,
                w,
                near,
            ),
    decreases w,
{
    let all = crossings(a, la, b, lb, w, near);
    if w < 2 || !boxes_overlap(segment_box(window(a, la, w)), segment_box(window(b, lb, w))) {
    } else if (is_small(window(a, la, w)) && is_small(window(b, lb, w))) || w < 4 {
        if !at_joint(near, la + w / 2, lb + w / 2) {
            assert(is_meeting(a, la, b, lb, w, near));
        }
    } else {
        let h = w / 2;
        lemma_crossings_meet(a, la, b, lb, h, near);
        lemma_crossings_meet(a, la, b, lb + h, h, near);
        lemma_crossings_meet(a, la + h, b, lb, h, near);
        lemma_crossings_meet(a, la + h, b, lb + h, h, near);
        let c0 = crossings(a, la, b, lb, h, near);
        let c1 = crossings(a, la, b, lb + h, h, near);
        let c2 = crossings(a, la + h, b, lb, h, near);
        let c3 = crossings(a, la + h, b, lb + h, h, near);
        assert(all == c0 + c1 + c2 + c3);
        assert forall|i: int| 0 <= i < all.len() implies has_meeting(
            a,
            (#[trigger] all[i]).ticks as int,
            b,
            lb,
            w,
            near,
        ) by {
            let t = all[i].ticks as int;
            let from = if i < c0.len() {
                assert(all[i] == c0[i]);
                lb
            } else if i < c0.len() + c1.len() {
                assert(all[i] == c1[i - c0.len()]);
                lb + h
            } else if i < c0.len() + c1.len() + c2.len() {
                assert(all[i] == c2[i - c0.len() - c1.len()]);
                lb
            } else {
                assert(all[i] == c3[i - c0.len() - c1.len() - c2.len()]);
                lb + h
            };
            assert(has_meeting(a, t, b, from, h, near));
            let (u, v) = choose|u: int, v: int|
                from <= u && u + v <= from + h && #[trigger] is_meeting(a, t, b, u, v, near);
            assert(lb <= u && u + v <= lb + w && is_meeting(a, t, b, u, v, near));
        }
    }
}

/// Segments whose bounding boxes do not overlap do not cross.
pub proof fn lemma_apart_segments_do_not_cross(a: PathSeg, b: PathSeg, near: Joints)
    requires
        !boxes_overlap(
            segment_box(window(a, 0, PARAM_ONE as int)),
            segment_box(window(b, 0, PARAM_ONE as int)),
        ),
    ensures
        crossings(a, 0, b, 0, PARAM_ONE as int, near) == Seq::<Param>::empty(),
{
}

/// Whether a meeting at the parameters `t1` and `t2`, in steps, is a joint.
fn is_joint(near: &Joints, t1: u64, t2: u64) -> (yes: bool)
    requires
        t1 <= PARAM_ONE,
        t2 <= PARAM_ONE,
    ensures
        yes == at_joint(*near, t1 as int, t2 as int),
{
    let low1 = t1 * 100 < PARAM_ONE;
    let low2 = t2 * 100 < PARAM_ONE;
    let high1 = t1 * 100 > 99 * PARAM_ONE;
    let high2 = t2 * 100 > 99 * PARAM_ONE;
    (near.start_start && low1 && low2) || (near.start_end && low1 && high2) || (near.end_start
        && high1 && low2) || (near.end_end && high1 && high2)
}

fn intersections(
    seg1: &PathSeg,
    lo1: u64,
    seg2: &PathSeg,
    lo2: u64,
    span: u64,
    near: &Joints,
    result: &mut Vec<Param>,
)
    requires
        lo1 + span <= PARAM_ONE,
        lo2 + span <= PARAM_ONE,
    ensures
        final(result)@ == old(result)@ + crossings(
            *seg1,
            lo1 as int,
            *seg2,
            lo2 as int,
            span as int,
            *near,
        ),
    decreases span,
{
    if span < 2 {
        assert(result@ == old(result)@ + Seq::<Param>::empty());
        return ;
    }
    let piece1 = subsegment(
        seg1,
        Param { ticks: lo1 }.place(),
        Param { ticks: lo1 + span }.place(),
    );
    let piece2 = subsegment(
        seg2,
        Param { ticks: lo2 }.place(),
        Param { ticks: lo2 + span }.place(),
    );
    let bbox1 = bounding_box(&piece1);
    let bbox2 = bounding_box(&piece2);
    if !overlaps(&bbox1, &bbox2) {
        assert(result@ == old(result)@ + Seq::<Param>::empty());
        return ;
    }
    let half = span / 2;
    let accuracy = default_accuracy();
    let small1 = width(&bbox1) < accuracy && height(&bbox1) < accuracy;
    let small2 = width(&bbox2) < accuracy && height(&bbox2) < accuracy;
    if (small1 && small2) || span < 4 {
        if is_joint(near, lo1 + half, lo2 + half) {
            assert(result@ == old(result)@ + Seq::<Param>::empty());
        } else {
            result.push(Param { ticks: lo1 });
            assert(result@ == old(result)@ + seq![Param { ticks: lo1 }]);
        }
        return ;
    }
    intersections(seg1, lo1, seg2, lo2, half, near, result);
    intersections(seg1, lo1, seg2, lo2 + half, half, near, result);
    intersections(seg1, lo1 + half, seg2, lo2, half, near, result);
    intersections(seg1, lo1 + half, seg2, lo2 + half, half, near, result);
    proof {
        let h = half as int;
        let c0 = crossings(*seg1, lo1 as int, *seg2, lo2 as int, h, *near);
        let c1 = crossings(*seg1, lo1 as int, *seg2, lo2 + h, h, *near);
        let c2 = crossings(*seg1, lo1 + h, *seg2, lo2 as int, h, *near);
        let c3 = crossings(*seg1, lo1 + h, *seg2, lo2 + h, h, *near);
        assert(result@ == old(result)@ + (c0 + c1 + c2 + c3));
    }
}

/// The parameters on `seg1` at which it crosses `seg2`: what the search finds
/// on the whole of both segments. Joints of their ends are left out. The
/// parameters come in the order of the search, and a crossing may be found more
/// than once. At each of them a small piece of `seg1` begins that meets a small
/// piece of `seg2`.
pub fn path_intersections(seg1: PathSeg, seg2: PathSeg) -> (found: Vec<Param>)
    ensures
        found@ == crossings(seg1, 0, seg2, 0, PARAM_ONE as int, joints_of(seg1, seg2)),
        all_within(found@, 0, PARAM_ONE as int),
        forall|i: int|
            0 <= i < found.len() ==> has_meeting(
                seg1,
                (#[trigger] found[i]).ticks as int,
                seg2,
                0,
                PARAM_ONE as int,
                joints_of(seg1, seg2),
            ),
{
    let start1 = start_point(&seg1);
    let end1 = end_point(&seg1);
    let start2 = start_point(&seg2);
    let end2 = end_point(&seg2);
    let near = Joints {
        start_start: point_distance(start1, start2) < UNIT_LENGTH,
        start_end: point_distance(start1, end2) < UNIT_LENGTH,
        end_start: point_distance(end1, start2) < UNIT_LENGTH,
        end_end: point_distance(end1, end2) < UNIT_LENGTH,
    };
    let mut found: Vec<Param> = Vec::new();
    intersections(&seg1, 0, &seg2, 0, PARAM_ONE, &near, &mut found);
    proof {
        lemma_crossings_in_window(seg1, 0, seg2, 0, PARAM_ONE as int, near);
        lemma_crossings_meet(seg1, 0, seg2, 0, PARAM_ONE as int, near);
        assert(found@ == crossings(seg1, 0, seg2, 0, PARAM_ONE as int, near));
    }
    found
}

/// The second parameter lies more than a hundredth behind the first.
pub open spec fn apart(a: Param, b: Param) -> bool {
    (b.ticks - a.ticks) * 100 > PARAM_ONE
}

/// The parameters stand in rising order.
pub open spec fn is_sorted(s: Seq<Param>) -> bool {
    forall|i: int, j: int| 0 <= i <= j < s.len() ==> s[i].ticks <= s[j].ticks
}

/// The parameters of `s` without those that lie within a hundredth behind the
/// one kept before them: the first is kept, and then each that is apart from
/// the last one kept.
pub open spec fn collapsed(s: Seq<Param>) -> Seq<Param>
    decreases s.len(),
{
    if s.len() == 0 {
        Seq::empty()
    } else {
        let head = collapsed(s.drop_last());
        if head.len() == 0 || apart(head.last(), s.last()) {
            head.push(s.last())
        } else {
            head
        }
    }
}

/// Each parameter of `s` lies more than a hundredth behind the one before it.
pub open spec fn is_spread(s: Seq<Param>) -> bool {
    forall|i: int| 0 < i < s.len() ==> apart(s[i - 1], #[trigger] s[i])
}

/// What is kept of `s` begins with the first of `s`, is spread, and holds
/// parameters of `s` only.
pub proof fn lemma_collapsed(s: Seq<Param>)
    ensures
        collapsed(s).len() <= s.len(),
        s.len() > 0 ==> collapsed(s).len() > 0 && collapsed(s)[0] == s[0],
        is_spread(collapsed(s)),
        forall|i: int| 0 <= i < collapsed(s).len() ==> s.contains(#[trigger] collapsed(s)[i]),
    decreases s.len(),
{
    if s.len() > 0 {
        let front = s.drop_last();
        lemma_collapsed(front);
        let head = collapsed(front);
        assert forall|i: int| 0 <= i < collapsed(s).len() implies s.contains(
            #[trigger] collapsed(s)[i],
        ) by {
            if i < head.len() {
                let at = choose|at: int| 0 <= at < front.len() && front[at] == head[i];
                assert(s[at] == head[i]);
            } else {
                assert(s[s.len() - 1] == collapsed(s)[i]);
            }
        }
    }
}

/// The parameters of `s` and the two ends of the segment.
pub open spec fn with_ends(s: Seq<Param>) -> Seq<Param> {
    s.push(Param { ticks: 0 }).push(Param { ticks: PARAM_ONE })
}

/// `cuts` are the places at which a segment with the crossings `found` is cut:
/// the crossings and the two ends of the segment, put in rising order, without
/// those that lie within a hundredth behind the one kept before them.
pub open spec fn is_cleanup(found: Seq<Param>, cuts: Seq<Param>) -> bool {
    exists|s: Seq<Param>|
        is_sorted(s) && s.to_multiset() == with_ends(found).to_multiset() && cuts
            == #[trigger] collapsed(s)
}

/// A segment that nothing crosses is cut at its two ends only, so that it stays
/// whole.
pub proof fn lemma_uncrossed_is_uncut(cuts: Seq<Param>)
    requires
        is_cleanup(Seq::empty(), cuts),
    ensures
        cuts == seq![Param { ticks: 0 }, Param { ticks: PARAM_ONE }],
{
    broadcast use group_to_multiset_ensures;

    let s = choose|s: Seq<Param>|
        is_sorted(s) && s.to_multiset() == with_ends(Seq::empty()).to_multiset() && cuts
            == #[trigger] collapsed(s);
    let zero = Param { ticks: 0 };
    let one = Param { ticks: PARAM_ONE };
    let ends = with_ends(Seq::<Param>::empty());
    let none = Seq::<Param>::empty();
    assert(none.to_multiset().len() == 0);
    assert(ends.to_multiset() =~= none.to_multiset().insert(zero).insert(one));
    assert(s.len() == s.to_multiset().len());
    assert(ends.len() == 2);
    assert(s.len() == 2);
    assert(s.to_multiset().count(s[0]) > 0);
    assert(s.to_multiset().count(s[1]) > 0);
    assert(s[0] == zero || s[0] == one);
    assert(s[1] == zero || s[1] == one);
    assert(s[0] != s[1]) by {
        if s[0] == s[1] {
            assert(s =~= none.push(s[0]).push(s[0]));
            assert(s.to_multiset() =~= none.to_multiset().insert(s[0]).insert(s[0]));
            assert(s.to_multiset().count(s[0]) == 2);
        }
    }
    assert(s[0].ticks <= s[1].ticks);
    assert(s =~= seq![zero, one]);
    let head = s.drop_last();
    assert(head =~= seq![zero]);
    assert(head.drop_last() =~= none);
    assert(collapsed(head.drop_last()) =~= none);
    assert(collapsed(head) =~= seq![zero]);
    assert(apart(zero, one));
    assert(collapsed(s) =~= seq![zero, one]);
}

/// The parameters of `ts` and the two ends, in rising order.
fn sorted_with_ends(ts: &Vec<Param>) -> (sorted: Vec<Param>)
    ensures
        is_sorted(sorted@),
        sorted@.to_multiset() == with_ends(ts@).to_multiset(),
{
    let mut all: Vec<Param> = Vec::new();
    let mut c: usize = 0;
    while c < ts.len()
        invariant
            c <= ts.len(),
            all@ == ts@.take(c as int),
        decreases ts.len() - c,
    {
        all.push(ts[c]);
        c += 1;
    }
    all.push(Param::zero());
    all.push(Param::one());
    assert(all@ == with_ends(ts@));
    let mut sorted: Vec<Param> = Vec::new();
    let mut i: usize = 0;
    proof {
        assert(all@.take(0) =~= Seq::<Param>::empty());
        assert(sorted@ =~= all@.take(0));
    }
    while i < all.len()
        invariant
            i <= all.len(),
            is_sorted(sorted@),
            sorted.len() == i,
            sorted@.to_multiset() == all@.take(i as int).to_multiset(),
        decreases all.len() - i,
    {
        let x = all[i];
        let mut pos: usize = 0;
        while pos < sorted.len() && sorted[pos].ticks <= x.ticks
            invariant
                pos <= sorted.len(),
                forall|k: int| 0 <= k < pos ==> sorted@[k].ticks <= x.ticks,
            decreases sorted.len() - pos,
        {
            pos += 1;
        }
        proof {
            broadcast use group_to_multiset_ensures;

            to_multiset_insert(sorted@, pos as int, x);
            assert(all@.take(i + 1) == all@.take(i as int).push(x));
            let after = sorted@.insert(pos as int, x);
            assert forall|a: int, b: int| 0 <= a <= b < after.len() implies after[a].ticks
                <= after[b].ticks by {
                if a < pos && b > pos {
                    assert(after[a] == sorted@[a]);
                    assert(after[b] == sorted@[b - 1]);
                } else if a > pos {
                    assert(after[a] == sorted@[a - 1]);
                    assert(after[b] == sorted@[b - 1]);
                } else if b < pos {
                    assert(after[a] == sorted@[a]);
                    assert(after[b] == sorted@[b]);
                } else if a == pos && b > pos {
                    assert(after[b] == sorted@[b - 1]);
                    assert(sorted@[pos as int].ticks <= sorted@[b - 1].ticks);
                } else if a < pos && b == pos {
                    assert(after[a] == sorted@[a]);
                }
            }
        }
        sorted.insert(pos, x);
        i += 1;
    }
    assert(all@.take(i as int) == all@);
    sorted
}

/// The places at which a segment is cut: the parameters given and the two ends
/// of the segment, in rising order, without those that lie within a hundredth
/// behind the one kept before them. The start of the segment is always kept.
pub fn cleanup_intersections(intersections: &Vec<Param>) -> (cuts: Vec<Param>)
    ensures
        is_cleanup(intersections@, cuts@),
        cuts.len() >= 1,
        cuts[0].ticks == 0,
        is_spread(cuts@),
        forall|i: int| 0 <= i < cuts.len() ==> with_ends(intersections@).contains(#[trigger] cuts[i]),
{
    let sorted = sorted_with_ends(intersections);
    let mut cuts: Vec<Param> = Vec::new();
    let mut i: usize = 0;
    assert(sorted@.take(0) =~= Seq::<Param>::empty());
    while i < sorted.len()
        invariant
            i <= sorted.len(),
            cuts@ == collapsed(sorted@.take(i as int)),
            forall|k: int| 0 <= k < cuts.len() ==> cuts@[k].ticks <= sorted@[i - 1].ticks,
            is_sorted(sorted@),
        decreases sorted.len() - i,
    {
        let next = sorted[i];
        proof {
            let upto = sorted@.take(i + 1);
            assert(upto.drop_last() == sorted@.take(i as int));
            assert(upto.last() == next);
            if i > 0 {
                assert(sorted@[i - 1].ticks <= sorted@[i as int].ticks);
            }
        }
        let keep = if cuts.len() == 0 {
            true
        } else {
            let last = cuts[cuts.len() - 1];
            next.ticks - last.ticks > PARAM_ONE / 100
        };
        if keep {
            cuts.push(next);
        }
        i += 1;
    }
    proof {
        broadcast use group_to_multiset_ensures;

        let ends = with_ends(intersections@);
        assert(sorted@.take(i as int) == sorted@);
        lemma_collapsed(sorted@);
        assert(ends.len() >= 2);
        assert(sorted@.to_multiset().len() == ends.to_multiset().len());
        assert(sorted@.len() == ends.len());
        let zero = Param { ticks: 0 };
        assert(ends[ends.len() - 2] == zero);
        assert(ends.contains(zero));
        assert(ends.to_multiset().count(zero) > 0);
        assert(sorted@.contains(zero));
        let at = choose|at: int| 0 <= at < sorted@.len() && sorted@[at] == zero;
        assert(sorted@[0].ticks <= sorted@[at].ticks);
        assert forall|k: int| 0 <= k < cuts.len() implies ends.contains(#[trigger] cuts[k]) by {
            assert(sorted@.contains(cuts@[k]));
            assert(sorted@.to_multiset().count(cuts@[k]) > 0);
        }
    }
    cuts
}

} // verus!
