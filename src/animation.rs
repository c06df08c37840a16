use vstd::prelude::*;
use crate::types::Rect;
use vstd::arithmetic::div_mod::lemma_mod_multiples_vanish;

verus! {

/// Sum of the first `n` durations.
pub open spec fn prefix_sum(d: Seq<usize>, n: int) -> int
    decreases n,
{
    if n <= 0 || n > d.len() {
        0
    } else {
        prefix_sum(d, n - 1) + d[n - 1]
    }
}

/// The smallest index `i >= start` whose cumulative duration `prefix_sum(d, i + 1)`
/// exceeds `t`, or `d.len()` when there is none.
pub open spec fn slot_from(d: Seq<usize>, t: int, start: int) -> int
    decreases d.len() - start,
{
    if start < 0 || start >= d.len() {
        d.len() as int
    } else if t < prefix_sum(d, start + 1) {
        start
    } else {
        slot_from(d, t, start + 1)
    }
}

/// A timeline of frames, each shown for a number of time units.
pub struct Animation {
    pub(crate) time_per: Vec<usize>,
    pub(crate) frames: Vec<Rect>,
    looping: bool,
}

impl Animation {
    pub closed spec fn durations(&self) -> Seq<usize> {
        self.time_per@
    }

    pub closed spec fn frame_seq(&self) -> Seq<Rect> {
        self.frames@
    }

    pub closed spec fn is_looping(&self) -> bool {
        self.looping
    }

    /// Sum of all durations.
    pub open spec fn total(&self) -> int {
        prefix_sum(self.durations(), self.durations().len() as int)
    }

    /// Both timelines have the same non-zero length, every duration is positive,
    /// and the total duration fits in a `usize`.
    pub open spec fn wf(&self) -> bool {
        valid_timeline(self.durations(), self.frame_seq())
    }

    /// The time used for frame selection: wrapped when looping, else held at
    /// the last time unit.
    pub open spec fn effective_time(&self, t: nat) -> int {
        if self.is_looping() {
            t as int % self.total()
        } else if t < self.total() - 1 {
            t as int
        } else {
            self.total() - 1
        }
    }

    /// The frame shown at elapsed time `t`: the first one whose running total
    /// of durations exceeds the effective time.
    pub open spec fn frame_at(&self, t: nat) -> Rect {
        self.frame_seq()[slot_from(self.durations(), self.effective_time(t), 0)]
    }

    pub fn new(time_per: Vec<usize>, frames: Vec<Rect>, looping: bool) -> (r: Self)
        requires
            valid_timeline(time_per@, frames@),
        ensures
            r.wf(),
            r.durations() == time_per@,
            r.frame_seq() == frames@,
            r.is_looping() == looping,
            r.total() >= 1,
    {
        proof {
            lemma_prefix_sum_monotone(time_per@, 1, time_per@.len() as int);
            assert(prefix_sum(time_per@, 0) == 0);
            assert(prefix_sum(time_per@, 1) == time_per@[0]);
        }
        Self { time_per, frames, looping }
    }

    pub fn get_frame(&self, current_time: usize) -> (r: Rect)
        requires
            self.wf(),
        ensures
            r == self.frame_at(current_time as nat),
    {
        let d = Ghost(self.time_per@);
        let n = self.time_per.len();
        let mut net_duration: usize = 0;
        let mut i: usize = 0;
        while i < n
            invariant
                n == d@.len(),
                d@ == self.time_per@,
                self.wf(),
                0 <= i <= n,
                net_duration == prefix_sum(d@, i as int),
            decreases n - i,
        {
            proof {
                lemma_prefix_sum_monotone(d@, i as int + 1, n as int);
            }
            net_duration = net_duration + self.time_per[i];
            i = i + 1;
        }
        proof {
            lemma_prefix_sum_monotone(d@, 1, n as int);
            assert(prefix_sum(d@, 0) == 0);
            assert(prefix_sum(d@, 1) == d@[0]);
        }
        let t: usize = if self.looping {
            current_time % net_duration
        } else if current_time < net_duration - 1 {
            current_time
        } else {
            net_duration - 1
        };
        let mut acum_time: usize = 0;
        let mut j: usize = 0;
        while j < n
            invariant
                n == d@.len(),
                n == self.frames@.len(),
                d@ == self.time_per@,
                self.wf(),
                0 <= j <= n,
                net_duration == self.total(),
                t as int == self.effective_time(current_time as nat),
                t < net_duration,
                acum_time == prefix_sum(d@, j as int),
                t >= acum_time,
                slot_from(d@, t as int, 0) == slot_from(d@, t as int, j as int),
            decreases n - j,
        {
            proof {
                lemma_prefix_sum_monotone(d@, j as int + 1, n as int);
            }
            acum_time = acum_time + self.time_per[j];
            if t < acum_time {
                return self.frames[j];
            }
            j = j + 1;
        }
        proof {
            assert(false);
        }
        self.frames[0]
    }
}

/// A non-looping animation holds its last frame: every time at or past the
/// last time unit shows the same frame as that last unit, and that frame is
/// the last of the timeline.
pub proof fn lemma_hold_last_frame(a: &Animation, t: nat)
    requires
        a.wf(),
        !a.is_looping(),
        t >= a.total() - 1,
    ensures
        a.total() >= 1,
        a.frame_at(t) == a.frame_at((a.total() - 1) as nat),
        a.frame_at(t) == a.frame_seq().last(),
{
    lemma_total_positive(a);
    let d = a.durations();
    let n = d.len() as int;
    assert(prefix_sum(d, n) == prefix_sum(d, n - 1) + d[n - 1]);
    lemma_slot_in_interval(d, a.total() - 1, n - 1);
}

/// A looping animation is periodic: adding any whole number of total
/// durations to the elapsed time shows the same frame.
pub proof fn lemma_looping_periodic(a: &Animation, t: nat, k: nat)
    requires
        a.wf(),
        a.is_looping(),
    ensures
        a.frame_at(t) == a.frame_at(t + k * a.total() as nat),
{
    lemma_total_positive(a);
    let m = a.total();
    lemma_mod_multiples_vanish(k as int, t as int, m);
    assert(m * k + t == t + k * m) by (nonlinear_arith);
}

/// At elapsed time zero every animation shows its first frame.
pub proof fn lemma_first_frame_at_zero(a: &Animation)
    requires
        a.wf(),
    ensures
        a.frame_at(0) == a.frame_seq()[0],
{
    lemma_total_positive(a);
    assert(0int % a.total() == 0);
    assert(prefix_sum(a.durations(), 0) == 0);
    assert(prefix_sum(a.durations(), 1) == a.durations()[0]);
}

/// The total duration of a well-formed animation is positive.
pub proof fn lemma_total_positive(a: &Animation)
    requires
        a.wf(),
    ensures
        a.total() >= 1,
{
    lemma_prefix_sum_monotone(a.durations(), 1, a.durations().len() as int);
    assert(prefix_sum(a.durations(), 0) == 0);
    assert(prefix_sum(a.durations(), 1) == a.durations()[0]);
}

/// Each frame is shown exactly while the time lies in its own interval of the
/// timeline: a time `t` with `prefix_sum(d, i) <= t < prefix_sum(d, i + 1)`
/// selects index `i`.
pub proof fn lemma_slot_in_interval(d: Seq<usize>, t: int, i: int)
    requires
        0 <= i < d.len(),
        forall|j: int| 0 <= j < d.len() ==> d[j] > 0,
        prefix_sum(d, i) <= t < prefix_sum(d, i + 1),
    ensures
        slot_from(d, t, 0) == i,
{
    lemma_slot_from_interval(d, t, i, 0);
}

proof fn lemma_slot_from_interval(d: Seq<usize>, t: int, i: int, s: int)
    requires
        0 <= s <= i < d.len(),
        prefix_sum(d, i) <= t < prefix_sum(d, i + 1),
    ensures
        slot_from(d, t, s) == i,
    decreases i - s,
{
    if s < i {
        lemma_prefix_sum_monotone(d, s + 1, i);
        lemma_slot_from_interval(d, t, i, s + 1);
    }
}

/// A non-looping animation never returns to an earlier frame: a later time
/// selects the same or a later index of the timeline.
pub proof fn lemma_non_looping_monotone(a: &Animation, t1: nat, t2: nat)
    requires
        a.wf(),
        !a.is_looping(),
        t1 <= t2,
    ensures
        slot_from(a.durations(), a.effective_time(t1), 0) <= slot_from(a.durations(), a.effective_time(t2), 0),
        0 <= slot_from(a.durations(), a.effective_time(t2), 0) < a.durations().len(),
{
    lemma_total_positive(a);
    lemma_slot_monotone(a.durations(), a.effective_time(t1), a.effective_time(t2), 0);
    assert(prefix_sum(a.durations(), 0) == 0);
    lemma_slot_below_len(a.durations(), a.effective_time(t2), 0);
    lemma_slot_at_least(a.durations(), a.effective_time(t2), 0);
}

proof fn lemma_slot_monotone(d: Seq<usize>, t1: int, t2: int, s: int)
    requires
        0 <= s,
        t1 <= t2,
    ensures
        slot_from(d, t1, s) <= slot_from(d, t2, s),
    decreases d.len() - s,
{
    if s < d.len() {
        if t1 < prefix_sum(d, s + 1) {
            lemma_slot_at_least(d, t2, s);
        } else {
            lemma_slot_monotone(d, t1, t2, s + 1);
        }
    }
}

proof fn lemma_slot_at_least(d: Seq<usize>, t: int, s: int)
    requires
        0 <= s,
    ensures
        slot_from(d, t, s) >= s || slot_from(d, t, s) == d.len(),
        s <= d.len() ==> slot_from(d, t, s) >= s,
    decreases d.len() - s,
{
    if s < d.len() && t >= prefix_sum(d, s + 1) {
        lemma_slot_at_least(d, t, s + 1);
    }
}

proof fn lemma_slot_below_len(d: Seq<usize>, t: int, s: int)
    requires
        0 <= s <= d.len(),
        t < prefix_sum(d, d.len() as int),
        t >= prefix_sum(d, s),
    ensures
        slot_from(d, t, s) < d.len(),
    decreases d.len() - s,
{
    if s < d.len() && t >= prefix_sum(d, s + 1) {
        lemma_slot_below_len(d, t, s + 1);
    }
}

/// Durations and frames that make a well-formed animation.
pub open spec fn valid_timeline(d: Seq<usize>, f: Seq<Rect>) -> bool {
    &&& d.len() == f.len()
    &&& d.len() > 0
    &&& forall|i: int| 0 <= i < d.len() ==> d[i] > 0
    &&& prefix_sum(d, d.len() as int) <= usize::MAX
}

/// Cumulative durations never decrease.
pub proof fn lemma_prefix_sum_monotone(d: Seq<usize>, a: int, b: int)
    requires
        0 <= a <= b <= d.len(),
    ensures
        prefix_sum(d, a) <= prefix_sum(d, b),
    decreases b - a,
{
    if a < b {
        lemma_prefix_sum_monotone(d, a, b - 1);
    }
}

} // verus!
