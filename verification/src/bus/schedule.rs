//! Periodic messages and playback: what is due when.

use vstd::prelude::*;
use crate::bus::worker::{periodic_views, PeriodicModel, ReplayModel, Worker, WorkerModel};
use crate::bus::{BusStats, StatsModel};
use crate::candump::frame_views;
use crate::msg::{greatest, least, CanMsg, Frame};
use crate::number::Real;

verus! {

/// Frames that a playback sends at once, at most.
pub const REPLAY_BURST: usize = 1000;

/// Longest wait for a frame, in nanoseconds, so that commands stay responsive.
pub const MAX_WAIT: u64 = 5_000_000;

/// A periodic message after it was looked at: when it is due it goes on by one period, or,
/// after a stall, starts anew from now.
pub open spec fn advanced(p: PeriodicModel, now: int) -> PeriodicModel {
    if p.enabled && p.next <= now {
        PeriodicModel {
            next: if p.next + p.period < now {
                now + p.period
            } else {
                p.next + p.period
            },
            ..p
        }
    } else {
        p
    }
}

/// Periodic messages after they were looked at.
pub open spec fn all_advanced(v: Seq<PeriodicModel>, now: int) -> Seq<PeriodicModel> {
    Seq::new(v.len(), |i: int| advanced(v[i], now))
}

/// The periodic messages that are due.
pub open spec fn due_periodic(v: Seq<PeriodicModel>, now: int) -> Seq<Frame>
    decreases v.len(),
{
    if v.len() == 0 {
        Seq::empty()
    } else if v.last().enabled && v.last().next <= now {
        due_periodic(v.drop_last(), now).push(v.last().msg)
    } else {
        due_periodic(v.drop_last(), now)
    }
}

/// How far a playback gets from frame `i` on with a budget of frames.
pub open spec fn replay_end(r: ReplayModel, now: int, i: int, budget: int) -> int
    decreases budget,
{
    if budget <= 0 || i >= r.frames.len() || r.start + r.offsets[i] > now {
        i
    } else {
        replay_end(r, now, i + 1, budget - 1)
    }
}

/// Where a playback stands after its turn; `None` when it is over. A looped one starts
/// again, at the time `later`.
pub open spec fn replay_after(r: ReplayModel, now: int, later: int) -> Option<ReplayModel> {
    let end = replay_end(r, now, r.idx, REPLAY_BURST as int);
    if end < r.frames.len() {
        Some(ReplayModel { idx: end, ..r })
    } else if r.looped && r.frames.len() > 0 {
        Some(ReplayModel { idx: 0, loops: r.loops + 1, start: later, ..r })
    } else {
        None
    }
}

/// The frames of a playback that are due.
pub open spec fn due_replay(r: ReplayModel, now: int) -> Seq<Frame> {
    r.frames.subrange(r.idx, replay_end(r, now, r.idx, REPLAY_BURST as int))
}

/// Everything that is due: periodic messages, then the playback.
pub open spec fn due_frames(w: WorkerModel, now: int) -> Seq<Frame> {
    due_periodic(w.periodic, now) + (match w.replay {
        Some(r) => due_replay(r, now),
        None => Seq::empty(),
    })
}

pub proof fn lemma_replay_end(r: ReplayModel, now: int, i: int, budget: int)
    requires
        0 <= i <= r.frames.len(),
    ensures
        i <= replay_end(r, now, i, budget) <= r.frames.len(),
        replay_end(r, now, i, budget) <= greatest(i, i + budget),
        forall|j: int| i <= j < replay_end(r, now, i, budget) ==> r.start + #[trigger] r.offsets[j] <= now,
    decreases budget,
{
    if budget <= 0 || i >= r.frames.len() || r.start + r.offsets[i] > now {
    } else {
        lemma_replay_end(r, now, i + 1, budget - 1);
    }
}

/// The earliest time at which an enabled periodic message is sent.
pub open spec fn earliest(v: Seq<PeriodicModel>) -> Option<int>
    decreases v.len(),
{
    if v.len() == 0 {
        None
    } else {
        match (earliest(v.drop_last()), v.last().enabled) {
            (Some(t), true) => Some(least(t, v.last().next)),
            (None, true) => Some(v.last().next),
            (t, false) => t,
        }
    }
}

/// When the next frame of a playback is due.
pub open spec fn replay_due(r: Option<ReplayModel>) -> Option<int> {
    match r {
        Some(r) => if r.idx < r.frames.len() {
            Some(r.start + r.offsets[r.idx])
        } else {
            None
        },
        None => None,
    }
}

/// When something is to be sent next.
pub open spec fn deadline(w: WorkerModel) -> Option<int> {
    match (earliest(w.periodic), replay_due(w.replay)) {
        (Some(a), Some(b)) => Some(least(a, b)),
        (Some(a), None) => Some(a),
        (None, b) => b,
    }
}

/// How long to wait for frames, with this deadline.
pub open spec fn time_to_wait(deadline: Option<int>, now: int) -> int {
    match deadline {
        Some(t) => if t <= now {
            0
        } else if t - now < 5_000_000 {
            t - now
        } else {
            5_000_000
        },
        None => 5_000_000,
    }
}

/// A worker that has taken out what is due.
pub open spec fn after_schedule(w: WorkerModel, now: int, later: int) -> WorkerModel {
    WorkerModel {
        periodic: all_advanced(w.periodic, now),
        replay: match w.replay {
            Some(p) => replay_after(p, now, later),
            None => None,
        },
        ..w
    }
}

/// What is known of the bus when a worker was `w` and is `v`.
pub open spec fn stats_after_schedule(
    s: StatsModel,
    w: WorkerModel,
    v: WorkerModel,
    ts: Real,
) -> StatsModel {
    if w.replay is Some && v.replay is None {
        StatsModel { replay: None, ..s }.with_event(ts, "Playback finished"@, false)
    } else {
        s
    }
}

impl Worker {
    /// Times stay within the range of the clock.
    pub open spec fn in_time(self, now: int) -> bool {
        forall|i: int|
            0 <= i < self.periodic@.len() ==> now + (#[trigger] self.periodic@[i]).period <= u64::MAX
    }

    fn take_periodic(&mut self, now: u64, due: &mut Vec<CanMsg>)
        requires
            old(self).wf(),
            old(self).in_time(now as int),
            forall|i: int| 0 <= i < old(due)@.len() ==> (#[trigger] old(due)@[i]).wf(),
        ensures
            final(self).wf(),
            final(self)@ == (WorkerModel {
                periodic: all_advanced(old(self)@.periodic, now as int),
                ..old(self)@
            }),
            final(self).replay == old(self).replay,
            frame_views(final(due)@) == frame_views(old(due)@) + due_periodic(
                old(self)@.periodic,
                now as int,
            ),
            forall|i: int| 0 <= i < final(due)@.len() ==> (#[trigger] final(due)@[i]).wf(),
    {
        let ghost start = self@;
        let ghost p0 = start.periodic;
        let ghost first = frame_views(due@);
        let len: usize = self.periodic.len();
        let mut i: usize = 0;
        assert(first + due_periodic(p0.take(0), now as int) =~= first);
        while i < len
            invariant
                i <= len,
                len == self.periodic@.len(),
                len == p0.len(),
                p0 == start.periodic,
                self.wf(),
                self.in_time(now as int),
                self.replay == old(self).replay,
                self@ == (WorkerModel { periodic: self@.periodic, ..start }),
                forall|j: int| 0 <= j < i ==> #[trigger] self@.periodic[j] == advanced(p0[j], now as int),
                forall|j: int| i <= j < len ==> #[trigger] self@.periodic[j] == p0[j],
                frame_views(due@) == first + due_periodic(p0.take(i as int), now as int),
                forall|j: int| 0 <= j < due@.len() ==> (#[trigger] due@[j]).wf(),
            decreases len - i,
        {
            let ghost before = self@;
            let ghost raw = self.periodic@;
            let ghost dv = frame_views(due@);
            let ghost draw = due@;
            proof {
                assert(before.periodic[i as int] == p0[i as int]);
                assert(raw[i as int]@ == p0[i as int]);
                assert(raw[i as int].msg.wf());
                assert(now + raw[i as int].period <= u64::MAX);
                assert(p0.take(i + 1).drop_last() =~= p0.take(i as int));
                assert(p0.take(i + 1).last() == p0[i as int]);
            }
            let enabled = self.periodic[i].enabled;
            let next: u64 = self.periodic[i].next;
            let period: u64 = self.periodic[i].period;
            if enabled && next <= now {
                let m = self.periodic[i].msg;
                due.push(m);
                let mut t: u64 = next + period;
                if t < now {
                    t = now + period;
                }
                self.periodic[i].next = t;
                proof {
                    assert(frame_views(due@) =~= dv.push(m@));
                    assert(frame_views(due@) =~= first + due_periodic(p0.take(i + 1), now as int));
                    assert(self@.periodic =~= before.periodic.update(
                        i as int,
                        advanced(p0[i as int], now as int),
                    ));
                    let v = self@.periodic;
                    assert forall|a: int, b: int| 0 <= a < b < v.len() implies (#[trigger] v[a]).id
                        != (#[trigger] v[b]).id by {
                        assert(v[a].id == before.periodic[a].id);
                        assert(v[b].id == before.periodic[b].id);
                    }
                    assert forall|j: int| 0 <= j < self.periodic@.len() implies (
                    #[trigger] self.periodic@[j]).msg.wf() by {
                        assert(raw[j].msg.wf());
                    }
                    assert forall|j: int| 0 <= j < self.periodic@.len() implies now + (
                    #[trigger] self.periodic@[j]).period <= u64::MAX by {
                        assert(now + raw[j].period <= u64::MAX);
                    }
                    assert forall|j: int| 0 <= j < due@.len() implies (#[trigger] due@[j]).wf() by {
                        if j < draw.len() {
                            assert(draw[j].wf());
                        }
                    }
                }
            }
            i = i + 1;
        }
        assert(p0.take(i as int) =~= p0);
        assert(self@.periodic =~= all_advanced(p0, now as int));
    }

    /// Collects what is due. When a playback has come to its end without looping, it is over.
    pub fn run_scheduled_tx(&mut self, now: u64, later: u64, ts: Real, stats: &mut BusStats) -> (r:
        Vec<CanMsg>)
        requires
            old(self).wf(),
            old(self).in_time(now as int),
            old(self).replay matches Some(p) ==> p.loops < u64::MAX,
        ensures
            final(self).wf(),
            frame_views(r@) == due_frames(old(self)@, now as int),
            forall|i: int| 0 <= i < r@.len() ==> (#[trigger] r@[i]).wf(),
            ({
                let w = old(self)@;
                let over = w.replay matches Some(p) && replay_after(p, now as int, later as int) is None;
                &&& final(self)@ == (WorkerModel {
                    periodic: all_advanced(w.periodic, now as int),
                    replay: match w.replay {
                        Some(p) => replay_after(p, now as int, later as int),
                        None => None,
                    },
                    ..w
                })
                &&& final(stats)@ == (if over {
                    StatsModel { replay: None, ..old(stats)@ }.with_event(
                        ts,
                        "Playback finished"@,
                        false,
                    )
                } else {
                    old(stats)@
                })
            }),
            final(self)@ == after_schedule(old(self)@, now as int, later as int),
            final(stats)@ == stats_after_schedule(
                old(stats)@,
                old(self)@,
                final(self)@,
                ts,
            ),
    {
        let mut due: Vec<CanMsg> = Vec::new();
        let ghost w = self@;
        assert(frame_views(due@) =~= Seq::<Frame>::empty());
        self.take_periodic(now, &mut due);
        let ghost first = due_periodic(w.periodic, now as int);
        assert(frame_views(due@) =~= first);
        let mut over = false;
        match &mut self.replay {
            Some(p) => {
                let ghost r0 = p@;
                let from: usize = p.idx;
                let total: usize = p.frames.len();
                let ghost end = replay_end(r0, now as int, r0.idx, REPLAY_BURST as int);
                let mut i: usize = from;
                let mut sent: usize = 0;
                proof {
                    lemma_replay_end(r0, now as int, r0.idx, REPLAY_BURST as int);
                    assert(r0.frames.subrange(from as int, from as int) =~= Seq::<Frame>::empty());
                    assert(first + Seq::<Frame>::empty() =~= first);
                }
                while i < total && sent < REPLAY_BURST && (p.start as u128 + p.offsets[i] as u128)
                    <= now as u128
                    invariant
                        from <= i <= total,
                        i - from == sent,
                        sent <= REPLAY_BURST,
                        total == p.frames@.len(),
                        p.wf(),
                        p@ == r0,
                        end == replay_end(r0, now as int, i as int, REPLAY_BURST - sent),
                        frame_views(due@) == first + r0.frames.subrange(from as int, i as int),
                        forall|j: int| 0 <= j < due@.len() ==> (#[trigger] due@[j]).wf(),
                    decreases total - i,
                {
                    let ghost dv = frame_views(due@);
                    let ghost draw = due@;
                    let m = p.frames[i];
                    assert(p.frames@[i as int].wf());
                    due.push(m);
                    i = i + 1;
                    sent = sent + 1;
                    proof {
                        assert(r0.frames[i - 1] == m@);
                        assert(frame_views(due@) =~= dv.push(m@));
                        assert(frame_views(due@) =~= first + r0.frames.subrange(
                            from as int,
                            i as int,
                        ));
                        assert forall|j: int| 0 <= j < due@.len() implies (#[trigger] due@[j]).wf() by {
                            if j < draw.len() {
                                assert(draw[j].wf());
                            }
                        }
                    }
                }
                assert(i == end);
                p.idx = i;
                if i >= total {
                    if p.looped && total > 0 {
                        p.idx = 0;
                        p.loops = p.loops + 1;
                        p.start = later;
                    } else {
                        over = true;
                    }
                }
            },
            None => {
                assert(first + Seq::<Frame>::empty() =~= first);
            },
        }
        if over {
            self.replay = None;
            stats.replay = None;
            stats.push_event(ts, "Playback finished".to_string(), false);
        }
        due
    }

    fn next_periodic(&self) -> (r: Option<u64>)
        ensures
            match r {
                Some(t) => earliest(self@.periodic) == Some(t as int),
                None => earliest(self@.periodic) is None,
            },
    {
        let ghost all = self@.periodic;
        let mut best: Option<u64> = None;
        let mut i: usize = 0;
        while i < self.periodic.len()
            invariant
                i <= self.periodic@.len(),
                all == periodic_views(self.periodic@),
                match best {
                    Some(t) => earliest(all.take(i as int)) == Some(t as int),
                    None => earliest(all.take(i as int)) is None,
                },
            decreases self.periodic@.len() - i,
        {
            proof {
                assert(all.take(i + 1).drop_last() =~= all.take(i as int));
                assert(all.take(i + 1).last() == self.periodic@[i as int]@);
            }
            let p = &self.periodic[i];
            if p.enabled {
                best = match best {
                    Some(t) => if p.next < t {
                        Some(p.next)
                    } else {
                        Some(t)
                    },
                    None => Some(p.next),
                };
            }
            i = i + 1;
        }
        assert(all.take(i as int) =~= all);
        best
    }

    /// When something is to be sent next.
    pub fn next_deadline(&self) -> (r: Option<u128>)
        requires
            self.wf(),
        ensures
            match r {
                Some(t) => deadline(self@) == Some(t as int),
                None => deadline(self@) is None,
            },
    {
        let p: Option<u64> = self.next_periodic();
        let mut q: Option<u128> = None;
        match &self.replay {
            Some(x) => {
                if x.idx < x.frames.len() {
                    q = Some(x.start as u128 + x.offsets[x.idx] as u128);
                }
            },
            None => {},
        }
        match (p, q) {
            (Some(a), Some(b)) => if (a as u128) < b {
                Some(a as u128)
            } else {
                Some(b)
            },
            (Some(a), None) => Some(a as u128),
            (None, b) => b,
        }
    }

    /// How long to wait for the first frame: no longer than until the next deadline, and
    /// never more than [`MAX_WAIT`].
    pub fn wait_time(&self, now: u64) -> (r: u64)
        requires
            self.wf(),
        ensures
            r == (match deadline(self@) {
                Some(t) => least(greatest(t - now, 0), MAX_WAIT as int),
                None => MAX_WAIT as int,
            }),
            r == time_to_wait(deadline(self@), now as int),
    {
        match self.next_deadline() {
            Some(t) => {
                if t <= now as u128 {
                    0
                } else {
                    let gap: u128 = t - now as u128;
                    if gap < MAX_WAIT as u128 {
                        gap as u64
                    } else {
                        MAX_WAIT
                    }
                }
            },
            None => MAX_WAIT,
        }
    }
}

/// A periodic message that was due is next sent in the future or, without a stall, exactly
/// one period after it was due; it is never sent twice for one period.
pub proof fn law_no_burst_after_stall(p: PeriodicModel, now: int)
    requires
        p.enabled,
        p.next <= now,
        p.period > 0,
    ensures
        advanced(p, now).next >= now,
        advanced(p, now).next >= p.next + p.period,
{
}

/// Frames of a playback come out in order, each once: what is due now begins where the turn
/// before ended.
pub proof fn law_replay_in_order(r: ReplayModel, now: int, later: int)
    requires
        0 <= r.idx <= r.frames.len(),
        r.offsets.len() == r.frames.len(),
        replay_after(r, now, later) matches Some(n) && n.loops == r.loops,
    ensures
        replay_after(r, now, later)->Some_0.idx == r.idx + due_replay(r, now).len(),
        due_replay(r, now) == r.frames.subrange(r.idx, r.idx + due_replay(r, now).len()),
        forall|j: int|
            r.idx <= j < r.idx + due_replay(r, now).len() ==> r.start + #[trigger] r.offsets[j] <= now,
        due_replay(r, now).len() <= REPLAY_BURST,
{
    lemma_replay_end(r, now, r.idx, REPLAY_BURST as int);
}

/// A periodic message keeps its rate. Without a stall one that was due is next due exactly
/// one period after it was due; after a stall, one period from now. So no period is skipped
/// and none comes early; a message that is not due or not enabled is left as it is.
pub proof fn law_period_is_kept(p: PeriodicModel, now: int)
    requires
        p.period >= 0,
    ensures
        p.enabled && p.next <= now <= p.next + p.period ==> advanced(p, now).next == p.next + p.period,
        p.enabled && p.next + p.period < now ==> advanced(p, now).next == now + p.period,
        p.next <= now + p.period ==> advanced(p, now).next <= now + p.period,
        advanced(p, now).next >= p.next,
        !p.enabled || p.next > now ==> advanced(p, now) == p,
        advanced(p, now).period == p.period,
        advanced(p, now).msg == p.msg,
        advanced(p, now).id == p.id,
        advanced(p, now).enabled == p.enabled,
{
}

/// How many periodic messages are due.
pub open spec fn count_due(v: Seq<PeriodicModel>, now: int) -> int
    decreases v.len(),
{
    if v.len() == 0 {
        0
    } else {
        count_due(v.drop_last(), now) + if v.last().enabled && v.last().next <= now {
            1int
        } else {
            0int
        }
    }
}

/// Each enabled message whose time has come is sent once, in the order of the list, and
/// nothing else is: the message at `i` stands behind those due before it.
pub proof fn law_due_messages_are_sent(v: Seq<PeriodicModel>, now: int, i: int)
    requires
        0 <= i < v.len(),
    ensures
        due_periodic(v, now).len() == count_due(v, now),
        v[i].enabled && v[i].next <= now ==> 0 <= count_due(v.take(i), now) < due_periodic(
            v,
            now,
        ).len() && due_periodic(v, now)[count_due(v.take(i), now)] == v[i].msg,
    decreases v.len(),
{
    let w = v.drop_last();
    if w.len() > 0 {
        law_due_messages_are_sent(
            w,
            now,
            if i < w.len() {
                i
            } else {
                0
            },
        );
    } else {
        assert(due_periodic(w, now).len() == 0);
        assert(count_due(w, now) == 0);
    }
    lemma_count_due(v, now, i);
    if i < w.len() {
        assert(w.take(i) =~= v.take(i));
    } else {
        assert(v.take(i) =~= w);
    }
}

proof fn lemma_count_due(v: Seq<PeriodicModel>, now: int, n: int)
    requires
        0 <= n <= v.len(),
    ensures
        0 <= count_due(v.take(n), now) <= count_due(v, now),
    decreases v.len(),
{
    if n == v.len() {
        assert(v.take(n) =~= v);
    }
    if v.len() > 0 {
        let w = v.drop_last();
        if n < v.len() {
            lemma_count_due(w, now, n);
            assert(w.take(n) =~= v.take(n));
        } else {
            lemma_count_due(w, now, w.len() as int);
            assert(w.take(w.len() as int) =~= w);
        }
    } else {
        assert(v.take(n) =~= v);
    }
}

/// A playback never lags: when its turn leaves frames behind, either the next one is not due
/// yet or a full burst was sent. Frames that are due go out from where the turn before ended.
pub proof fn law_replay_keeps_up(r: ReplayModel, now: int)
    requires
        0 <= r.idx <= r.frames.len(),
        r.offsets.len() == r.frames.len(),
    ensures
        ({
            let n = due_replay(r, now).len();
            &&& r.idx + n <= r.frames.len()
            &&& n <= 1000
            &&& n < 1000 && r.idx + n < r.frames.len() ==> r.start + r.offsets[r.idx + n] > now
            &&& forall|j: int| 0 <= j < n ==> r.start + #[trigger] r.offsets[r.idx + j] <= now
            &&& forall|j: int| 0 <= j < n ==> #[trigger] due_replay(r, now)[j] == r.frames[r.idx + j]
        }),
{
    lemma_replay_end(r, now, r.idx, REPLAY_BURST as int);
    lemma_replay_stop(r, now, r.idx, REPLAY_BURST as int);
    let n = due_replay(r, now).len();
    assert forall|j: int| 0 <= j < n implies r.start + #[trigger] r.offsets[r.idx + j] <= now by {}
}

proof fn lemma_replay_stop(r: ReplayModel, now: int, i: int, budget: int)
    requires
        0 <= i <= r.frames.len(),
        budget >= 0,
    ensures
        replay_end(r, now, i, budget) < r.frames.len() && replay_end(r, now, i, budget) < i + budget
            ==> r.start + r.offsets[replay_end(r, now, i, budget)] > now,
    decreases budget,
{
    if budget <= 0 || i >= r.frames.len() || r.start + r.offsets[i] > now {
    } else {
        lemma_replay_stop(r, now, i + 1, budget - 1);
    }
}

/// A playback that has sent its last frame is over, or starts again from its first frame when
/// it is looped; one that has not goes on with its next frame, and is not started anew.
pub proof fn law_replay_ends_or_loops(r: ReplayModel, now: int, later: int)
    requires
        0 <= r.idx <= r.frames.len(),
        r.offsets.len() == r.frames.len(),
    ensures
        ({
            let n = due_replay(r, now).len();
            let at_end = r.idx + n == r.frames.len();
            &&& replay_after(r, now, later) is None <==> at_end && (!r.looped || r.frames.len() == 0)
            &&& replay_after(r, now, later) matches Some(x) ==> {
                &&& x.frames == r.frames && x.offsets == r.offsets && x.looped == r.looped
                &&& at_end ==> x.idx == 0 && x.loops == r.loops + 1 && x.start == later
                &&& !at_end ==> x.idx == r.idx + n && x.loops == r.loops && x.start == r.start
            }
        }),
{
    lemma_replay_end(r, now, r.idx, REPLAY_BURST as int);
}

/// The deadline is the earliest of all times at which something is to be sent: nothing is due
/// before it, and something is due at it.
pub proof fn law_deadline_is_the_earliest(w: WorkerModel, i: int)
    ensures
        0 <= i < w.periodic.len() && w.periodic[i].enabled ==> (deadline(w) matches Some(t) && t
            <= w.periodic[i].next),
        w.replay matches Some(r) ==> (0 <= r.idx < r.frames.len() ==> (deadline(w) matches Some(t)
            && t <= r.start + r.offsets[r.idx])),
        deadline(w) matches Some(t) ==> (exists|k: int|
            0 <= k < w.periodic.len() && (#[trigger] w.periodic[k]).enabled && w.periodic[k].next
                == t) || (w.replay matches Some(r) && r.idx < r.frames.len() && r.start
            + r.offsets[r.idx] == t),
{
    lemma_earliest(w.periodic, i);
}

proof fn lemma_earliest(v: Seq<PeriodicModel>, i: int)
    ensures
        0 <= i < v.len() && v[i].enabled ==> (earliest(v) matches Some(t) && t <= v[i].next),
        earliest(v) matches Some(t) ==> exists|k: int|
            0 <= k < v.len() && (#[trigger] v[k]).enabled && v[k].next == t,
    decreases v.len(),
{
    if v.len() > 0 {
        let w = v.drop_last();
        lemma_earliest(w, i);
        match earliest(w) {
            Some(t) => {
                let k = choose|k: int|
                    0 <= k < w.len() && (#[trigger] w[k]).enabled && w[k].next == t;
                assert(v[k] == w[k]);
            },
            None => {},
        }
        if i < w.len() && 0 <= i {
            assert(v[i] == w[i]);
        }
        let l = v.len() - 1;
        assert(v[l] == v.last());
    }
}

/// The wait ends no later than the deadline, nor after 5 ms, and is otherwise as long as it
/// can be.
pub proof fn law_waits_end_in_time(deadline: Option<int>, now: int)
    ensures
        0 <= time_to_wait(deadline, now) <= 5_000_000,
        deadline is None ==> time_to_wait(deadline, now) == 5_000_000,
        deadline matches Some(t) ==> {
            &&& t > now ==> now + time_to_wait(deadline, now) <= t
            &&& t <= now ==> time_to_wait(deadline, now) == 0
            &&& t > now ==> time_to_wait(deadline, now) == 5_000_000 || now + time_to_wait(
                deadline,
                now,
            ) == t
        },
{
}

/// The end of a playback is told once, as an event that is not severe; while it goes on
/// nothing is told.
pub proof fn law_playback_ends(s: StatsModel, w: WorkerModel, v: WorkerModel, ts: Real)
    ensures
        w.replay is None || v.replay is Some ==> stats_after_schedule(s, w, v, ts) == s,
        w.replay is Some && v.replay is None ==> {
            let t = stats_after_schedule(s, w, v, ts);
            &&& t.replay is None
            &&& t.events.len() > 0 && t.events.last().text == "Playback finished"@
            &&& !t.events.last().severe && t.events.last().ts == ts
            &&& t == StatsModel { replay: None, events: t.events, ..s }
        },
{
}

/// Taking out what is due touches the schedules and nothing else of a worker.
pub proof fn law_schedules_alone_go_on(w: WorkerModel, now: int, later: int, i: int)
    ensures
        ({
            let v = after_schedule(w, now, later);
            &&& v == WorkerModel { periodic: v.periodic, replay: v.replay, ..w }
            &&& v.periodic.len() == w.periodic.len()
            &&& 0 <= i < w.periodic.len() ==> {
                let (a, b) = (w.periodic[i], v.periodic[i]);
                &&& b.id == a.id && b.msg == a.msg && b.period == a.period && b.enabled == a.enabled
                &&& !a.enabled || a.next > now ==> b.next == a.next
                &&& a.enabled && a.next <= now && now <= a.next + a.period ==> b.next == a.next + a.period
                &&& a.enabled && a.next <= now && now > a.next + a.period ==> b.next == now + a.period
            }
            &&& w.replay is None ==> v.replay is None
            &&& (w.replay matches Some(p) ==> (v.replay matches Some(q) ==> q.frames == p.frames
                && q.offsets == p.offsets && q.looped == p.looped))
        }),
{
}

} // verus!
