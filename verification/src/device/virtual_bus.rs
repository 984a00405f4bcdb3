//! A simulated bus: synthetic traffic for demos and testing without hardware.
//!
//! Times are nanoseconds on a clock of the caller's choice.

use vstd::prelude::*;
use crate::device::{CtrlState, DeviceStatus};
use crate::msg::{data_frame, least, CanMsg};
use crate::number::Real;

verus! {

/// One message that the bus sends again and again.
#[derive(Debug, Clone, Copy, PartialEq, Eq, Structural)]
pub struct SimMsg {
    pub id: u32,
    pub ext: bool,
    pub period: u64,
    /// When the message is sent next.
    pub next: u64,
    pub counter: u32,
}

/// A simulated bus.
#[derive(Debug)]
pub struct VirtualDevice {
    pub msgs: Vec<SimMsg>,
    pub mode: String,
}

/// Measurements that the simulated engine makes.
#[derive(Debug, Clone, Copy, PartialEq, Eq, Structural)]
pub struct Readings {
    /// Engine speed in quarter turns per minute.
    pub rpm: u16,
    /// Coolant temperature in degrees over -40.
    pub temp: u8,
    /// Speed in hundredths.
    pub speed: u16,
    /// Whole seconds since the start.
    pub seconds: u32,
}

/// A message of the traffic plan: ID, format and period in microseconds.
pub struct PlanEntry {
    pub id: u32,
    pub ext: bool,
    pub micros: u64,
}

fn entry(id: u32, ext: bool, micros: u64) -> (r: PlanEntry)
    ensures
        r == (PlanEntry { id, ext, micros }),
{
    PlanEntry { id, ext, micros }
}

/// The traffic plan of a mode. `stress` makes 20 messages every 2 ms, `quiet` one a second.
pub open spec fn plan(mode: Seq<char>) -> Seq<PlanEntry> {
    if mode == "stress"@ {
        Seq::new(
            20,
            |i: int| PlanEntry { id: (0x100 + i) as u32, ext: i % 5 == 0, micros: 2000 },
        )
    } else if mode == "quiet"@ {
        seq![PlanEntry { id: 0x100, ext: false, micros: 1_000_000 }]
    } else {
        seq![
            PlanEntry { id: 0x0C0, ext: false, micros: 10_000 },
            PlanEntry { id: 0x100, ext: false, micros: 10_000 },
            PlanEntry { id: 0x200, ext: false, micros: 20_000 },
            PlanEntry { id: 0x201, ext: false, micros: 50_000 },
            PlanEntry { id: 0x300, ext: false, micros: 100_000 },
            PlanEntry { id: 0x7E8, ext: false, micros: 1_000_000 },
            PlanEntry { id: 0x18FEF100, ext: true, micros: 100_000 },
            PlanEntry { id: 0x0CF00400, ext: true, micros: 20_000 },
        ]
    }
}

fn make_plan(mode: &str) -> (r: Vec<PlanEntry>)
    ensures
        r@ == plan(mode@),
        r@.len() <= 20,
        forall|i: int| 0 <= i < r@.len() ==> 2000 <= (#[trigger] r@[i]).micros <= 1_000_000,
        r@.len() > 0,
{
    let mut v: Vec<PlanEntry> = Vec::new();
    let m = crate::text::chars_of(mode);
    if crate::text::is_text(m.as_slice(), "stress") {
        let mut i: u32 = 0;
        while i < 20
            invariant
                i <= 20,
                v@.len() == i,
                forall|j: int|
                    0 <= j < i ==> #[trigger] v@[j] == (PlanEntry {
                        id: (0x100 + j) as u32,
                        ext: j % 5 == 0,
                        micros: 2000,
                    }),
            decreases 20 - i,
        {
            v.push(entry(0x100 + i, i % 5 == 0, 2000));
            i = i + 1;
        }
    } else if crate::text::is_text(m.as_slice(), "quiet") {
        v.push(entry(0x100, false, 1_000_000));
    } else {
        v.push(entry(0x0C0, false, 10_000));
        v.push(entry(0x100, false, 10_000));
        v.push(entry(0x200, false, 20_000));
        v.push(entry(0x201, false, 50_000));
        v.push(entry(0x300, false, 100_000));
        v.push(entry(0x7E8, false, 1_000_000));
        v.push(entry(0x18FEF100, true, 100_000));
        v.push(entry(0x0CF00400, true, 20_000));
    }
    assert(v@ =~= plan(mode@));
    v
}

/// The data of a message at a value of its counter.
pub open spec fn payload_of(id: u32, c: int, r: Readings) -> Seq<u8> {
    if id == 0x0C0 {
        seq![(c % 256) as u8, (c / 256 % 256) as u8]
    } else if id == 0x100 {
        seq![
            (r.rpm % 256) as u8,
            (r.rpm / 256) as u8,
            r.temp,
            0,
            0,
            0,
            0,
            (c % 16) as u8,
        ]
    } else if id == 0x200 {
        seq![
            (r.speed / 256) as u8,
            (r.speed % 256) as u8,
            (r.seconds / 5 % 7) as u8,
            0,
            0,
            0,
        ]
    } else if id == 0x201 {
        seq![(c % 4) as u8, (c % 256) as u8, 0xAA, 0x55]
    } else if id == 0x7E8 {
        seq![0x03, 0x41, 0x0C, (c % 256) as u8, 0, 0, 0, 0]
    } else {
        Seq::new(8, |i: int| ((c + i) % 256) as u8)
    }
}

/// The data of a message.
pub fn payload(m: &SimMsg, r: Readings) -> (d: Vec<u8>)
    ensures
        d@ == payload_of(m.id, m.counter as int, r),
        d@.len() <= 8,
{
    let c: u32 = m.counter;
    let mut v: Vec<u8> = Vec::new();
    if m.id == 0x0C0 {
        v.push((c % 256) as u8);
        v.push((c / 256 % 256) as u8);
    } else if m.id == 0x100 {
        v.push((r.rpm % 256) as u8);
        v.push((r.rpm / 256) as u8);
        v.push(r.temp);
        v.push(0);
        v.push(0);
        v.push(0);
        v.push(0);
        v.push((c % 16) as u8);
    } else if m.id == 0x200 {
        v.push((r.speed / 256) as u8);
        v.push((r.speed % 256) as u8);
        v.push((r.seconds / 5 % 7) as u8);
        v.push(0);
        v.push(0);
        v.push(0);
    } else if m.id == 0x201 {
        v.push((c % 4) as u8);
        v.push((c % 256) as u8);
        v.push(0xAA);
        v.push(0x55);
    } else if m.id == 0x7E8 {
        v.push(0x03);
        v.push(0x41);
        v.push(0x0C);
        v.push((c % 256) as u8);
        v.push(0);
        v.push(0);
        v.push(0);
        v.push(0);
    } else {
        let mut i: u64 = 0;
        while i < 8
            invariant
                i <= 8,
                v@.len() == i,
                forall|j: int| 0 <= j < i ==> #[trigger] v@[j] == ((c + j) % 256) as u8,
            decreases 8 - i,
        {
            v.push(((c as u64 + i) % 256) as u8);
            i = i + 1;
        }
    }
    assert(v@ =~= payload_of(m.id, m.counter as int, r));
    v
}

/// Nanoseconds in a second.
pub const SECOND: u64 = 1_000_000_000;

/// What one sending makes of a message: the counter goes on, and the next time is one
/// period later, or, when that is more than a second ago, one period from now.
pub open spec fn after_sending(m: SimMsg, now: int) -> SimMsg {
    SimMsg {
        counter: ((m.counter + 1) % 0x1_0000_0000) as u32,
        next: (if now - (m.next + m.period) > SECOND {
            now + m.period
        } else {
            m.next + m.period
        }) as u64,
        ..m
    }
}

/// The message at place `i` of a plan, as the bus starts at time `now`.
pub open spec fn starting(e: PlanEntry, now: int, i: int) -> SimMsg {
    SimMsg {
        id: e.id,
        ext: e.ext,
        period: (e.micros * 1000) as u64,
        next: (now + i * 137_000) as u64,
        counter: 0,
    }
}

/// How long to wait for a message, `timeout` at most; none where it is due.
pub open spec fn time_before(next: u64, now: u64, timeout: u64) -> Option<u64> {
    if next <= now {
        None
    } else if next - now < timeout {
        Some((next - now) as u64)
    } else {
        Some(timeout)
    }
}

impl VirtualDevice {
    /// There is traffic, and no message waits longer than a second between sendings.
    pub open spec fn wf(self) -> bool {
        &&& self.msgs@.len() > 0
        &&& forall|i: int| 0 <= i < self.msgs@.len() ==> (#[trigger] self.msgs@[i]).period <= SECOND
    }

    /// A bus with the traffic of the given mode, starting now. Messages start a little
    /// apart.
    pub fn new(mode: &str, now: u64) -> (r: Self)
        requires
            now <= u64::MAX - SECOND,
        ensures
            r.wf(),
            r.mode@ == mode@,
            r.msgs@.len() == plan(mode@).len(),
            forall|i: int|
                0 <= i < r.msgs@.len() ==> #[trigger] r.msgs@[i] == (SimMsg {
                    id: plan(mode@)[i].id,
                    ext: plan(mode@)[i].ext,
                    period: (plan(mode@)[i].micros * 1000) as u64,
                    next: (now + i * 137_000) as u64,
                    counter: 0,
                }),
            forall|i: int|
                0 <= i < r.msgs@.len() ==> #[trigger] r.msgs@[i] == starting(
                    plan(mode@)[i],
                    now as int,
                    i,
                ),
    {
        let p = make_plan(mode);
        let mut msgs: Vec<SimMsg> = Vec::new();
        let mut i: usize = 0;
        while i < p.len()
            invariant
                i <= p@.len(),
                p@.len() <= 20,
                now <= u64::MAX - SECOND,
                forall|j: int| 0 <= j < p@.len() ==> 2000 <= (#[trigger] p@[j]).micros <= 1_000_000,
                msgs@.len() == i,
                forall|j: int|
                    0 <= j < i ==> #[trigger] msgs@[j] == (SimMsg {
                        id: p@[j].id,
                        ext: p@[j].ext,
                        period: (p@[j].micros * 1000) as u64,
                        next: (now + j * 137_000) as u64,
                        counter: 0,
                    }),
            decreases p@.len() - i,
        {
            let e = &p[i];
            assert(e.micros <= 1_000_000);
            msgs.push(
                SimMsg {
                    id: e.id,
                    ext: e.ext,
                    period: e.micros * 1000,
                    next: now + (i as u64) * 137_000,
                    counter: 0,
                },
            );
            i = i + 1;
        }
        proof {
            assert forall|j: int| 0 <= j < msgs@.len() implies (#[trigger] msgs@[j]).period <= SECOND by {
                assert(p@[j].micros <= 1_000_000);
            }
        }
        VirtualDevice { msgs, mode: mode.to_string() }
    }

    /// Whether message `i` is the one to be sent next: none is due earlier, and none with
    /// the same time stands before it.
    pub open spec fn is_first(self, i: int) -> bool {
        &&& 0 <= i < self.msgs@.len()
        &&& forall|j: int| 0 <= j < self.msgs@.len() ==> self.msgs@[i].next <= (#[trigger] self.msgs@[j]).next
        &&& forall|j: int| 0 <= j < i ==> self.msgs@[i].next < (#[trigger] self.msgs@[j]).next
    }

    /// Which message is sent next.
    pub fn first(&self) -> (r: usize)
        requires
            self.wf(),
        ensures
            self.is_first(r as int),
    {
        let mut best: usize = 0;
        let mut i: usize = 1;
        while i < self.msgs.len()
            invariant
                0 < i <= self.msgs@.len(),
                best < i,
                forall|j: int| 0 <= j < i ==> self.msgs@[best as int].next <= (#[trigger] self.msgs@[j]).next,
                forall|j: int| 0 <= j < best ==> self.msgs@[best as int].next < (#[trigger] self.msgs@[j]).next,
            decreases self.msgs@.len() - i,
        {
            if self.msgs[i].next < self.msgs[best].next {
                best = i;
            }
            i = i + 1;
        }
        best
    }

    /// How long to wait for the next message, at most `timeout`; `None` when it is due.
    pub fn wait(&self, now: u64, timeout: u64) -> (r: Option<u64>)
        requires
            self.wf(),
        ensures
            forall|i: int|
                #[trigger] self.is_first(i) ==> r == (if self.msgs@[i].next > now {
                    Some(least(self.msgs@[i].next - now, timeout as int) as u64)
                } else {
                    None
                }),
            forall|i: int|
                #[trigger] self.is_first(i) ==> r == time_before(self.msgs@[i].next, now, timeout),
    {
        let i: usize = self.first();
        let next: u64 = self.msgs[i].next;
        proof {
            assert forall|j: int| #[trigger] self.is_first(j) implies j == i by {
                self.lemma_first(i as int, j);
            }
        }
        if next > now {
            let gap: u64 = next - now;
            if gap < timeout {
                Some(gap)
            } else {
                Some(timeout)
            }
        } else {
            None
        }
    }

    /// Only one message is the first.
    pub proof fn lemma_first(self, a: int, b: int)
        requires
            self.is_first(a),
            self.is_first(b),
        ensures
            a == b,
    {
        if a < b {
            assert(self.msgs@[b].next < self.msgs@[a].next);
        } else if b < a {
            assert(self.msgs@[a].next < self.msgs@[b].next);
        }
    }

    /// Sends the next message, if it is due.
    pub fn send_next(&mut self, now: u64, ts: Real, readings: Readings) -> (r: Option<CanMsg>)
        requires
            old(self).wf(),
            now <= u64::MAX - SECOND,
        ensures
            final(self).wf(),
            final(self).mode == old(self).mode,
            forall|i: int|
                #[trigger] old(self).is_first(i) ==> if old(self).msgs@[i].next <= now {
                    let m = old(self).msgs@[i];
                    &&& r matches Some(f) && f.wf() && f@ == data_frame(
                        ts,
                        m.id,
                        m.ext,
                        payload_of(m.id, m.counter as int, readings),
                    )
                    &&& final(self).msgs@ == old(self).msgs@.update(i, after_sending(m, now as int))
                } else {
                    r is None && final(self).msgs@ == old(self).msgs@
                },
    {
        let i: usize = self.first();
        proof {
            assert forall|j: int| #[trigger] old(self).is_first(j) implies j == i by {
                old(self).lemma_first(i as int, j);
            }
        }
        let m: SimMsg = self.msgs[i];
        if m.next > now {
            return None;
        }
        let d = payload(&m, readings);
        let f = CanMsg::new(ts, m.id, m.ext, d.as_slice());
        let counter: u32 = if m.counter == u32::MAX {
            0
        } else {
            m.counter + 1
        };
        let mut next: u64 = m.next + m.period;
        if now > next && now - next > SECOND {
            next = now + m.period;
        }
        let n = SimMsg { id: m.id, ext: m.ext, period: m.period, next, counter };
        assert(n == after_sending(m, now as int));
        self.msgs.set(i, n);
        assert forall|j: int| 0 <= j < self.msgs@.len() implies (#[trigger] self.msgs@[j]).period
            <= SECOND by {
            assert(old(self).msgs@[j].period <= SECOND);
        }
        Some(f)
    }

    /// The state of the simulated controller.
    pub fn status(&self) -> (r: DeviceStatus)
        ensures
            r == (DeviceStatus { state: CtrlState::ErrorActive, tec: Some(0), rec: Some(0) }),
    {
        DeviceStatus { state: CtrlState::ErrorActive, tec: Some(0), rec: Some(0) }
    }
}

/// However long the bus slept, a message that was just sent is at most a second behind,
/// and it is never sent again before one period has passed since it was due.
pub proof fn law_no_burst(m: SimMsg, now: int)
    requires
        m.next <= now,
        now + m.period <= u64::MAX,
    ensures
        now - after_sending(m, now).next <= SECOND,
        after_sending(m, now).next >= m.next + m.period,
{
}

/// The messages of a simulated bus: one a second on a quiet one; on a busy one twenty, every
/// 2 ms each, every fifth of them extended; otherwise eight, with IDs that differ, the fastest
/// every 10 ms and the slowest once a second. Every ID fits its format.
pub proof fn law_plans(mode: Seq<char>, i: int, j: int)
    requires
        0 <= i < plan(mode).len(),
        0 <= j < plan(mode).len(),
    ensures
        i != j ==> plan(mode)[i].id != plan(mode)[j].id,
        plan(mode)[i].id < (if plan(mode)[i].ext {
            0x2000_0000
        } else {
            0x800u32
        }),
        mode == "quiet"@ ==> plan(mode).len() == 1 && plan(mode)[i].micros == 1_000_000,
        mode == "stress"@ ==> {
            &&& plan(mode).len() == 20
            &&& plan(mode)[i].micros == 2_000
            &&& plan(mode)[i].id == 0x100 + i
            &&& plan(mode)[i].ext == (i == 0 || i == 5 || i == 10 || i == 15)
        },
        mode != "quiet"@ && mode != "stress"@ ==> {
            &&& plan(mode).len() == 8
            &&& 10_000 <= plan(mode)[i].micros <= 1_000_000
            &&& plan(mode)[i].id == 0x0C0 || plan(mode)[i].id == 0x100 ==> plan(mode)[i].micros == 10_000
            &&& plan(mode)[i].id == 0x200 || plan(mode)[i].id == 0x0CF0_0400 ==> plan(mode)[i].micros
                == 20_000
            &&& plan(mode)[i].id == 0x201 ==> plan(mode)[i].micros == 50_000
            &&& plan(mode)[i].id == 0x300 || plan(mode)[i].id == 0x18FE_F100 ==> plan(mode)[i].micros
                == 100_000
            &&& plan(mode)[i].id == 0x7E8 ==> plan(mode)[i].micros == 1_000_000
            &&& plan(mode)[i].ext == (i >= 6)
        },
{
    reveal_strlit("quiet");
    reveal_strlit("stress");
    assert("quiet"@.len() != "stress"@.len());
}

/// What the simulated messages hold: the counter in two bytes, low byte first; engine speed,
/// low byte first, temperature and the low digit of the counter; road speed, high byte first,
/// and a gear that goes on every five seconds; and in the others the counter in the byte for
/// it, which goes on by one with each frame.
pub proof fn law_payloads(id: u32, c: int, r: Readings, i: int)
    requires
        c >= 0,
    ensures
        ({
            let d = payload_of(0x0C0, c, r);
            d.len() == 2 && d[0] + 256 * d[1] == c % 65536
        }),
        ({
            let d = payload_of(0x100, c, r);
            d.len() == 8 && d[0] + 256 * d[1] == r.rpm && d[2] == r.temp && d[7] == c % 16
        }),
        ({
            let d = payload_of(0x200, c, r);
            d.len() == 6 && 256 * d[0] + d[1] == r.speed && d[2] == (r.seconds as int / 5) % 7
        }),
        ({
            let d = payload_of(0x201, c, r);
            d.len() == 4 && d[0] == c % 4 && d[1] == c % 256
        }),
        ({
            let d = payload_of(0x7E8, c, r);
            d.len() == 8 && d[0] == 3 && d[3] == c % 256
        }),
        id != 0x0C0 && id != 0x100 && id != 0x200 && id != 0x201 && id != 0x7E8 && 0 <= i < 8 ==> {
            &&& payload_of(id, c, r).len() == 8
            &&& payload_of(id, c, r)[i] == (c + i) % 256
            &&& i < 7 ==> payload_of(id, c + 1, r)[i] == payload_of(id, c, r)[i + 1]
        },
        payload_of(id, c, r).len() <= 8,
{
    assert(c % 256 + 256 * (c / 256 % 256) == c % 65536);
    assert(c + 1 + i == c + (i + 1));
}

/// A message that was sent in time is due one period later; one that is more than a second
/// late starts anew from now. Its counter goes on by one, from the highest number to 0;
/// nothing else of it changes.
pub proof fn law_messages_go_on(m: SimMsg, now: int)
    requires
        m.next <= now,
        now + m.period <= u64::MAX,
    ensures
        ({
            let a = after_sending(m, now);
            &&& now <= m.next + m.period + 1_000_000_000 ==> a.next == m.next + m.period
            &&& now > m.next + m.period + 1_000_000_000 ==> a.next == now + m.period
            &&& m.counter < u32::MAX ==> a.counter == m.counter + 1
            &&& m.counter == u32::MAX ==> a.counter == 0
            &&& a.id == m.id && a.ext == m.ext && a.period == m.period
        }),
{
}

/// The messages start one after the other, 137 microseconds apart, each with its period in
/// nanoseconds and its counter at 0.
pub proof fn law_messages_start_apart(a: PlanEntry, b: PlanEntry, now: int, i: int)
    requires
        0 <= now,
        0 <= i < 20,
        now + 20 * 137_000 <= u64::MAX,
        a.micros <= 1_000_000,
    ensures
        starting(a, now, 0).next == now,
        starting(b, now, i + 1).next == starting(a, now, i).next + 137_000,
        starting(a, now, i).id == a.id && starting(a, now, i).ext == a.ext,
        starting(a, now, i).period == 1000 * a.micros,
        starting(a, now, i).counter == 0,
{
}

/// The wait is neither longer than asked for nor past the time of the message, and none where
/// that has come.
pub proof fn law_waits_for_messages(next: u64, now: u64, timeout: u64)
    ensures
        (time_before(next, now, timeout) is None) == (next <= now),
        time_before(next, now, timeout) matches Some(w) ==> w <= timeout && now + w <= next && (w
            == timeout || now + w == next),
{
}

} // verus!
