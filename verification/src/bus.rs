//! The bus: what every received and transmitted frame does to the shared state.
//!
//! Each frame is
//!   1. applied to the per-ID [`Summary`] (never dropped),
//!   2. counted for the recording, if one is active (never dropped),
//!   3. decoded into per-signal values (min/max/history) when a symbol file is loaded
//!      (never dropped),
//!   4. offered to the live stream (may be dropped if the view cannot keep up; drops are
//!      counted).

use std::collections::{HashMap, VecDeque};
use vstd::prelude::*;
use crate::device::CtrlState;
use crate::msg::{law_codes_tell_keys_apart, CanMsg, Dir, Frame, MsgKey};
use crate::number::Real;

pub mod flush;
pub mod schedule;
pub mod signals;
pub mod worker;

verus! {

/// Frames that the live stream holds at most.
pub const STREAM_CHANNEL_CAP: usize = 200_000;

/// Events kept.
pub const MAX_EVENTS: usize = 1000;

/// Seconds of load history kept.
pub const HISTORY_SECS: usize = 300;

/// Samples of history kept per decoded signal.
pub const SIGNAL_HISTORY: usize = 20_000;

/// The numbers about the time between two frames that take floating point.
#[derive(Debug, Clone, Copy, PartialEq, Eq, Structural)]
pub struct Step {
    /// Seconds since the frame before.
    pub dt: Real,
    /// The moving average of the period, with this time taken in.
    pub blend: Real,
}

/// What the next step is computed from: how many frames there were, the time of the last
/// one and the average period.
#[derive(Debug, Clone, Copy, PartialEq, Eq, Structural)]
pub struct Timer {
    pub count: u64,
    pub ts: Real,
    pub period: Real,
}

/// The average period after a frame: the first time between frames counts as it is, later
/// ones are blended in; a step back in time changes nothing.
pub open spec fn next_period(count: int, period: Real, step: Step) -> Real {
    if count == 0 || !step.dt.is_nonneg() {
        period
    } else if count == 1 {
        step.dt
    } else {
        step.blend
    }
}

impl Timer {
    /// The timer after a frame at `ts`.
    pub fn advance(&self, ts: Real, step: Step) -> (r: Timer)
        requires
            self.count < u64::MAX,
        ensures
            r == (Timer {
                count: (self.count + 1) as u64,
                ts,
                period: next_period(self.count as int, self.period, step),
            }),
    {
        let period = if self.count == 0 || !step.dt.nonneg() {
            self.period
        } else if self.count == 1 {
            step.dt
        } else {
            step.blend
        };
        Timer { count: self.count + 1, ts, period }
    }
}

/// Statistics about the frames of one message.
#[derive(Debug, Clone, Copy)]
pub struct IdStats {
    pub key: MsgKey,
    pub count: u64,
    pub rx_count: u64,
    pub tx_count: u64,
    pub last: CanMsg,
    /// Wall-clock time (unix secs) at which the last frame was processed.
    pub last_wall: Real,
    /// Exponential moving average of the inter-frame period, seconds.
    pub period: Real,
    pub period_min: Real,
    pub period_max: Real,
    /// Wall-clock time at which each data byte last changed (for highlighting).
    pub byte_changed: [Real; 64],
    pub dlc_changes: u64,
}

/// What statistics say.
#[verifier::ext_equal]
pub ghost struct IdModel {
    pub key: MsgKey,
    pub count: int,
    pub rx_count: int,
    pub tx_count: int,
    pub last: Frame,
    pub last_wall: Real,
    pub period: Real,
    pub period_min: Real,
    pub period_max: Real,
    pub byte_changed: Seq<Real>,
    pub dlc_changes: int,
}

impl View for IdStats {
    type V = IdModel;

    open spec fn view(&self) -> IdModel {
        IdModel {
            key: self.key,
            count: self.count as int,
            rx_count: self.rx_count as int,
            tx_count: self.tx_count as int,
            last: self.last@,
            last_wall: self.last_wall,
            period: self.period,
            period_min: self.period_min,
            period_max: self.period_max,
            byte_changed: self.byte_changed@,
            dlc_changes: self.dlc_changes as int,
        }
    }
}

/// The greatest finite number.
pub open spec fn greatest_real() -> Real {
    Real { bits: 0x7FEF_FFFF_FFFF_FFFF }
}

/// Statistics before the first frame.
pub open spec fn no_frames(m: Frame, wall: Real) -> IdModel {
    IdModel {
        key: MsgKey { id: m.id, ext: m.ext },
        count: 0,
        rx_count: 0,
        tx_count: 0,
        last: m,
        last_wall: wall,
        period: Real { bits: 0 },
        period_min: greatest_real(),
        period_max: Real { bits: 0 },
        byte_changed: Seq::new(64, |i: int| Real { bits: 0 }),
        dlc_changes: 0,
    }
}

impl IdModel {
    /// Whether byte `i` of a frame differs from that of the last one.
    pub open spec fn byte_differs(self, m: Frame, i: int) -> bool {
        i < m.len && (i >= self.last.len || m.data[i] != self.last.data[i])
    }

    /// The statistics after one more frame.
    pub open spec fn updated(self, m: Frame, wall: Real, step: Step) -> IdModel {
        let timed = self.count > 0 && step.dt.is_nonneg();
        IdModel {
            key: self.key,
            count: self.count + 1,
            rx_count: if m.dir == Dir::Rx {
                self.rx_count + 1
            } else {
                self.rx_count
            },
            tx_count: if m.dir == Dir::Tx {
                self.tx_count + 1
            } else {
                self.tx_count
            },
            last: m,
            last_wall: wall,
            period: next_period(self.count, self.period, step),
            period_min: if timed {
                self.period_min.lower_of(step.dt)
            } else {
                self.period_min
            },
            period_max: if timed {
                self.period_max.upper_of(step.dt)
            } else {
                self.period_max
            },
            byte_changed: Seq::new(
                64,
                |i: int|
                    if self.count > 0 && self.byte_differs(m, i) {
                        wall
                    } else {
                        self.byte_changed[i]
                    },
            ),
            dlc_changes: if self.count > 0 && m.len != self.last.len {
                self.dlc_changes + 1
            } else {
                self.dlc_changes
            },
        }
    }

    /// What the next step is computed from.
    pub open spec fn timer(self) -> Timer {
        Timer { count: self.count as u64, ts: self.last.ts, period: self.period }
    }

    /// Every frame was received or sent, and the last one is well formed.
    pub open spec fn wf(self) -> bool {
        &&& self.count == self.rx_count + self.tx_count
        &&& 0 <= self.rx_count
        &&& 0 <= self.tx_count
        &&& 0 <= self.dlc_changes <= self.count
        &&& 0 <= self.last.len <= 64
    }
}

impl IdStats {
    /// Statistics before the first frame.
    pub fn new(msg: &CanMsg, wall: Real) -> (r: Self)
        requires
            msg.wf(),
        ensures
            r@ == no_frames(msg@, wall),
            r@.wf(),
    {
        let none: [Real; 64] = [Real { bits: 0 };64];
        assert(none@ =~= Seq::new(64, |i: int| Real { bits: 0 }));
        IdStats {
            key: msg.key(),
            count: 0,
            rx_count: 0,
            tx_count: 0,
            last: *msg,
            last_wall: wall,
            period: Real { bits: 0 },
            period_min: Real { bits: 0x7FEF_FFFF_FFFF_FFFF },
            period_max: Real { bits: 0 },
            byte_changed: none,
            dlc_changes: 0,
        }
    }

    /// Takes in one more frame.
    pub fn update(&mut self, msg: &CanMsg, wall: Real, step: Step)
        requires
            old(self)@.wf(),
            old(self).count < u64::MAX,
            msg.wf(),
        ensures
            final(self)@ == old(self)@.updated(msg@, wall, step),
            final(self)@.wf(),
    {
        let ghost before = self@;
        if self.count > 0 {
            if step.dt.nonneg() {
                self.period = if self.count == 1 {
                    step.dt
                } else {
                    step.blend
                };
                self.period_min = self.period_min.lower(step.dt);
                self.period_max = self.period_max.upper(step.dt);
            }
            if msg.len != self.last.len {
                self.dlc_changes = self.dlc_changes + 1;
            }
            let n: usize = msg.len as usize;
            let m: usize = self.last.len as usize;
            let ghost mid = self@;
            let mut i: usize = 0;
            while i < n
                invariant
                    i <= n,
                    n == msg.len,
                    n <= 64,
                    m == self.last.len,
                    m <= 64,
                    mid.last == before.last,
                    self@ == (IdModel { byte_changed: self@.byte_changed, ..mid }),
                    mid.byte_changed == before.byte_changed,
                    before.last == self.last@,
                    forall|j: int|
                        0 <= j < 64 ==> #[trigger] self@.byte_changed[j] == (if j < i
                            && before.byte_differs(msg@, j) {
                            wall
                        } else {
                            before.byte_changed[j]
                        }),
                decreases n - i,
            {
                if i >= m || msg.data[i] != self.last.data[i] {
                    self.byte_changed[i] = wall;
                }
                i = i + 1;
            }
        }
        self.count = self.count + 1;
        match msg.dir {
            Dir::Rx => {
                self.rx_count = self.rx_count + 1;
            },
            Dir::Tx => {
                self.tx_count = self.tx_count + 1;
            },
        }
        self.last = *msg;
        self.last_wall = wall;
        assert(self@.byte_changed =~= before.updated(msg@, wall, step).byte_changed);
        assert(self@ =~= before.updated(msg@, wall, step));
    }
}

/// The timer that the statistics hold goes on as [`Timer::advance`] says.
pub proof fn law_timer_follows(s: IdModel, m: Frame, wall: Real, step: Step)
    requires
        0 <= s.count < u64::MAX,
    ensures
        s.updated(m, wall, step).timer() == (Timer {
            count: (s.timer().count + 1) as u64,
            ts: m.ts,
            period: next_period(s.timer().count as int, s.timer().period, step),
        }),
{
}

/// How many frames some statistics count altogether.
pub open spec fn count_sum(m: Map<u64, IdModel>) -> int
    decreases m.dom().len(),
    when m.dom().finite()
{
    if m.dom().len() == 0 {
        0
    } else {
        let k = m.dom().choose();
        m[k].count + count_sum(m.remove(k))
    }
}

/// The sum is the same whichever entry is taken out first.
pub proof fn lemma_count_sum(m: Map<u64, IdModel>, k: u64)
    requires
        m.dom().finite(),
        m.dom().contains(k),
    ensures
        count_sum(m) == m[k].count + count_sum(m.remove(k)),
    decreases m.dom().len(),
{
    let c = m.dom().choose();
    assert(m.dom().contains(c));
    if c != k {
        let a = m.remove(c);
        let b = m.remove(k);
        assert(m.remove(c).dom() =~= m.dom().remove(c));
        assert(m.remove(k).dom() =~= m.dom().remove(k));
        lemma_count_sum(a, k);
        lemma_count_sum(b, c);
        assert(a.remove(k) =~= b.remove(c));
    }
}

/// The sum after one entry was put in or replaced.
pub proof fn lemma_count_insert(m: Map<u64, IdModel>, k: u64, v: IdModel)
    requires
        m.dom().finite(),
    ensures
        count_sum(m.insert(k, v)) == count_sum(m) + v.count - (if m.dom().contains(k) {
            m[k].count
        } else {
            0
        }),
{
    let n = m.insert(k, v);
    assert(n.dom() =~= m.dom().insert(k));
    lemma_count_sum(n, k);
    if m.dom().contains(k) {
        lemma_count_sum(m, k);
        assert(n.remove(k) =~= m.remove(k));
    } else {
        assert(n.remove(k) =~= m);
    }
}

/// An entry counts no more than all of them.
pub proof fn lemma_count_bound(m: Map<u64, IdModel>, k: u64)
    requires
        m.dom().finite(),
        forall|c: u64| #[trigger] m.dom().contains(c) ==> m[c].count >= 0,
    ensures
        count_sum(m) >= 0,
        m.dom().contains(k) ==> m[k].count <= count_sum(m),
    decreases m.dom().len(),
{
    if m.dom().len() > 0 {
        let c = if m.dom().contains(k) {
            k
        } else {
            m.dom().choose()
        };
        assert(m.dom().contains(c));
        lemma_count_sum(m, c);
        let n = m.remove(c);
        assert(n.dom() =~= m.dom().remove(c));
        lemma_count_bound(n, c);
    }
}

/// Statistics for each message, under the code of its key.
pub struct Summary {
    pub entries: HashMap<u64, IdStats>,
    pub total: u64,
    /// Incremented on every change so that views can skip redundant work.
    pub generation: u64,
}

/// The contents of statistics.
pub open spec fn id_views(m: Map<u64, IdStats>) -> Map<u64, IdModel> {
    Map::new(|k: u64| m.dom().contains(k), |k: u64| m[k]@)
}

impl View for Summary {
    type V = Map<u64, IdModel>;

    open spec fn view(&self) -> Map<u64, IdModel> {
        id_views(self.entries@)
    }
}

/// The statistics after one more frame.
pub open spec fn with_frame(s: Map<u64, IdModel>, m: Frame, wall: Real, step: Step) -> Map<
    u64,
    IdModel,
> {
    let key = MsgKey { id: m.id, ext: m.ext };
    let code = key.code_spec();
    let before = if s.dom().contains(code) {
        s[code]
    } else {
        no_frames(m, wall)
    };
    s.insert(code, before.updated(m, wall, step))
}

/// The statistics after some frames.
pub open spec fn with_frames(
    s: Map<u64, IdModel>,
    f: Seq<Frame>,
    wall: Real,
    steps: Seq<Step>,
) -> Map<u64, IdModel>
    decreases f.len(),
{
    if f.len() == 0 {
        s
    } else {
        with_frame(
            with_frames(s, f.drop_last(), wall, steps),
            f.last(),
            wall,
            steps[f.len() - 1],
        )
    }
}

impl Default for Summary {
    fn default() -> (r: Self)
        ensures
            r@ == Map::<u64, IdModel>::empty(),
            r.total == 0,
            r.generation == 0,
            r.wf(),
    {
        broadcast use vstd::std_specs::hash::group_hash_axioms;

        let r = Summary { entries: HashMap::new(), total: 0, generation: 0 };
        assert(r@ =~= Map::<u64, IdModel>::empty());
        r
    }
}

/// How many frames an ID has had.
pub open spec fn frames_seen(s: Map<u64, IdModel>, key: MsgKey) -> int {
    if s.dom().contains(key.code_spec()) {
        s[key.code_spec()].count
    } else {
        0
    }
}

/// How many of some frames have an ID.
pub open spec fn frames_with(f: Seq<Frame>, key: MsgKey) -> int
    decreases f.len(),
{
    if f.len() == 0 {
        0
    } else {
        frames_with(f.drop_last(), key) + if f.last().id == key.id && f.last().ext == key.ext {
            1int
        } else {
            0int
        }
    }
}

/// Each ID counts exactly the frames that it has had.
pub proof fn law_each_id_counts_its_frames(
    s: Map<u64, IdModel>,
    f: Seq<Frame>,
    wall: Real,
    steps: Seq<Step>,
    key: MsgKey,
)
    ensures
        frames_seen(with_frames(s, f, wall, steps), key) == frames_seen(s, key) + frames_with(f, key),
    decreases f.len(),
{
    if f.len() > 0 {
        law_each_id_counts_its_frames(s, f.drop_last(), wall, steps, key);
        law_codes_tell_keys_apart(MsgKey { id: f.last().id, ext: f.last().ext }, key);
    }
}

impl Summary {
    /// Every frame is counted once, under its own key.
    pub open spec fn wf(self) -> bool {
        &&& self@.dom().finite()
        &&& count_sum(self@) == self.total
        &&& forall|c: u64| #[trigger] self@.dom().contains(c) ==> self@[c].wf() && self@[c].count > 0
            && self@[c].key.code_spec() == c
    }

    /// The statistics of a message.
    pub fn get(&self, key: MsgKey) -> (r: Option<&IdStats>)
        ensures
            match r {
                Some(e) => self@.dom().contains(key.code_spec()) && e@ == self@[key.code_spec()],
                None => !self@.dom().contains(key.code_spec()),
            },
    {
        broadcast use vstd::std_specs::hash::group_hash_axioms;

        self.entries.get(&key.code())
    }

    /// What the next step of a message is computed from; a count of zero for a message
    /// that was not seen yet.
    pub fn timer(&self, key: MsgKey) -> (r: Timer)
        ensures
            r == (if self@.dom().contains(key.code_spec()) {
                self@[key.code_spec()].timer()
            } else {
                Timer { count: 0, ts: Real { bits: 0 }, period: Real { bits: 0 } }
            }),
    {
        match self.get(key) {
            Some(e) => Timer { count: e.count, ts: e.last.ts, period: e.period },
            None => Timer { count: 0, ts: Real { bits: 0 }, period: Real { bits: 0 } },
        }
    }

    /// Takes in one more frame.
    pub fn apply(&mut self, msg: &CanMsg, wall: Real, step: Step)
        requires
            old(self).wf(),
            old(self).total < u64::MAX,
            msg.wf(),
        ensures
            final(self).wf(),
            final(self)@ == with_frame(old(self)@, msg@, wall, step),
            final(self).total == old(self).total + 1,
            final(self).generation == old(self).generation,
    {
        broadcast use vstd::std_specs::hash::group_hash_axioms;

        let code: u64 = msg.key().code();
        let ghost before = self@;
        let ghost raw = self.entries@;
        let ghost fresh = no_frames(msg@, wall);
        proof {
            lemma_count_bound(before, code);
            lemma_count_insert(
                before,
                code,
                (if before.dom().contains(code) {
                    before[code]
                } else {
                    fresh
                }).updated(msg@, wall, step),
            );
        }
        let mut e = match self.entries.remove(&code) {
            Some(e) => e,
            None => IdStats::new(msg, wall),
        };
        assert(e@ == (if before.dom().contains(code) {
            before[code]
        } else {
            fresh
        }));
        e.update(msg, wall, step);
        let ghost now = e@;
        self.entries.insert(code, e);
        self.total = self.total + 1;
        assert(self@ =~= before.insert(code, now));
    }

    /// Forgets everything.
    pub fn clear(&mut self)
        requires
            old(self).generation < u64::MAX,
        ensures
            final(self)@ == Map::<u64, IdModel>::empty(),
            final(self).total == 0,
            final(self).generation == old(self).generation + 1,
            final(self).wf(),
    {
        broadcast use vstd::std_specs::hash::group_hash_axioms;

        self.entries.clear();
        self.total = 0;
        self.generation = self.generation + 1;
        assert(self@ =~= Map::<u64, IdModel>::empty());
    }
}

/// An entry of the event log.
pub struct EventEntry {
    pub ts: Real,
    pub text: String,
    pub severe: bool,
}

/// What an entry of the event log says.
pub ghost struct EventEntryModel {
    pub ts: Real,
    pub text: Seq<char>,
    pub severe: bool,
}

impl View for EventEntry {
    type V = EventEntryModel;

    open spec fn view(&self) -> EventEntryModel {
        EventEntryModel { ts: self.ts, text: self.text@, severe: self.severe }
    }
}

impl Clone for EventEntry {
    fn clone(&self) -> (r: Self)
        ensures
            r@ == self@,
    {
        EventEntry { ts: self.ts, text: self.text.clone(), severe: self.severe }
    }
}

/// Load and frame rate at one point in time.
#[derive(Debug, Clone, Copy, PartialEq, Eq, Structural)]
pub struct HistoryPoint {
    pub load: Real,
    pub fps: Real,
}

/// How far a playback has come.
#[derive(Debug, Clone, Copy, PartialEq, Eq, Structural)]
pub struct ReplayProgress {
    pub index: usize,
    pub total: usize,
    pub looped: bool,
    pub loops: u64,
}

impl Default for ReplayProgress {
    fn default() -> (r: Self)
        ensures
            r == (ReplayProgress { index: 0, total: 0, looped: false, loops: 0 }),
    {
        ReplayProgress { index: 0, total: 0, looped: false, loops: 0 }
    }
}

/// The state of the connection.
pub struct BusStats {
    pub connected: bool,
    pub iface: String,
    pub bitrate: u32,
    pub state: CtrlState,
    pub tec: Option<u8>,
    pub rec: Option<u8>,
    pub rx_total: u64,
    pub tx_total: u64,
    pub tx_errors: u64,
    pub error_frames: u64,
    pub rx_overflows: u64,
    pub fps: Real,
    pub load_pct: Real,
    pub peak_load_pct: Real,
    pub history: VecDeque<HistoryPoint>,
    pub events: VecDeque<EventEntry>,
    /// The file that is recorded to, and the frames written to it so far.
    pub recording: Option<(String, u64)>,
    pub replay: Option<ReplayProgress>,
    pub finished: bool,
}

/// What the state of the connection says.
#[verifier::ext_equal]
pub ghost struct StatsModel {
    pub connected: bool,
    pub iface: Seq<char>,
    pub bitrate: u32,
    pub state: CtrlState,
    pub tec: Option<u8>,
    pub rec: Option<u8>,
    pub rx_total: int,
    pub tx_total: int,
    pub tx_errors: int,
    pub error_frames: int,
    pub rx_overflows: int,
    pub fps: Real,
    pub load_pct: Real,
    pub peak_load_pct: Real,
    pub history: Seq<HistoryPoint>,
    pub events: Seq<EventEntryModel>,
    pub recording: Option<(Seq<char>, int)>,
    pub replay: Option<ReplayProgress>,
    pub finished: bool,
}

/// The contents of an event log.
pub open spec fn entry_views(v: Seq<EventEntry>) -> Seq<EventEntryModel> {
    Seq::new(v.len(), |i: int| v[i]@)
}

/// The contents of what is said of a recording.
pub open spec fn recording_view(r: Option<(String, u64)>) -> Option<(Seq<char>, int)> {
    match r {
        Some((p, n)) => Some((p@, n as int)),
        None => None,
    }
}

impl View for BusStats {
    type V = StatsModel;

    open spec fn view(&self) -> StatsModel {
        StatsModel {
            connected: self.connected,
            iface: self.iface@,
            bitrate: self.bitrate,
            state: self.state,
            tec: self.tec,
            rec: self.rec,
            rx_total: self.rx_total as int,
            tx_total: self.tx_total as int,
            tx_errors: self.tx_errors as int,
            error_frames: self.error_frames as int,
            rx_overflows: self.rx_overflows as int,
            fps: self.fps,
            load_pct: self.load_pct,
            peak_load_pct: self.peak_load_pct,
            history: self.history@,
            events: entry_views(self.events@),
            recording: recording_view(self.recording),
            replay: self.replay,
            finished: self.finished,
        }
    }
}

/// A sequence with one more element, in which at most `cap` are kept: the oldest leaves.
pub open spec fn pushed<T>(s: Seq<T>, x: T, cap: int) -> Seq<T> {
    if s.len() >= cap {
        s.skip(1).push(x)
    } else {
        s.push(x)
    }
}

/// The state before the first connection.
pub open spec fn no_stats() -> StatsModel {
    StatsModel {
        connected: false,
        iface: Seq::empty(),
        bitrate: 0,
        state: CtrlState::Unknown,
        tec: None,
        rec: None,
        rx_total: 0,
        tx_total: 0,
        tx_errors: 0,
        error_frames: 0,
        rx_overflows: 0,
        fps: Real { bits: 0 },
        load_pct: Real { bits: 0 },
        peak_load_pct: Real { bits: 0 },
        history: Seq::empty(),
        events: Seq::empty(),
        recording: None,
        replay: None,
        finished: false,
    }
}

impl StatsModel {
    /// The state with one more event.
    pub open spec fn with_event(self, ts: Real, text: Seq<char>, severe: bool) -> StatsModel {
        StatsModel {
            events: pushed(
                self.events,
                EventEntryModel { ts, text, severe },
                MAX_EVENTS as int,
            ),
            ..self
        }
    }
}

impl Default for BusStats {
    fn default() -> (r: Self)
        ensures
            r@ == no_stats(),
    {
        let r = BusStats {
            connected: false,
            iface: String::new(),
            bitrate: 0,
            state: CtrlState::Unknown,
            tec: None,
            rec: None,
            rx_total: 0,
            tx_total: 0,
            tx_errors: 0,
            error_frames: 0,
            rx_overflows: 0,
            fps: Real { bits: 0 },
            load_pct: Real { bits: 0 },
            peak_load_pct: Real { bits: 0 },
            history: VecDeque::new(),
            events: VecDeque::new(),
            recording: None,
            replay: None,
            finished: false,
        };
        assert(r@ =~= no_stats());
        r
    }
}

impl BusStats {
    /// Adds an event to the log; the oldest one leaves when the log is full.
    pub fn push_event(&mut self, ts: Real, text: String, severe: bool)
        ensures
            final(self)@ == old(self)@.with_event(ts, text@, severe),
    {
        let ghost before = self@;
        if self.events.len() >= MAX_EVENTS {
            self.events.pop_front();
            assert(entry_views(self.events@) =~= before.events.skip(1));
        }
        let e = EventEntry { ts, text, severe };
        let ghost mid = entry_views(self.events@);
        self.events.push_back(e);
        assert(entry_views(self.events@) =~= mid.push(e@));
        assert(self@ =~= before.with_event(ts, text@, severe));
    }

    /// Adds a point to the load history; the oldest one leaves when it is full.
    pub fn push_point(&mut self, p: HistoryPoint)
        ensures
            final(self)@ == (StatsModel {
                history: pushed(old(self)@.history, p, HISTORY_SECS as int),
                ..old(self)@
            }),
    {
        let ghost before = self@;
        if self.history.len() >= HISTORY_SECS {
            self.history.pop_front();
            assert(self.history@ =~= before.history.skip(1));
        }
        self.history.push_back(p);
        assert(self@ =~= (StatsModel {
            history: pushed(before.history, p, HISTORY_SECS as int),
            ..before
        }));
    }
}

/// A log with a cap never grows beyond it, and always ends with what was added last.
pub proof fn law_pushed<T>(s: Seq<T>, x: T, cap: int)
    requires
        s.len() <= cap,
        cap > 0,
    ensures
        pushed(s, x, cap).len() <= cap,
        pushed(s, x, cap).last() == x,
        s.len() < cap ==> pushed(s, x, cap) == s.push(x),
{
}

/// A frame that was taken in is the last one of its message; it counts once, in its own
/// direction, and changes nothing about which message it is.
pub proof fn law_frame_is_counted(s: IdModel, m: Frame, wall: Real, step: Step)
    ensures
        ({
            let r = s.updated(m, wall, step);
            &&& r.last == m && r.last_wall == wall && r.key == s.key
            &&& r.count == s.count + 1
            &&& r.rx_count + r.tx_count == s.rx_count + s.tx_count + 1
            &&& m.dir == Dir::Rx ==> r.rx_count == s.rx_count + 1 && r.tx_count == s.tx_count
            &&& m.dir == Dir::Tx ==> r.tx_count == s.tx_count + 1 && r.rx_count == s.rx_count
        }),
{
}

/// The first frame of a message sets no period; the second one sets the period, and both of
/// its limits, to the time between the two.
pub proof fn law_first_two_frames(a: Frame, b: Frame, wall: Real, first: Step, second: Step)
    requires
        second.dt.is_nonneg(),
        !greatest_real().lt(second.dt),
        second.dt.bits < 0x8000_0000_0000_0000,
    ensures
        ({
            let one = no_frames(a, wall).updated(a, wall, first);
            let two = one.updated(b, wall, second);
            &&& one.count == 1 && one.period.bits == 0 && one.period_max.bits == 0
            &&& one.dlc_changes == 0
            &&& forall|i: int| 0 <= i < 64 ==> (#[trigger] one.byte_changed[i]).bits == 0
            &&& two.count == 2 && two.period == second.dt
            &&& two.period_min == second.dt && two.period_max == second.dt
        }),
{
}

/// From the third frame on the average takes the blend of the old average and the new time.
/// The limits of the period only widen, and enclose every time between two frames. A step
/// back in time changes neither the average nor the limits.
pub proof fn law_period_limits(s: IdModel, m: Frame, wall: Real, step: Step)
    requires
        s.count >= 1,
    ensures
        ({
            let r = s.updated(m, wall, step);
            &&& s.count >= 2 && step.dt.is_nonneg() ==> r.period == step.blend
            &&& step.dt.is_nonneg() ==> !step.dt.lt(r.period_min) && !r.period_max.lt(step.dt)
            &&& !s.period_min.lt(r.period_min) && !r.period_max.lt(s.period_max)
            &&& r.period_min == s.period_min || r.period_min == step.dt
            &&& r.period_max == s.period_max || r.period_max == step.dt
            &&& !s.period_min.nan() ==> !r.period_min.nan()
            &&& !s.period_max.nan() ==> !r.period_max.nan()
            &&& !step.dt.is_nonneg() ==> (r.period, r.period_min, r.period_max) == (
                s.period,
                s.period_min,
                s.period_max,
            )
        }),
{
}

/// A byte is marked with the time of the frame exactly when it changed, or was not there
/// before; bytes that stayed the same, or that the frame does not hold, keep their mark.
pub proof fn law_changed_bytes_are_marked(s: IdModel, m: Frame, wall: Real, step: Step, i: int)
    requires
        s.count >= 1,
        0 <= i < 64,
        0 <= s.last.len <= 64,
        0 <= m.len <= 64,
    ensures
        ({
            let mark = s.updated(m, wall, step).byte_changed[i];
            &&& i < m.len && i < s.last.len && m.data[i] != s.last.data[i] ==> mark == wall
            &&& i < m.len && i >= s.last.len ==> mark == wall
            &&& i < m.len && i < s.last.len && m.data[i] == s.last.data[i] ==> mark
                == s.byte_changed[i]
            &&& i >= m.len ==> mark == s.byte_changed[i]
        }),
{
}

/// A change of the length counts once; a frame as long as the last one does not count.
pub proof fn law_length_changes_are_counted(s: IdModel, m: Frame, wall: Real, step: Step)
    requires
        s.count >= 1,
    ensures
        m.len != s.last.len ==> s.updated(m, wall, step).dlc_changes == s.dlc_changes + 1,
        m.len == s.last.len ==> s.updated(m, wall, step).dlc_changes == s.dlc_changes,
{
}

/// A frame shows up in the statistics of its own message and of no other.
pub proof fn law_frame_goes_to_its_id(s: Map<u64, IdModel>, m: Frame, wall: Real, step: Step, key: MsgKey)
    ensures
        ({
            let r = with_frame(s, m, wall, step);
            let own = MsgKey { id: m.id, ext: m.ext }.code_spec();
            let c = key.code_spec();
            &&& r.dom().contains(own) && r[own].last == m
            &&& !s.dom().contains(own) ==> r[own].count == 1 && r[own].key.id == m.id
                && r[own].key.ext == m.ext
            &&& s.dom().contains(own) ==> r[own].count == s[own].count + 1 && r[own].key == s[own].key
            &&& key.id != m.id || key.ext != m.ext ==> r.dom().contains(c) == s.dom().contains(c)
                && (s.dom().contains(c) ==> r[c] == s[c])
        }),
{
    law_codes_tell_keys_apart(MsgKey { id: m.id, ext: m.ext }, key);
}

/// A log with a cap forgets the oldest entry and no other: every later entry moves up by at
/// most one place.
pub proof fn law_pushed_keeps_the_latest<T>(s: Seq<T>, x: T, cap: int, k: int)
    requires
        0 <= k < s.len() <= cap,
        k > 0 || s.len() < cap,
    ensures
        ({
            let r = pushed(s, x, cap);
            &&& r.len() > s.len() - k
            &&& r[r.len() - 1 - (s.len() - k)] == s[k]
            &&& r.len() == s.len() || r.len() == s.len() + 1
            &&& r.len() == s.len() <==> s.len() == cap
        }),
{
}

/// An event is added at the end of the event log, and nothing else changes.
pub proof fn law_event_is_logged(s: StatsModel, ts: Real, text: Seq<char>, severe: bool)
    ensures
        ({
            let r = s.with_event(ts, text, severe);
            let e = r.events[r.events.len() - 1];
            &&& r.events.len() > 0 && e.ts == ts && e.text == text && e.severe == severe
            &&& r == (StatsModel { events: r.events, ..s })
            &&& s.events.len() < 1000 ==> r.events.len() == s.events.len() + 1
            &&& s.events.len() == 1000 ==> r.events.len() == 1000
        }),
{
}

/// Before anything is known every count is zero and nothing is there.
pub proof fn law_nothing_known_yet()
    ensures
        ({
            let s = no_stats();
            &&& !s.connected && s.iface.len() == 0 && s.bitrate == 0 && s.state == CtrlState::Unknown
            &&& s.tec is None && s.rec is None && s.rx_total == 0 && s.tx_total == 0
            &&& s.tx_errors == 0 && s.error_frames == 0 && s.rx_overflows == 0
            &&& s.fps.bits == 0 && s.load_pct.bits == 0 && s.peak_load_pct.bits == 0
            &&& s.history.len() == 0 && s.events.len() == 0
            &&& s.recording is None && s.replay is None && !s.finished
        }),
{
}

/// How much is kept and passed on: a thousand events, five minutes of load, the last values of
/// a signal, the frames on their way to the views.
pub proof fn law_limits()
    ensures
        MAX_EVENTS == 1000,
        HISTORY_SECS == 5 * 60,
        SIGNAL_HISTORY == 20_000,
        STREAM_CHANNEL_CAP == 200_000,
{
}

} // verus!
