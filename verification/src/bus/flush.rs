//! Receiving frames and events and applying them to the shared state.

use vstd::prelude::*;
use crate::bus::signals::{
    count_of, distinct_names, law_every_frame_counts, law_names_stay_distinct, occurrences,
    signal_count, with_decoded, Occasion, SampleModel, SignalTable,
};
use crate::bus::worker::{event_views, lowercase, unicode_lower, Worker, WorkerModel};
use crate::bus::{
    pushed, with_frames, BusStats, EventEntryModel, HistoryPoint, ReplayProgress, StatsModel, Step,
    Summary, HISTORY_SECS,
};
use crate::candump::{
    format_line, frame_views, law_recording_is_its_lines, line_text, recorded, written,
};
use crate::device::virtual_bus::SECOND;
use crate::device::{
    plain_event, BackendKind, BusEvent, BusEventModel, CtrlState, DevEvent, DeviceStatus,
};
use crate::msg::{law_codes_tell_keys_apart, CanMsg, Dir, Frame, MsgKey};
use crate::number::Real;
use crate::symbols::{string_views, MessageModel, SymbolDb};
use crate::text::{chars_of, contains_piece, has_piece, put, string_of};

verus! {

/// Frames that are received at once, at most, so that sending and commands are still served
/// under heavy load.
pub const RECEIVE_BURST: usize = 4096;

/// What the device answered.
pub enum Received {
    Event(DevEvent),
    Nothing,
    /// The device failed; the text says how.
    Failed(String),
}

/// What to do after an answer.
#[derive(Debug, Clone, Copy, PartialEq, Eq, Structural)]
pub enum Next {
    /// Ask the device again, without waiting.
    Again,
    /// This burst is over.
    Done,
    /// This burst is over; wait for so many milliseconds.
    Sleep(u64),
}

/// How long the device may wait for its next answer in a burst, after so many answers:
/// only the first is waited for, and a full burst is over.
pub open spec fn burst_timeout_of(calls: usize, first: u64) -> Option<u64> {
    if calls >= RECEIVE_BURST {
        None
    } else if calls == 0 {
        Some(first)
    } else {
        Some(0)
    }
}

/// How long the device may wait for its next answer in a burst; `None` when the burst is
/// full.
pub fn burst_timeout(calls: usize, first: u64) -> (r: Option<u64>)
    ensures
        r == burst_timeout_of(calls, first),
{
    if calls >= RECEIVE_BURST {
        None
    } else if calls == 0 {
        Some(first)
    } else {
        Some(0)
    }
}

/// A burst asks the device a fixed number of times at most, and waits for at most the
/// first answer.
pub proof fn law_burst_is_bounded(calls: usize, first: u64)
    ensures
        burst_timeout_of(calls, first) is Some == (calls < RECEIVE_BURST),
        burst_timeout_of(calls, first) matches Some(t) ==> t <= first && (calls > 0 ==> t == 0),
{
}

/// Whether an error speaks of the bus being off; `lower` is its text in small letters.
pub open spec fn says_bus_off(lower: Seq<char>) -> bool {
    has_piece(lower, "bus-off"@) || has_piece(lower, "busoff"@) || has_piece(lower, "bus off"@)
}

/// Whether an error speaks of lost frames; `lower` is its text in small letters.
pub open spec fn says_overflow(lower: Seq<char>) -> bool {
    has_piece(lower, "overrun"@) || has_piece(lower, "overflow"@)
}

/// The event for an error of the device.
pub open spec fn failure_event(text: Seq<char>, lower: Seq<char>) -> BusEventModel {
    BusEventModel {
        state: if says_bus_off(lower) {
            Some(CtrlState::BusOff)
        } else {
            None
        },
        rx_overflow: says_overflow(lower),
        ..plain_event("receive error: "@ + text)
    }
}

/// Whether an error that keeps coming is worth an event: the first three, then every
/// thousandth.
pub open spec fn failure_shown(n: int) -> bool {
    n <= 3 || n % 1000 == 0
}

fn mentions(s: &Vec<char>, word: &str) -> (r: bool)
    ensures
        r == has_piece(s@, word@),
{
    let w = chars_of(word);
    contains_piece(s.as_slice(), w.as_slice())
}

/// The event for an error of the device; `lower` is its text in small letters.
pub fn describe_failure(text: &str, lower: &str) -> (r: BusEvent)
    ensures
        r@ == failure_event(text@, lower@),
{
    let l = chars_of(lower);
    let mut t: Vec<char> = Vec::new();
    put(&mut t, "receive error: ");
    put(&mut t, text);
    assert(t@ =~= "receive error: "@ + text@);
    let mut ev = BusEvent::new(string_of(t.as_slice()));
    if mentions(&l, "bus-off") || mentions(&l, "busoff") || mentions(&l, "bus off") {
        ev.state = Some(CtrlState::BusOff);
    }
    if mentions(&l, "overrun") || mentions(&l, "overflow") {
        ev.rx_overflow = true;
    }
    ev
}

/// The worker after an answer of the device.
pub open spec fn after_receive(w: WorkerModel, r: Received) -> WorkerModel {
    match r {
        Received::Event(DevEvent::Frame(m)) => WorkerModel {
            consecutive_errors: 0,
            batch: w.batch.push(m@),
            ..w
        },
        Received::Event(DevEvent::Bus(e)) => WorkerModel { events: w.events.push(e@), ..w },
        Received::Nothing => w,
        Received::Failed(text) => {
            let n = w.consecutive_errors + 1;
            WorkerModel {
                consecutive_errors: n,
                events: if failure_shown(n) {
                    w.events.push(failure_event(text@, unicode_lower(text@)))
                } else {
                    w.events
                },
                ..w
            }
        },
    }
}

/// What to do after an answer of the device.
pub open spec fn next_after(w: WorkerModel, r: Received) -> Next {
    match r {
        Received::Event(_) => Next::Again,
        Received::Nothing => Next::Done,
        Received::Failed(_) => Next::Sleep(
            if w.consecutive_errors + 1 > 10 {
                20
            } else {
                1
            },
        ),
    }
}

/// What became of a frame that was offered to the live stream.
#[derive(Debug, Clone, Copy, PartialEq, Eq, Structural)]
pub enum Offered {
    Taken,
    /// The stream was full; the frame is dropped.
    Full,
    /// Nobody listens.
    Closed,
}

/// How many frames the live stream lost.
pub open spec fn lost(o: Seq<Offered>) -> int
    decreases o.len(),
{
    if o.len() == 0 {
        0
    } else {
        lost(o.drop_last()) + if o.last() == Offered::Full {
            1int
        } else {
            0int
        }
    }
}

/// How many frames the live stream took.
pub open spec fn taken(o: Seq<Offered>) -> int
    decreases o.len(),
{
    if o.len() == 0 {
        0
    } else {
        taken(o.drop_last()) + if o.last() == Offered::Taken {
            1int
        } else {
            0int
        }
    }
}

/// How many frames go in a direction.
pub open spec fn heading(f: Seq<Frame>, d: Dir) -> int
    decreases f.len(),
{
    if f.len() == 0 {
        0
    } else {
        heading(f.drop_last(), d) + if f.last().dir == d {
            1int
        } else {
            0int
        }
    }
}

/// The signal table after some frames.
pub open spec fn with_all_decoded(
    t: Map<u64, Seq<SampleModel>>,
    db: Map<u64, MessageModel>,
    f: Seq<Frame>,
    values: Seq<Seq<Real>>,
    wall: Real,
) -> Map<u64, Seq<SampleModel>>
    decreases f.len(),
{
    if f.len() == 0 {
        t
    } else {
        with_decoded(
            with_all_decoded(t, db, f.drop_last(), values, wall),
            db,
            f.last(),
            values[f.len() - 1],
            wall,
        )
    }
}

/// How many signals some frames have.
pub open spec fn total_signals(db: Map<u64, MessageModel>, f: Seq<Frame>) -> int
    decreases f.len(),
{
    if f.len() == 0 {
        0
    } else {
        total_signals(db, f.drop_last()) + signal_count(db, f.last())
    }
}

/// Whether an event is shown as severe.
pub open spec fn is_severe(e: BusEventModel) -> bool {
    e.state == Some(CtrlState::BusOff) || e.state == Some(CtrlState::ErrorPassive) || e.rx_overflow
}

/// The state of the connection after an event.
pub open spec fn with_bus_event(s: StatsModel, e: BusEventModel, ts: Real) -> StatsModel {
    StatsModel {
        error_frames: s.error_frames + 1,
        rx_overflows: if e.rx_overflow {
            s.rx_overflows + 1
        } else {
            s.rx_overflows
        },
        state: match e.state {
            Some(x) => x,
            None => s.state,
        },
        tec: if e.tec is Some {
            e.tec
        } else {
            s.tec
        },
        rec: if e.tec is Some {
            e.rec
        } else {
            s.rec
        },
        ..s
    }.with_event(ts, e.desc, is_severe(e))
}

/// The state of the connection after some events.
pub open spec fn with_bus_events(s: StatsModel, e: Seq<BusEventModel>, ts: Real) -> StatsModel
    decreases e.len(),
{
    if e.len() == 0 {
        s
    } else {
        with_bus_event(with_bus_events(s, e.drop_last(), ts), e.last(), ts)
    }
}

/// What the caller computes and observes for a batch: per frame the step of its period and
/// the physical values of its signals, and what became of it in the live stream.
pub struct BatchInput {
    /// Wall-clock time.
    pub wall: Real,
    pub steps: Vec<Step>,
    pub values: Vec<Vec<Real>>,
    pub offered: Vec<Offered>,
}

/// The contents of values.
pub open spec fn value_views(v: Seq<Vec<Real>>) -> Seq<Seq<Real>> {
    Seq::new(v.len(), |i: int| v[i]@)
}

/// The definitions in use.
pub open spec fn db_view(db: Option<&SymbolDb>) -> Map<u64, MessageModel> {
    match db {
        Some(d) => d@,
        None => Map::empty(),
    }
}

impl BatchInput {
    /// There is one entry per frame, and one value per signal.
    pub open spec fn fits(self, f: Seq<Frame>, db: Map<u64, MessageModel>) -> bool {
        &&& self.steps@.len() == f.len()
        &&& self.values@.len() == f.len()
        &&& self.offered@.len() == f.len()
        &&& forall|i: int|
            0 <= i < f.len() ==> (#[trigger] self.values@[i])@.len() == signal_count(db, f[i])
    }
}

fn apply_summary(batch: &Vec<CanMsg>, summary: &mut Summary, input: &BatchInput)
    requires
        old(summary).wf(),
        old(summary).total + batch@.len() <= u64::MAX,
        input.steps@.len() == batch@.len(),
        forall|i: int| 0 <= i < batch@.len() ==> (#[trigger] batch@[i]).wf(),
    ensures
        final(summary).wf(),
        final(summary)@ == with_frames(
            old(summary)@,
            frame_views(batch@),
            input.wall,
            input.steps@,
        ),
        final(summary).total == old(summary).total + batch@.len(),
        final(summary).generation == old(summary).generation,
{
    let ghost all = frame_views(batch@);
    let ghost start = summary@;
    let mut i: usize = 0;
    while i < batch.len()
        invariant
            i <= batch@.len(),
            all == frame_views(batch@),
            summary.wf(),
            summary.total == old(summary).total + i,
            summary.generation == old(summary).generation,
            old(summary).total + batch@.len() <= u64::MAX,
            input.steps@.len() == batch@.len(),
            forall|j: int| 0 <= j < batch@.len() ==> (#[trigger] batch@[j]).wf(),
            summary@ == with_frames(start, all.take(i as int), input.wall, input.steps@),
        decreases batch@.len() - i,
    {
        proof {
            assert(all.take(i + 1).drop_last() =~= all.take(i as int));
            assert(all.take(i + 1).last() == batch@[i as int]@);
        }
        summary.apply(&batch[i], input.wall, input.steps[i]);
        i = i + 1;
    }
    assert(all.take(i as int) =~= all);
}

proof fn lemma_total_signals(db: Map<u64, MessageModel>, f: Seq<Frame>, n: int)
    requires
        0 <= n < f.len(),
    ensures
        0 <= total_signals(db, f.take(n)),
        total_signals(db, f.take(n)) + signal_count(db, f[n]) <= total_signals(db, f),
        total_signals(db, f.take(n + 1)) == total_signals(db, f.take(n)) + signal_count(db, f[n]),
    decreases f.len(),
{
    assert(f.take(n + 1).drop_last() =~= f.take(n));
    if n > 0 {
        assert(f.take(n).take(n - 1) =~= f.take(n - 1));
        lemma_total_nonneg(db, f.take(n));
    }
    if n == f.len() - 1 {
        assert(f.take(n + 1) =~= f);
    } else {
        let g = f.drop_last();
        lemma_total_signals(db, g, n);
        assert(g.take(n) =~= f.take(n));
        assert(g[n] == f[n]);
    }
}

proof fn lemma_total_nonneg(db: Map<u64, MessageModel>, f: Seq<Frame>)
    ensures
        total_signals(db, f) >= 0,
    decreases f.len(),
{
    if f.len() > 0 {
        lemma_total_nonneg(db, f.drop_last());
    }
}

/// Counts that have room for more than is added keep room for the rest.
proof fn lemma_room(
    t: Map<u64, Seq<SampleModel>>,
    db: Map<u64, MessageModel>,
    m: Frame,
    values: Seq<Real>,
    wall: Real,
    n: int,
)
    requires
        forall|c: u64| #[trigger] t.dom().contains(c) ==> crate::bus::signals::has_room(t[c], n),
        signal_count(db, m) <= n <= u64::MAX,
    ensures
        forall|c: u64| #[trigger]
            with_decoded(t, db, m, values, wall).dom().contains(c) ==> crate::bus::signals::has_room(
                with_decoded(t, db, m, values, wall)[c],
                n - signal_count(db, m),
            ),
{
    let key = crate::msg::MsgKey { id: m.id, ext: m.ext };
    let code = key.code_spec();
    let data = m.data.take(m.len);
    let now = with_decoded(t, db, m, values, wall);
    let k = signal_count(db, m);
    assert forall|c: u64| #[trigger] now.dom().contains(c) implies crate::bus::signals::has_room(
        now[c],
        n - k,
    ) by {
        if db.dom().contains(code) && db[code].decoded(data).len() > 0 && c == code {
            let list = if t.dom().contains(code) {
                t[code]
            } else {
                Seq::empty()
            };
            assert(crate::bus::signals::has_room(list, n));
            lemma_samples_room(
                list,
                db[code].decoded(data),
                values,
                crate::bus::signals::Occasion {
                    key,
                    msg_name: db[code].name_spec(data),
                    ts: m.ts,
                    wall,
                },
                n,
            );
        } else {
            assert(t.dom().contains(c));
            assert(crate::bus::signals::has_room(t[c], n));
            assert forall|i: int| 0 <= i < now[c].len() implies 0 <= (#[trigger] now[c][i]).count
                <= u64::MAX - (n - k) by {
                assert(t[c][i].count <= u64::MAX - n);
            }
        }
    }
}

proof fn lemma_samples_room(
    list: Seq<SampleModel>,
    d: Seq<crate::symbols::DecodedModel>,
    values: Seq<Real>,
    o: crate::bus::signals::Occasion,
    n: int,
)
    requires
        crate::bus::signals::has_room(list, n),
        d.len() <= n <= u64::MAX,
    ensures
        crate::bus::signals::has_room(
            crate::bus::signals::with_samples(list, d, values, o),
            n - d.len(),
        ),
    decreases d.len(),
{
    if d.len() > 0 {
        let e = d.drop_last();
        lemma_samples_room(list, e, values, o, n);
        let mid = crate::bus::signals::with_samples(list, e, values, o);
        let now = crate::bus::signals::with_samples(list, d, values, o);
        crate::bus::signals::lemma_index_of(mid, d.last().name);
        assert forall|i: int| 0 <= i < now.len() implies 0 <= (#[trigger] now[i]).count <= u64::MAX
            - (n - d.len()) by {
            if i < mid.len() {
                assert(mid[i].count <= u64::MAX - (n - e.len()));
            }
        }
    }
}

fn apply_signals(
    batch: &Vec<CanMsg>,
    table: &mut SignalTable,
    db: &SymbolDb,
    input: &BatchInput,
)
    requires
        old(table).wf(),
        old(table).generation < u64::MAX,
        total_signals(db@, frame_views(batch@)) <= u64::MAX,
        old(table).room(total_signals(db@, frame_views(batch@))),
        input.fits(frame_views(batch@), db@),
        forall|i: int| 0 <= i < batch@.len() ==> (#[trigger] batch@[i]).wf(),
    ensures
        final(table).wf(),
        final(table)@ == with_all_decoded(
            old(table)@,
            db@,
            frame_views(batch@),
            value_views(input.values@),
            input.wall,
        ),
        final(table).generation == old(table).generation + (if total_signals(
            db@,
            frame_views(batch@),
        ) > 0 {
            1int
        } else {
            0int
        }),
{
    let ghost all = frame_views(batch@);
    let ghost vals = value_views(input.values@);
    let ghost start = table@;
    let ghost total = total_signals(db@, all);
    proof {
        lemma_total_nonneg(db@, all);
    }
    let mut touched = false;
    let mut i: usize = 0;
    while i < batch.len()
        invariant
            i <= batch@.len(),
            all == frame_views(batch@),
            vals == value_views(input.values@),
            total == total_signals(db@, all),
            total <= u64::MAX,
            table.wf(),
            table.generation == old(table).generation,
            input.fits(all, db@),
            0 <= total_signals(db@, all.take(i as int)) <= total,
            table.room(total - total_signals(db@, all.take(i as int))),
            touched == (total_signals(db@, all.take(i as int)) > 0),
            forall|j: int| 0 <= j < batch@.len() ==> (#[trigger] batch@[j]).wf(),
            table@ == with_all_decoded(start, db@, all.take(i as int), vals, input.wall),
        decreases batch@.len() - i,
    {
        let ghost before = table@;
        proof {
            assert(all.take(i + 1).drop_last() =~= all.take(i as int));
            assert(all.take(i + 1).last() == batch@[i as int]@);
            lemma_total_signals(db@, all, i as int);
            assert(input.values@[i as int]@.len() == signal_count(db@, all[i as int]));
            assert(vals[i as int] == input.values@[i as int]@);
            let left = total - total_signals(db@, all.take(i as int));
            assert(table.room(signal_count(db@, all[i as int]))) by {
                assert forall|c: u64| #[trigger] table@.dom().contains(c) implies crate::bus::signals::has_room(
                table@[c], signal_count(db@, all[i as int])) by {
                    assert(crate::bus::signals::has_room(table@[c], left));
                    assert forall|k: int| 0 <= k < table@[c].len() implies 0 <= (
                    #[trigger] table@[c][k]).count <= u64::MAX - signal_count(db@, all[i as int]) by {
                        assert(table@[c][k].count <= u64::MAX - left);
                    }
                }
            }
            lemma_room(before, db@, all[i as int], vals[i as int], input.wall, left);
        }
        let t = table.apply(db, &batch[i], &input.values[i], input.wall);
        if t {
            touched = true;
        }
        i = i + 1;
    }
    assert(all.take(i as int) =~= all);
    if touched {
        table.generation = table.generation + 1;
    }
}

fn count_direction(batch: &Vec<CanMsg>, rx: bool) -> (r: u64)
    ensures
        r == heading(
            frame_views(batch@),
            if rx {
                Dir::Rx
            } else {
                Dir::Tx
            },
        ),
        r <= batch@.len(),
{
    let ghost all = frame_views(batch@);
    let ghost d = if rx {
        Dir::Rx
    } else {
        Dir::Tx
    };
    let mut n: u64 = 0;
    let mut i: usize = 0;
    while i < batch.len()
        invariant
            i <= batch@.len(),
            n <= i,
            all == frame_views(batch@),
            d == (if rx {
                Dir::Rx
            } else {
                Dir::Tx
            }),
            n == heading(all.take(i as int), d),
        decreases batch@.len() - i,
    {
        proof {
            assert(all.take(i + 1).drop_last() =~= all.take(i as int));
            assert(all.take(i + 1).last() == batch@[i as int]@);
        }
        match batch[i].dir {
            Dir::Rx => {
                if rx {
                    n = n + 1;
                }
            },
            Dir::Tx => {
                if !rx {
                    n = n + 1;
                }
            },
        }
        i = i + 1;
    }
    assert(all.take(i as int) =~= all);
    n
}

fn count_lost(o: &Vec<Offered>) -> (r: u64)
    ensures
        r == lost(o@),
        r <= o@.len(),
{
    let mut n: u64 = 0;
    let mut i: usize = 0;
    while i < o.len()
        invariant
            i <= o@.len(),
            n <= i,
            n == lost(o@.take(i as int)),
        decreases o@.len() - i,
    {
        assert(o@.take(i + 1).drop_last() =~= o@.take(i as int));
        if o[i] == Offered::Full {
            n = n + 1;
        }
        i = i + 1;
    }
    assert(o@.take(i as int) =~= o@);
    n
}

fn note_events(events: &Vec<BusEvent>, stats: &mut BusStats, ts: Real)
    requires
        old(stats).error_frames + events@.len() <= u64::MAX,
        old(stats).rx_overflows + events@.len() <= u64::MAX,
    ensures
        final(stats)@ == with_bus_events(old(stats)@, event_views(events@), ts),
{
    let ghost all = event_views(events@);
    let ghost start = stats@;
    let mut i: usize = 0;
    while i < events.len()
        invariant
            i <= events@.len(),
            all == event_views(events@),
            old(stats).error_frames + events@.len() <= u64::MAX,
            old(stats).rx_overflows + events@.len() <= u64::MAX,
            stats.error_frames == old(stats).error_frames + i,
            stats.rx_overflows <= old(stats).rx_overflows + i,
            stats@ == with_bus_events(start, all.take(i as int), ts),
        decreases events@.len() - i,
    {
        let ghost before = stats@;
        proof {
            assert(all.take(i + 1).drop_last() =~= all.take(i as int));
            assert(all.take(i + 1).last() == events@[i as int]@);
        }
        let e = &events[i];
        stats.error_frames = stats.error_frames + 1;
        if e.rx_overflow {
            stats.rx_overflows = stats.rx_overflows + 1;
        }
        match e.state {
            Some(s) => {
                stats.state = s;
            },
            None => {},
        }
        if e.tec.is_some() {
            stats.tec = e.tec;
            stats.rec = e.rec;
        }
        let severe = e.rx_overflow || match e.state {
            Some(CtrlState::BusOff) => true,
            Some(CtrlState::ErrorPassive) => true,
            _ => false,
        };
        stats.push_event(ts, e.desc.clone(), severe);
        assert(stats@ == with_bus_event(before, e@, ts));
        i = i + 1;
    }
    assert(all.take(i as int) =~= all);
}

impl Worker {
    /// Takes in an answer of the device and says what to do next.
    pub fn received(&mut self, r: Received) -> (n: Next)
        requires
            old(self).wf(),
            r matches Received::Event(e) ==> e.wf(),
            old(self).consecutive_errors < u32::MAX,
        ensures
            final(self).wf(),
            final(self)@ == after_receive(old(self)@, r),
            n == next_after(old(self)@, r),
    {
        let ghost before = self@;
        let ghost raw = self.batch@;
        match r {
            Received::Event(DevEvent::Frame(m)) => {
                self.consecutive_errors = 0;
                self.batch.push(m);
                proof {
                    assert(self@.batch =~= before.batch.push(m@));
                    assert forall|i: int| 0 <= i < self.batch@.len() implies (
                    #[trigger] self.batch@[i]).wf() by {
                        if i < raw.len() {
                            assert(raw[i].wf());
                        }
                    }
                }
                Next::Again
            },
            Received::Event(DevEvent::Bus(e)) => {
                let ghost ev = e@;
                self.events.push(e);
                assert(self@.events =~= before.events.push(ev));
                Next::Again
            },
            Received::Nothing => Next::Done,
            Received::Failed(text) => {
                self.consecutive_errors = self.consecutive_errors + 1;
                let lower = lowercase(text.as_str());
                if self.consecutive_errors <= 3 || self.consecutive_errors % 1000 == 0 {
                    let e = describe_failure(text.as_str(), lower.as_str());
                    let ghost ev = e@;
                    self.events.push(e);
                    assert(self@.events =~= before.events.push(ev));
                }
                if self.consecutive_errors > 10 {
                    Next::Sleep(20)
                } else {
                    Next::Sleep(1)
                }
            },
        }
    }

    /// The lines that the collected frames add to a recording, each with the time that
    /// stands at its place.
    pub fn recording(&self, stamps: &Vec<String>) -> (r: Vec<String>)
        requires
            self.wf(),
            stamps@.len() == self.batch@.len(),
        ensures
            r@.len() == self.batch@.len(),
            forall|i: int|
                0 <= i < r@.len() ==> (#[trigger] r@[i])@ == line_text(
                    self.batch@[i]@,
                    stamps@[i]@,
                    self.iface@,
                ),
            written(string_views(r@)) == recorded(self@.batch, string_views(stamps@), self.iface@),
    {
        let mut out: Vec<String> = Vec::new();
        let mut i: usize = 0;
        while i < self.batch.len()
            invariant
                self.wf(),
                i <= self.batch@.len(),
                stamps@.len() == self.batch@.len(),
                out@.len() == i,
                forall|j: int|
                    0 <= j < i ==> (#[trigger] out@[j])@ == line_text(
                        self.batch@[j]@,
                        stamps@[j]@,
                        self.iface@,
                    ),
            decreases self.batch@.len() - i,
        {
            assert(self.batch@[i as int].wf());
            out.push(format_line(&self.batch[i], stamps[i].as_str(), self.iface.as_str()));
            i = i + 1;
        }
        proof {
            let f = self@.batch;
            let st = string_views(stamps@);
            law_recording_is_its_lines(f, st, self.iface@);
            assert(string_views(out@) =~= Seq::new(
                f.len(),
                |k: int| line_text(f[k], st[k], self.iface@),
            ));
        }
        out
    }

    /// Applies the frames and events that were collected. Returns how many frames the live
    /// stream lost.
    pub fn flush_batch(
        &mut self,
        summary: &mut Summary,
        table: &mut SignalTable,
        stats: &mut BusStats,
        db: Option<&SymbolDb>,
        input: &BatchInput,
    ) -> (r: u64)
        requires
            old(self).wf(),
            old(summary).wf(),
            old(table).wf(),
            input.fits(old(self)@.batch, db_view(db)),
            old(summary).total + old(self).batch@.len() <= u64::MAX,
            old(summary).generation < u64::MAX,
            old(table).generation < u64::MAX,
            total_signals(db_view(db), old(self)@.batch) <= u64::MAX,
            old(table).room(total_signals(db_view(db), old(self)@.batch)),
            old(self).win_frames + old(self).batch@.len() <= u64::MAX,
            old(self).recorder matches Some(x) ==> x.count + old(self).batch@.len() <= u64::MAX,
            old(stats).rx_total + old(self).batch@.len() <= u64::MAX,
            old(stats).tx_total + old(self).batch@.len() <= u64::MAX,
            old(stats).error_frames + old(self).events@.len() <= u64::MAX,
            old(stats).rx_overflows + old(self).events@.len() <= u64::MAX,
        ensures
            final(self).wf(),
            final(summary).wf(),
            final(table).wf(),
            final(summary)@ == with_frames(
                old(summary)@,
                old(self)@.batch,
                input.wall,
                input.steps@,
            ),
            final(summary).total == old(summary).total + old(self).batch@.len(),
            final(summary).generation == old(summary).generation + (if old(self).batch@.len() > 0 {
                1int
            } else {
                0int
            }),
            final(table)@ == with_all_decoded(
                old(table)@,
                db_view(db),
                old(self)@.batch,
                value_views(input.values@),
                input.wall,
            ),
            final(table).generation == old(table).generation + (if total_signals(
                db_view(db),
                old(self)@.batch,
            ) > 0 {
                1int
            } else {
                0int
            }),
            final(stats)@ == with_bus_events(
                StatsModel {
                    rx_total: old(stats)@.rx_total + heading(old(self)@.batch, Dir::Rx),
                    tx_total: old(stats)@.tx_total + heading(old(self)@.batch, Dir::Tx),
                    ..old(stats)@
                },
                old(self)@.events,
                input.wall,
            ),
            r == lost(input.offered@),
            final(self)@ == (WorkerModel {
                win_frames: old(self)@.win_frames + old(self)@.batch.len(),
                recorder: match old(self)@.recorder {
                    Some((p, n)) => Some((p, n + old(self)@.batch.len())),
                    None => None,
                },
                batch: Seq::empty(),
                events: Seq::empty(),
                ..old(self)@
            }),
            final(self)@ == flushed(old(self)@),
            final(stats)@ == flushed_stats(old(stats)@, old(self)@, input.wall),
    {
        let ghost w = self@;
        let n: u64 = self.batch.len() as u64;
        apply_summary(&self.batch, summary, input);
        if n > 0 {
            summary.generation = summary.generation + 1;
        }
        match db {
            Some(d) => {
                apply_signals(&self.batch, table, d, input);
            },
            None => {
                proof {
                    lemma_no_definitions(table@, w.batch, value_views(input.values@), input.wall);
                }
            },
        }
        let rx: u64 = count_direction(&self.batch, true);
        let tx: u64 = count_direction(&self.batch, false);
        let dropped: u64 = count_lost(&input.offered);
        self.win_frames = self.win_frames + n;
        match &mut self.recorder {
            Some(x) => {
                x.count = x.count + n;
            },
            None => {},
        }
        stats.rx_total = stats.rx_total + rx;
        stats.tx_total = stats.tx_total + tx;
        note_events(&self.events, stats, input.wall);
        self.batch = Vec::new();
        self.events = Vec::new();
        assert(self@.batch =~= Seq::<Frame>::empty());
        assert(self@.events =~= Seq::<BusEventModel>::empty());
        dropped
    }
}

/// Without definitions there are no signals.
proof fn lemma_no_definitions(
    t: Map<u64, Seq<SampleModel>>,
    f: Seq<Frame>,
    values: Seq<Seq<Real>>,
    wall: Real,
)
    ensures
        with_all_decoded(t, Map::empty(), f, values, wall) == t,
        total_signals(Map::empty(), f) == 0,
    decreases f.len(),
{
    if f.len() > 0 {
        lemma_no_definitions(t, f.drop_last(), values, wall);
    }
}

/// Every frame is received or sent.
pub proof fn law_every_frame_has_a_direction(f: Seq<Frame>)
    ensures
        heading(f, Dir::Rx) + heading(f, Dir::Tx) == f.len(),
    decreases f.len(),
{
    if f.len() > 0 {
        law_every_frame_has_a_direction(f.drop_last());
    }
}

/// Nothing is lost without being counted: while somebody listens to the live stream, each
/// frame is either taken by it or counted as lost.
pub proof fn law_stream_accounts_for_every_frame(o: Seq<Offered>)
    requires
        forall|i: int| 0 <= i < o.len() ==> #[trigger] o[i] != Offered::Closed,
    ensures
        taken(o) + lost(o) == o.len(),
    decreases o.len(),
{
    if o.len() > 0 {
        let p = o.drop_last();
        assert forall|i: int| 0 <= i < p.len() implies #[trigger] p[i] != Offered::Closed by {
            assert(p[i] == o[i]);
        }
        law_stream_accounts_for_every_frame(p);
        assert(o[o.len() - 1] != Offered::Closed);
    }
}

/// How many values a signal of a message has had.
pub open spec fn values_seen(
    t: Map<u64, Seq<SampleModel>>,
    key: MsgKey,
    name: Seq<char>,
) -> int {
    if t.dom().contains(key.code_spec()) {
        count_of(t[key.code_spec()], name)
    } else {
        0
    }
}

/// How many values some frames hold of a signal of a message.
pub open spec fn values_in(
    db: Map<u64, MessageModel>,
    f: Seq<Frame>,
    key: MsgKey,
    name: Seq<char>,
) -> int
    decreases f.len(),
{
    if f.len() == 0 {
        0
    } else {
        let m = f.last();
        let code = key.code_spec();
        values_in(db, f.drop_last(), key, name) + if m.id == key.id && m.ext == key.ext
            && db.dom().contains(code) {
            occurrences(db[code].decoded(m.data.take(m.len)), name)
        } else {
            0int
        }
    }
}

/// Every frame of a message with a definition updates its signals, and no other frame does.
pub proof fn law_every_frame_updates_its_signals(
    t: Map<u64, Seq<SampleModel>>,
    db: Map<u64, MessageModel>,
    f: Seq<Frame>,
    values: Seq<Seq<Real>>,
    wall: Real,
    key: MsgKey,
    name: Seq<char>,
)
    requires
        forall|c: u64| #[trigger] t.dom().contains(c) ==> distinct_names(t[c]),
    ensures
        values_seen(with_all_decoded(t, db, f, values, wall), key, name) == values_seen(t, key, name)
            + values_in(db, f, key, name),
        forall|c: u64| #[trigger]
            with_all_decoded(t, db, f, values, wall).dom().contains(c) ==> distinct_names(
                with_all_decoded(t, db, f, values, wall)[c],
            ),
    decreases f.len(),
{
    if f.len() > 0 {
        let before = with_all_decoded(t, db, f.drop_last(), values, wall);
        let m = f.last();
        let k = MsgKey { id: m.id, ext: m.ext };
        let code = k.code_spec();
        law_every_frame_updates_its_signals(t, db, f.drop_last(), values, wall, key, name);
        law_codes_tell_keys_apart(k, key);
        if db.dom().contains(code) {
            let data = m.data.take(m.len);
            let d = db[code].decoded(data);
            let o = Occasion { key: k, msg_name: db[code].name_spec(data), ts: m.ts, wall };
            let list = if before.dom().contains(code) {
                before[code]
            } else {
                Seq::empty()
            };
            law_every_frame_counts(list, d, values[f.len() - 1], o, name);
            law_names_stay_distinct(list, d, values[f.len() - 1], o);
        }
    }
}

/// The summary is lossless: if its total was that of the frames received and sent, it still
/// is after a batch. (That the counts of all messages add up to the total is part of
/// [`Summary::wf`].)
pub proof fn law_summary_is_lossless(
    before: StatsModel,
    after: StatsModel,
    total_before: int,
    total_after: int,
    f: Seq<Frame>,
    e: Seq<BusEventModel>,
    ts: Real,
)
    requires
        total_before == before.rx_total + before.tx_total,
        total_after == total_before + f.len(),
        after == with_bus_events(
            StatsModel {
                rx_total: before.rx_total + heading(f, Dir::Rx),
                tx_total: before.tx_total + heading(f, Dir::Tx),
                ..before
            },
            e,
            ts,
        ),
    ensures
        total_after == after.rx_total + after.tx_total,
{
    law_every_frame_has_a_direction(f);
    lemma_events_keep_totals(
        StatsModel {
            rx_total: before.rx_total + heading(f, Dir::Rx),
            tx_total: before.tx_total + heading(f, Dir::Tx),
            ..before
        },
        e,
        ts,
    );
}

proof fn lemma_events_keep_totals(s: StatsModel, e: Seq<BusEventModel>, ts: Real)
    ensures
        with_bus_events(s, e, ts).rx_total == s.rx_total,
        with_bus_events(s, e, ts).tx_total == s.tx_total,
        with_bus_events(s, e, ts).tx_errors == s.tx_errors,
        with_bus_events(s, e, ts).error_frames == s.error_frames + e.len(),
    decreases e.len(),
{
    if e.len() > 0 {
        lemma_events_keep_totals(s, e.drop_last(), ts);
    }
}

/// Frame rate and bus load of a window, computed by the caller.
#[derive(Debug, Clone, Copy, PartialEq, Eq, Structural)]
pub struct Rates {
    pub fps: Real,
    pub load: Real,
}

/// The state of the connection after the device told its own.
pub open spec fn with_status(s: StatsModel, d: Option<DeviceStatus>, ts: Real) -> StatsModel {
    match d {
        Some(x) => {
            let t = if x.state != s.state && s.state != CtrlState::Unknown {
                s.with_event(
                    ts,
                    "Controller state: "@ + x.state.label_text(),
                    x.state == CtrlState::BusOff || x.state == CtrlState::ErrorPassive,
                )
            } else {
                s
            };
            StatsModel {
                state: x.state,
                tec: if x.tec is Some {
                    x.tec
                } else {
                    t.tec
                },
                rec: if x.rec is Some {
                    x.rec
                } else {
                    t.rec
                },
                ..t
            }
        },
        None => if s.state == CtrlState::Unknown && s.rx_total > 0 {
            StatsModel { state: CtrlState::ErrorActive, ..s }
        } else {
            s
        },
    }
}

/// The state of the connection with the rates of a window.
pub open spec fn with_rates(s: StatsModel, r: Rates) -> StatsModel {
    StatsModel {
        fps: r.fps,
        load_pct: r.load,
        peak_load_pct: s.peak_load_pct.upper_of(r.load),
        history: pushed(s.history, HistoryPoint { load: r.load, fps: r.fps }, HISTORY_SECS as int),
        ..s
    }
}

/// How far a playback has come.
pub open spec fn progress(w: WorkerModel) -> Option<ReplayProgress> {
    match w.replay {
        Some(r) => Some(
            ReplayProgress {
                index: r.idx as usize,
                total: r.frames.len() as usize,
                looped: r.looped,
                loops: r.loops as u64,
            },
        ),
        None => None,
    }
}

/// Time between two ticks, in nanoseconds.
pub const TICK: u64 = 250_000_000;

/// Whether a tick is due, the last one having been at `last`: four times a second.
pub open spec fn is_tick_due(last: int, now: int) -> bool {
    4 * (now - last) >= 1_000_000_000
}

/// A worker after a tick.
pub open spec fn ticked(w: WorkerModel, now: int) -> WorkerModel {
    if now >= w.win_start + 1_000_000_000 {
        WorkerModel { last_tick: now, win_start: now, win_frames: 0, ..w }
    } else {
        WorkerModel { last_tick: now, ..w }
    }
}

/// What is known of the bus after a tick.
pub open spec fn ticked_stats(
    s: StatsModel,
    w: WorkerModel,
    now: int,
    status: Option<DeviceStatus>,
    rates: Rates,
    ts: Real,
) -> StatsModel {
    let a = with_status(s, status, ts);
    let b = StatsModel {
        recording: if w.recorder is Some {
            w.recorder
        } else {
            a.recording
        },
        replay: progress(w),
        ..a
    };
    if now >= w.win_start + 1_000_000_000 {
        with_rates(b, rates)
    } else {
        b
    }
}

/// A worker and what is known of the bus once the device has said whether its log is at an
/// end.
pub open spec fn finish_noted(w: WorkerModel, s: StatsModel, finished: bool, ts: Real) -> (
    WorkerModel,
    StatsModel,
) {
    if finished && !w.announced_finish {
        (
            WorkerModel { announced_finish: true, ..w },
            StatsModel { finished: true, ..s }.with_event(ts, "End of log file reached"@, false),
        )
    } else {
        (w, s)
    }
}

/// What is known of the bus at the start of a connection.
pub open spec fn connected_stats(
    s: StatsModel,
    iface: Seq<char>,
    bitrate: u32,
    kind: BackendKind,
    ts: Real,
) -> StatsModel {
    (StatsModel {
        connected: true,
        iface,
        bitrate,
        history: s.history,
        events: s.events,
        ..crate::bus::no_stats()
    }).with_event(ts, "Connected to "@ + iface + " ("@ + kind.label_text() + ")"@, false)
}

/// What is known of the bus at the end of a connection.
pub open spec fn disconnected_stats(s: StatsModel, ts: Real) -> StatsModel {
    (StatsModel { connected: false, recording: None, replay: None, ..s }).with_event(
        ts,
        "Disconnected"@,
        false,
    )
}

/// A worker whose frames and events have been applied.
pub open spec fn flushed(w: WorkerModel) -> WorkerModel {
    WorkerModel {
        win_frames: w.win_frames + w.batch.len(),
        recorder: match w.recorder {
            Some((p, n)) => Some((p, n + w.batch.len())),
            None => None,
        },
        batch: Seq::empty(),
        events: Seq::empty(),
        ..w
    }
}

/// What is known of the bus once the frames and events of a worker have been applied.
pub open spec fn flushed_stats(s: StatsModel, w: WorkerModel, ts: Real) -> StatsModel {
    with_bus_events(
        StatsModel {
            rx_total: s.rx_total + heading(w.batch, Dir::Rx),
            tx_total: s.tx_total + heading(w.batch, Dir::Tx),
            ..s
        },
        w.events,
        ts,
    )
}

impl Worker {
    /// Whether it is time for a tick.
    pub fn tick_due(&self, now: u64) -> (r: bool)
        ensures
            r == (now - self.last_tick >= TICK),
            r == is_tick_due(self.last_tick as int, now as int),
    {
        now >= self.last_tick && now - self.last_tick >= TICK
    }

    /// Whether the window for frame rate and load is full.
    pub open spec fn window_full(self, now: int) -> bool {
        now - self.win_start >= SECOND
    }

    /// Takes stock: the device's state, the recording, the playback and, when the window is
    /// full, frame rate and load.
    pub fn tick(
        &mut self,
        now: u64,
        status: Option<DeviceStatus>,
        rates: Rates,
        ts: Real,
        stats: &mut BusStats,
    )
        requires
            old(self).wf(),
        ensures
            final(self).wf(),
            final(self)@ == (WorkerModel {
                last_tick: now as int,
                win_start: if old(self).window_full(now as int) {
                    now as int
                } else {
                    old(self)@.win_start
                },
                win_frames: if old(self).window_full(now as int) {
                    0
                } else {
                    old(self)@.win_frames
                },
                ..old(self)@
            }),
            ({
                let a = with_status(old(stats)@, status, ts);
                let b = StatsModel {
                    recording: match old(self)@.recorder {
                        Some(x) => Some(x),
                        None => a.recording,
                    },
                    replay: progress(old(self)@),
                    ..a
                };
                final(stats)@ == if old(self).window_full(now as int) {
                    with_rates(b, rates)
                } else {
                    b
                }
            }),
            final(self)@ == ticked(old(self)@, now as int),
            final(stats)@ == ticked_stats(old(stats)@, old(self)@, now as int, status, rates, ts),
    {
        self.last_tick = now;
        let ghost s0 = stats@;
        match status {
            Some(x) => {
                if x.state != stats.state && stats.state != CtrlState::Unknown {
                    let severe = x.state == CtrlState::BusOff || x.state == CtrlState::ErrorPassive;
                    let mut t: Vec<char> = Vec::new();
                    put(&mut t, "Controller state: ");
                    put(&mut t, x.state.label());
                    assert(t@ =~= "Controller state: "@ + x.state.label_text());
                    stats.push_event(ts, string_of(t.as_slice()), severe);
                }
                stats.state = x.state;
                if x.tec.is_some() {
                    stats.tec = x.tec;
                }
                if x.rec.is_some() {
                    stats.rec = x.rec;
                }
            },
            None => {
                if stats.state == CtrlState::Unknown && stats.rx_total > 0 {
                    stats.state = CtrlState::ErrorActive;
                }
            },
        }
        assert(stats@ =~= with_status(s0, status, ts));
        match &self.recorder {
            Some(x) => {
                stats.recording = Some((x.path.clone(), x.count));
            },
            None => {},
        }
        stats.replay = match &self.replay {
            Some(r) => Some(
                ReplayProgress {
                    index: r.idx,
                    total: r.frames.len(),
                    looped: r.looped,
                    loops: r.loops,
                },
            ),
            None => None,
        };
        if now >= self.win_start && now - self.win_start >= SECOND {
            stats.fps = rates.fps;
            stats.load_pct = rates.load;
            stats.peak_load_pct = stats.peak_load_pct.upper(rates.load);
            stats.push_point(HistoryPoint { load: rates.load, fps: rates.fps });
            self.win_start = now;
            self.win_frames = 0;
        }
    }

    /// Announces once that a device has come to its end.
    pub fn note_finished(&mut self, finished: bool, ts: Real, stats: &mut BusStats)
        requires
            old(self).wf(),
        ensures
            final(self).wf(),
            final(self)@ == (WorkerModel {
                announced_finish: old(self)@.announced_finish || finished,
                ..old(self)@
            }),
            final(stats)@ == (if finished && !old(self)@.announced_finish {
                StatsModel { finished: true, ..old(stats)@ }.with_event(
                    ts,
                    "End of log file reached"@,
                    false,
                )
            } else {
                old(stats)@
            }),
            (final(self)@, final(stats)@) == finish_noted(old(self)@, old(stats)@, finished, ts),
    {
        if finished && !self.announced_finish {
            self.announced_finish = true;
            stats.finished = true;
            stats.push_event(ts, "End of log file reached".to_string(), false);
        }
    }
}

impl BusStats {
    /// Starts anew for a connection. The load history and the event log go on.
    pub fn connect(&mut self, iface: &str, bitrate: u32, kind: BackendKind, ts: Real)
        ensures
            final(self)@ == (StatsModel {
                connected: true,
                iface: iface@,
                bitrate,
                history: old(self)@.history,
                events: old(self)@.events,
                ..crate::bus::no_stats()
            }).with_event(
                ts,
                "Connected to "@ + iface@ + " ("@ + kind.label_text() + ")"@,
                false,
            ),
            final(self)@ == connected_stats(old(self)@, iface@, bitrate, kind, ts),
    {
        let zero = Real { bits: 0 };
        self.connected = true;
        self.iface = iface.to_string();
        self.bitrate = bitrate;
        self.state = CtrlState::Unknown;
        self.tec = None;
        self.rec = None;
        self.rx_total = 0;
        self.tx_total = 0;
        self.tx_errors = 0;
        self.error_frames = 0;
        self.rx_overflows = 0;
        self.fps = zero;
        self.load_pct = zero;
        self.peak_load_pct = zero;
        self.recording = None;
        self.replay = None;
        self.finished = false;
        let mut t: Vec<char> = Vec::new();
        put(&mut t, "Connected to ");
        put(&mut t, iface);
        put(&mut t, " (");
        put(&mut t, kind.label());
        put(&mut t, ")");
        assert(t@ =~= "Connected to "@ + iface@ + " ("@ + kind.label_text() + ")"@);
        self.push_event(ts, string_of(t.as_slice()), false);
    }

    /// Notes that the connection has ended.
    pub fn disconnect(&mut self, ts: Real)
        ensures
            final(self)@ == (StatsModel {
                connected: false,
                recording: None,
                replay: None,
                ..old(self)@
            }).with_event(ts, "Disconnected"@, false),
            final(self)@ == disconnected_stats(old(self)@, ts),
    {
        self.connected = false;
        self.recording = None;
        self.replay = None;
        self.push_event(ts, "Disconnected".to_string(), false);
    }
}

/// Of errors in receiving that keep coming, the first three are shown and then one in a
/// thousand.
pub proof fn law_failures_are_thinned(n: int, k: int)
    requires
        n >= 1,
    ensures
        n <= 3 ==> failure_shown(n),
        failure_shown(1000 * k),
        3 < n && 1000 * k < n < 1000 * k + 1000 ==> !failure_shown(n),
{
    assert((1000 * k) % 1000 == 0) by (nonlinear_arith);
    if 1000 * k < n < 1000 * k + 1000 {
        assert(n % 1000 == n - 1000 * k) by (nonlinear_arith)
            requires
                1000 * k < n < 1000 * k + 1000,
        ;
    }
}

/// An answer of the device is taken in once. A frame joins the end of the batch and ends a
/// run of errors, an event joins the end of the events, and a failure is counted and, when it
/// is shown, told at the end of the events with its text; whatever was collected before
/// stays.
pub proof fn law_answers_are_collected(w: WorkerModel, r: Received)
    ensures
        ({
            let x = after_receive(w, r);
            let n = next_after(w, r);
            &&& (x.periodic, x.replay, x.recorder, x.stop) == (w.periodic, w.replay, w.recorder, w.stop)
            &&& (x.win_start, x.win_frames, x.last_tick) == (w.win_start, w.win_frames, w.last_tick)
            &&& match r {
                Received::Event(DevEvent::Frame(m)) => {
                    &&& x.batch == w.batch + seq![m@] && x.events == w.events
                    &&& x.consecutive_errors == 0 && n == Next::Again
                },
                Received::Event(DevEvent::Bus(e)) => {
                    &&& x.events == w.events + seq![e@] && x.batch == w.batch
                    &&& x.consecutive_errors == w.consecutive_errors && n == Next::Again
                },
                Received::Nothing => x == w && n == Next::Done,
                Received::Failed(t) => {
                    &&& x.consecutive_errors == w.consecutive_errors + 1 && x.batch == w.batch
                    &&& !failure_shown(w.consecutive_errors + 1) ==> x.events == w.events
                    &&& failure_shown(w.consecutive_errors + 1) ==> x.events.len() == w.events.len()
                        + 1 && x.events.last().desc == "receive error: "@ + t@
                    &&& w.consecutive_errors < 10 ==> n == Next::Sleep(1)
                    &&& w.consecutive_errors >= 10 ==> n == Next::Sleep(20)
                },
            }
        }),
{
    let x = after_receive(w, r);
    match r {
        Received::Event(DevEvent::Frame(m)) => {
            assert(x.batch =~= w.batch + seq![m@]);
        },
        Received::Event(DevEvent::Bus(e)) => {
            assert(x.events =~= w.events + seq![e@]);
        },
        _ => {},
    }
}

/// An error of the device tells that the bus is off, or that frames were lost, exactly where
/// its text says so anywhere; it tells nothing about counters.
pub proof fn law_failure_is_understood(text: Seq<char>, lower: Seq<char>, i: int)
    requires
        0 <= i <= lower.len(),
    ensures
        ({
            let e = failure_event(text, lower);
            let at = |w: Seq<char>| w.is_prefix_of(lower.skip(i));
            &&& at("bus-off"@) || at("busoff"@) || at("bus off"@) ==> e.state == Some(CtrlState::BusOff)
            &&& at("overrun"@) || at("overflow"@) ==> e.rx_overflow
            &&& e.state is None || e.state == Some(CtrlState::BusOff)
            &&& e.tec is None && e.rec is None && e.desc == "receive error: "@ + text
        }),
{
    let e = failure_event(text, lower);
    assert forall|w: Seq<char>| #[trigger] w.is_prefix_of(lower.skip(i)) implies has_piece(lower, w) by {
        crate::text::lemma_piece_at(lower, w, i);
    }
}

/// An event is counted and logged. It changes the state only where it names one, counts an
/// overflow only where it tells one, and replaces the error counters only where it has them.
pub proof fn law_bus_event_is_noted(s: StatsModel, e: BusEventModel, ts: Real)
    ensures
        ({
            let r = with_bus_event(s, e, ts);
            let last = r.events[r.events.len() - 1];
            &&& r.error_frames == s.error_frames + 1
            &&& e.rx_overflow ==> r.rx_overflows == s.rx_overflows + 1
            &&& !e.rx_overflow ==> r.rx_overflows == s.rx_overflows
            &&& e.state matches Some(x) ==> r.state == x
            &&& e.state is None ==> r.state == s.state
            &&& e.tec is Some ==> r.tec == e.tec && r.rec == e.rec
            &&& e.tec is None ==> r.tec == s.tec && r.rec == s.rec
            &&& r.events.len() > 0 && last.text == e.desc && last.ts == ts
            &&& last.severe <==> e.rx_overflow || e.state == Some(CtrlState::BusOff) || e.state
                == Some(CtrlState::ErrorPassive)
            &&& (r.rx_total, r.tx_total, r.tx_errors) == (s.rx_total, s.tx_total, s.tx_errors)
            &&& (r.connected, r.iface, r.recording, r.replay) == (
                s.connected,
                s.iface,
                s.recording,
                s.replay,
            )
        }),
{
    crate::bus::law_event_is_logged(
        StatsModel {
            error_frames: s.error_frames + 1,
            rx_overflows: if e.rx_overflow {
                s.rx_overflows + 1
            } else {
                s.rx_overflows
            },
            state: match e.state {
                Some(x) => x,
                None => s.state,
            },
            tec: if e.tec is Some {
                e.tec
            } else {
                s.tec
            },
            rec: if e.tec is Some {
                e.rec
            } else {
                s.rec
            },
            ..s
        },
        ts,
        e.desc,
        is_severe(e),
    );
}

/// The controller's state is the one that the device tells; a change is logged, but not when
/// nothing was known before. Counters that the device does not tell are kept. A device that
/// tells nothing is taken to be active once frames come in.
pub proof fn law_status_is_noted(s: StatsModel, d: Option<DeviceStatus>, ts: Real)
    ensures
        ({
            let r = with_status(s, d, ts);
            &&& (r.rx_total, r.tx_total, r.error_frames) == (s.rx_total, s.tx_total, s.error_frames)
            &&& (r.history, r.recording, r.replay) == (s.history, s.recording, s.replay)
            &&& match d {
                Some(x) => {
                    &&& r.state == x.state
                    &&& x.tec is Some ==> r.tec == x.tec
                    &&& x.tec is None ==> r.tec == s.tec
                    &&& x.rec is Some ==> r.rec == x.rec
                    &&& x.rec is None ==> r.rec == s.rec
                    &&& x.state == s.state || s.state == CtrlState::Unknown ==> r.events == s.events
                    &&& x.state != s.state && s.state != CtrlState::Unknown ==> {
                        &&& r.events.len() > 0
                        &&& r.events.last().text == "Controller state: "@ + x.state.label_text()
                        &&& r.events.last().ts == ts
                        &&& r.events.last().severe <==> x.state == CtrlState::BusOff || x.state
                            == CtrlState::ErrorPassive
                    }
                },
                None => {
                    &&& (r.tec, r.rec, r.events) == (s.tec, s.rec, s.events)
                    &&& s.state != CtrlState::Unknown || s.rx_total <= 0 ==> r.state == s.state
                    &&& s.state == CtrlState::Unknown && s.rx_total > 0 ==> r.state
                        == CtrlState::ErrorActive
                },
            }
        }),
{
    match d {
        Some(x) => {
            crate::bus::law_event_is_logged(
                s,
                ts,
                "Controller state: "@ + x.state.label_text(),
                x.state == CtrlState::BusOff || x.state == CtrlState::ErrorPassive,
            );
        },
        None => {},
    }
}

/// The rates of a window are shown and join the history; the peak never falls and is never
/// under the load.
pub proof fn law_rates_are_noted(s: StatsModel, r: Rates)
    ensures
        ({
            let x = with_rates(s, r);
            &&& x.fps == r.fps && x.load_pct == r.load
            &&& !x.peak_load_pct.lt(s.peak_load_pct) && !x.peak_load_pct.lt(r.load)
            &&& x.peak_load_pct == s.peak_load_pct || x.peak_load_pct == r.load
            &&& !s.peak_load_pct.nan() ==> !x.peak_load_pct.nan()
            &&& x.history.len() > 0 && x.history.last().load == r.load && x.history.last().fps == r.fps
            &&& s.history.len() < 300 ==> x.history.len() == s.history.len() + 1
            &&& s.history.len() == 300 ==> x.history.len() == 300
            &&& (x.events, x.state, x.rx_total, x.tx_total) == (
                s.events,
                s.state,
                s.rx_total,
                s.tx_total,
            )
        }),
{
}

/// The progress that is shown is that of the playback.
pub proof fn law_progress_is_shown(w: WorkerModel)
    ensures
        progress(w) is Some == w.replay is Some,
        w.replay matches Some(r) ==> (0 <= r.idx <= r.frames.len() <= usize::MAX && 0 <= r.loops
            <= u64::MAX ==> (progress(w) matches Some(p) && p.index == r.idx && p.total
            == r.frames.len() && p.looped == r.looped && p.loops == r.loops)),
{
}

/// An error whose text does not speak of it does not tell that the bus is off, or that frames
/// were lost.
pub proof fn law_failure_is_not_overread(text: Seq<char>, lower: Seq<char>)
    ensures
        (forall|i: int|
            0 <= i <= lower.len() ==> !"bus-off"@.is_prefix_of(#[trigger] lower.skip(i))
                && !"busoff"@.is_prefix_of(lower.skip(i)) && !"bus off"@.is_prefix_of(lower.skip(i)))
            ==> failure_event(text, lower).state is None,
        (forall|i: int|
            0 <= i <= lower.len() ==> !"overrun"@.is_prefix_of(#[trigger] lower.skip(i))
                && !"overflow"@.is_prefix_of(lower.skip(i))) ==> !failure_event(
            text,
            lower,
        ).rx_overflow,
{
    assert forall|w: Seq<char>| #[trigger] has_piece(lower, w) implies exists|i: int|
        0 <= i <= lower.len() && w.is_prefix_of(#[trigger] lower.skip(i)) by {
        crate::text::lemma_piece_somewhere(lower, w);
    }
}

/// A tick is due a quarter of a second after the last one, and not before.
pub proof fn law_ticks_keep_their_distance(last: int, now: int)
    ensures
        is_tick_due(last, now) == (now >= last + 250_000_000),
{
}

/// A tick notes its time. The window for frame rate and load, once it is a second long, begins
/// anew with no frames in it; nothing else of the worker changes.
pub proof fn law_windows_begin_anew(w: WorkerModel, now: int)
    ensures
        ({
            let t = ticked(w, now);
            &&& t.last_tick == now
            &&& now - w.win_start >= 1_000_000_000 ==> t.win_start == now && t.win_frames == 0
            &&& now - w.win_start < 1_000_000_000 ==> t.win_start == w.win_start && t.win_frames
                == w.win_frames
            &&& t == WorkerModel {
                last_tick: t.last_tick,
                win_start: t.win_start,
                win_frames: t.win_frames,
                ..w
            }
        }),
{
}

/// A tick shows the state of the controller, the recording and the replay as they are, and the
/// rates once the window is full; the totals do not change.
pub proof fn law_ticks_show_the_worker(
    s: StatsModel,
    w: WorkerModel,
    now: int,
    status: Option<DeviceStatus>,
    rates: Rates,
    ts: Real,
)
    ensures
        ({
            let t = ticked_stats(s, w, now, status, rates, ts);
            let full = now - w.win_start >= 1_000_000_000;
            &&& w.recorder is Some ==> t.recording == w.recorder
            &&& w.recorder is None ==> t.recording == s.recording
            &&& (t.replay is Some) == (w.replay is Some)
            &&& full ==> t.fps == rates.fps && t.load_pct == rates.load && t.history.len() > 0
                && t.history.last() == (HistoryPoint { load: rates.load, fps: rates.fps })
            &&& !full ==> t.fps == s.fps && t.load_pct == s.load_pct && t.history == s.history
                && t.peak_load_pct == s.peak_load_pct
            &&& status matches Some(x) ==> t.state == x.state
            &&& t.rx_total == s.rx_total && t.tx_total == s.tx_total && t.tx_errors == s.tx_errors
            &&& t.error_frames == s.error_frames && t.rx_overflows == s.rx_overflows
            &&& t.connected == s.connected && t.iface == s.iface && t.finished == s.finished
        }),
{
}

/// The end of a log is announced once, however often the device tells of it, with an event
/// that is not severe.
pub proof fn law_end_is_announced_once(w: WorkerModel, s: StatsModel, ts: Real)
    ensures
        finish_noted(w, s, false, ts) == (w, s),
        w.announced_finish ==> finish_noted(w, s, true, ts) == (w, s),
        ({
            let (v, t) = finish_noted(w, s, true, ts);
            &&& v.announced_finish && finish_noted(v, t, true, ts) == (v, t)
            &&& v == WorkerModel { announced_finish: true, ..w }
            &&& !w.announced_finish ==> t.finished && t.events.len() > 0 && t.events.last() == (
            EventEntryModel { ts, text: "End of log file reached"@, severe: false })
            &&& t == StatsModel { finished: t.finished, events: t.events, ..s }
        }),
{
}

/// A connection begins with every count at zero, nothing known of the controller and no
/// recording or replay; the load history and the events before it stay. It ends with the
/// counts as they are.
pub proof fn law_connections_begin_and_end(
    s: StatsModel,
    iface: Seq<char>,
    bitrate: u32,
    kind: BackendKind,
    ts: Real,
)
    ensures
        ({
            let c = connected_stats(s, iface, bitrate, kind, ts);
            &&& c.connected && c.iface == iface && c.bitrate == bitrate
            &&& c.state == CtrlState::Unknown && c.tec is None && c.rec is None
            &&& c.rx_total == 0 && c.tx_total == 0 && c.tx_errors == 0 && c.error_frames == 0
            &&& c.rx_overflows == 0 && c.fps.bits == 0 && c.load_pct.bits == 0
            &&& c.peak_load_pct.bits == 0 && c.recording is None && c.replay is None && !c.finished
            &&& c.history == s.history
            &&& c.events.len() > 0 && !c.events.last().severe && c.events.last().ts == ts
            &&& c.events.last().text == "Connected to "@ + iface + " ("@ + kind.label_text() + ")"@
            &&& s.events.len() < 1000 ==> c.events == s.events.push(c.events.last())
        }),
        ({
            let d = disconnected_stats(s, ts);
            &&& !d.connected && d.recording is None && d.replay is None
            &&& d.events.len() > 0 && d.events.last() == (EventEntryModel {
                ts,
                text: "Disconnected"@,
                severe: false,
            })
            &&& d == StatsModel {
                connected: false,
                recording: None,
                replay: None,
                events: d.events,
                ..s
            }
        }),
{
}

/// Frames that were received or sent count in the window, in the recording and in the totals
/// of their direction, and are then done with.
pub proof fn law_batches_are_applied_once(w: WorkerModel, s: StatsModel, ts: Real, m: Frame)
    ensures
        flushed(w).batch.len() == 0 && flushed(w).events.len() == 0,
        flushed(w).win_frames == w.win_frames + w.batch.len(),
        w.recorder matches Some(x) ==> flushed(w).recorder == Some((x.0, x.1 + w.batch.len())),
        w.recorder is None ==> flushed(w).recorder is None,
        flushed(w) == (WorkerModel {
            batch: flushed(w).batch,
            events: flushed(w).events,
            win_frames: flushed(w).win_frames,
            recorder: flushed(w).recorder,
            ..w
        }),
        flushed(flushed(w)) == flushed(w),
        ({
            let one = WorkerModel { batch: w.batch.push(m), ..w };
            let a = flushed_stats(s, w, ts);
            let b = flushed_stats(s, one, ts);
            &&& w.events.len() == 0 && m.dir == Dir::Rx ==> b.rx_total == a.rx_total + 1 && b.tx_total
                == a.tx_total
            &&& w.events.len() == 0 && m.dir == Dir::Tx ==> b.tx_total == a.tx_total + 1 && b.rx_total
                == a.rx_total
        }),
        w.batch.len() == 0 && w.events.len() == 0 ==> flushed_stats(s, w, ts) == s,
{
    assert(w.batch.push(m).drop_last() =~= w.batch);
    assert(flushed(flushed(w)) == flushed(w)) by {
        assert(flushed(w).batch =~= Seq::empty());
        assert(flushed(w).events =~= Seq::empty());
    }
}

/// The device is asked up to 4096 times in a burst, waiting the first time only.
pub proof fn law_bursts(calls: usize, first: u64)
    ensures
        burst_timeout_of(0, first) == Some(first),
        0 < calls < 4096 ==> burst_timeout_of(calls, first) == Some(0u64),
        calls >= 4096 ==> burst_timeout_of(calls, first) is None,
{
}

/// After an answer that came the device is asked again, after none the burst is over; after a
/// failure there is a pause, which gets longer once ten have come in a row.
pub proof fn law_pauses_after_failures(w: WorkerModel, r: Received)
    ensures
        r is Event ==> next_after(w, r) == Next::Again,
        r is Nothing ==> next_after(w, r) == Next::Done,
        r is Failed && w.consecutive_errors < 10 ==> next_after(w, r) == Next::Sleep(1),
        r is Failed && w.consecutive_errors >= 10 ==> next_after(w, r) == Next::Sleep(20),
{
}

/// What is dropped and what is taken of the frames on offer is counted one by one, as are the
/// frames of a direction.
pub proof fn law_counts_of_a_batch(a: Seq<Offered>, o: Offered, f: Seq<Frame>, m: Frame, d: Dir)
    ensures
        lost(a.push(o)) == lost(a) + (if o == Offered::Full {
            1int
        } else {
            0int
        }),
        taken(a.push(o)) == taken(a) + (if o == Offered::Taken {
            1int
        } else {
            0int
        }),
        heading(f.push(m), d) == heading(f, d) + (if m.dir == d {
            1int
        } else {
            0int
        }),
        lost(Seq::empty()) == 0 && taken(Seq::empty()) == 0 && heading(Seq::empty(), d) == 0,
{
    assert(a.push(o).drop_last() =~= a);
    assert(f.push(m).drop_last() =~= f);
}

} // verus!
