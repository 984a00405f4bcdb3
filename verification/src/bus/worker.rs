//! The worker: decides what the bus thread does, in step with the device.
//!
//! The caller owns the device, the clock, the recording file and the live stream. It hands
//! in what they report and carries out what the worker decides. Times are nanoseconds on a
//! clock of the caller's choice; timestamps of frames and events are seconds since the Unix
//! epoch.

use vstd::prelude::*;
use crate::bus::{BusStats, StatsModel};
use crate::candump::frame_views;
use crate::device::{BusEvent, BusEventModel};
use crate::msg::{greatest, id_text, put_id, CanMsg, Dir, Frame};
use crate::number::{decimal, put_decimal, Real};
use crate::text::{put, string_of};

verus! {

/// `str::to_lowercase` of a text.
pub uninterp spec fn unicode_lower(s: Seq<char>) -> Seq<char>;

/// `str::to_lowercase`: the text in small letters, by the rules of Unicode.
#[verifier::external_body]
pub(crate) fn lowercase(s: &str) -> (r: String)
    ensures
        r@ == unicode_lower(s@),
{
    s.to_lowercase()
}

/// A message that is sent again and again.
pub struct Periodic {
    pub id: u64,
    pub msg: CanMsg,
    pub period: u64,
    /// When the message is sent next.
    pub next: u64,
    pub enabled: bool,
}

/// What a periodic message says.
#[verifier::ext_equal]
pub ghost struct PeriodicModel {
    pub id: u64,
    pub msg: Frame,
    pub period: int,
    pub next: int,
    pub enabled: bool,
}

impl View for Periodic {
    type V = PeriodicModel;

    open spec fn view(&self) -> PeriodicModel {
        PeriodicModel {
            id: self.id,
            msg: self.msg@,
            period: self.period as int,
            next: self.next as int,
            enabled: self.enabled,
        }
    }
}

/// A log that is being played back.
pub struct Replay {
    pub frames: Vec<CanMsg>,
    /// When each frame is due, counted from `start`.
    pub offsets: Vec<u64>,
    pub looped: bool,
    pub loops: u64,
    pub idx: usize,
    pub start: u64,
}

/// What a playback says.
#[verifier::ext_equal]
pub ghost struct ReplayModel {
    pub frames: Seq<Frame>,
    pub offsets: Seq<u64>,
    pub looped: bool,
    pub loops: int,
    pub idx: int,
    pub start: int,
}

impl View for Replay {
    type V = ReplayModel;

    open spec fn view(&self) -> ReplayModel {
        ReplayModel {
            frames: frame_views(self.frames@),
            offsets: self.offsets@,
            looped: self.looped,
            loops: self.loops as int,
            idx: self.idx as int,
            start: self.start as int,
        }
    }
}

impl Replay {
    /// Every frame has its time.
    pub open spec fn wf(self) -> bool {
        &&& self.offsets@.len() == self.frames@.len()
        &&& self.idx <= self.frames@.len()
        &&& forall|i: int| 0 <= i < self.frames@.len() ==> (#[trigger] self.frames@[i]).wf()
    }
}

/// A recording: its file and the frames written to it.
pub struct Recorder {
    pub path: String,
    pub count: u64,
}

/// What is decided about the bus thread.
pub struct Worker {
    pub iface: String,
    pub periodic: Vec<Periodic>,
    pub replay: Option<Replay>,
    pub recorder: Option<Recorder>,
    /// Start of the rolling window for frame rate and bus load.
    pub win_start: u64,
    pub win_frames: u64,
    pub last_tick: u64,
    pub consecutive_errors: u32,
    /// Frames and events that are not applied yet.
    pub batch: Vec<CanMsg>,
    pub events: Vec<BusEvent>,
    pub stop: bool,
    pub announced_finish: bool,
}

/// What a worker says.
#[verifier::ext_equal]
pub ghost struct WorkerModel {
    pub iface: Seq<char>,
    pub periodic: Seq<PeriodicModel>,
    pub replay: Option<ReplayModel>,
    pub recorder: Option<(Seq<char>, int)>,
    pub win_start: int,
    pub win_frames: int,
    pub last_tick: int,
    pub consecutive_errors: int,
    pub batch: Seq<Frame>,
    pub events: Seq<BusEventModel>,
    pub stop: bool,
    pub announced_finish: bool,
}

/// The contents of periodic messages.
pub open spec fn periodic_views(v: Seq<Periodic>) -> Seq<PeriodicModel> {
    Seq::new(v.len(), |i: int| v[i]@)
}

/// The contents of events.
pub open spec fn event_views(v: Seq<BusEvent>) -> Seq<BusEventModel> {
    Seq::new(v.len(), |i: int| v[i]@)
}

/// The contents of an optional recording.
pub open spec fn recorder_view(r: Option<Recorder>) -> Option<(Seq<char>, int)> {
    match r {
        Some(r) => Some((r.path@, r.count as int)),
        None => None,
    }
}

/// The contents of an optional playback.
pub open spec fn replay_view(r: Option<Replay>) -> Option<ReplayModel> {
    match r {
        Some(r) => Some(r@),
        None => None,
    }
}

impl View for Worker {
    type V = WorkerModel;

    open spec fn view(&self) -> WorkerModel {
        WorkerModel {
            iface: self.iface@,
            periodic: periodic_views(self.periodic@),
            replay: replay_view(self.replay),
            recorder: recorder_view(self.recorder),
            win_start: self.win_start as int,
            win_frames: self.win_frames as int,
            last_tick: self.last_tick as int,
            consecutive_errors: self.consecutive_errors as int,
            batch: frame_views(self.batch@),
            events: event_views(self.events@),
            stop: self.stop,
            announced_finish: self.announced_finish,
        }
    }
}

/// Whether no two periodic messages have the same ID.
pub open spec fn distinct_ids(v: Seq<PeriodicModel>) -> bool {
    forall|i: int, j: int| 0 <= i < j < v.len() ==> (#[trigger] v[i]).id != (#[trigger] v[j]).id
}

impl Worker {
    /// Frames are well formed, and each periodic message stands once.
    pub open spec fn wf(self) -> bool {
        &&& forall|i: int| 0 <= i < self.batch@.len() ==> (#[trigger] self.batch@[i]).wf()
        &&& forall|i: int| 0 <= i < self.periodic@.len() ==> (#[trigger] self.periodic@[i]).msg.wf()
        &&& self.replay matches Some(r) ==> r.wf()
        &&& distinct_ids(self@.periodic)
    }

    /// A worker that has just started.
    pub fn new(iface: String, now: u64) -> (r: Self)
        ensures
            r.wf(),
            r@ == (WorkerModel {
                iface: iface@,
                periodic: Seq::empty(),
                replay: None,
                recorder: None,
                win_start: now as int,
                win_frames: 0,
                last_tick: now as int,
                consecutive_errors: 0,
                batch: Seq::empty(),
                events: Seq::empty(),
                stop: false,
                announced_finish: false,
            }),
    {
        let r = Worker {
            iface,
            periodic: Vec::new(),
            replay: None,
            recorder: None,
            win_start: now,
            win_frames: 0,
            last_tick: now,
            consecutive_errors: 0,
            batch: Vec::new(),
            events: Vec::new(),
            stop: false,
            announced_finish: false,
        };
        assert(r@.periodic =~= Seq::<PeriodicModel>::empty());
        assert(r@.batch =~= Seq::<Frame>::empty());
        assert(r@.events =~= Seq::<BusEventModel>::empty());
        r
    }
}

/// What the user asks for.
pub enum Cmd {
    Send(CanMsg),
    SetPeriodic { id: u64, msg: CanMsg, period: u64, enabled: bool },
    RemovePeriodic(u64),
    /// `offsets` holds when each frame is due; `speed` is the speed factor as text.
    StartReplay { frames: Vec<CanMsg>, offsets: Vec<u64>, speed: String, looped: bool },
    StopReplay,
    StartRecording(String),
    StopRecording,
    Stop,
}

impl Cmd {
    /// Frames are well formed, and each frame of a playback has its time.
    pub open spec fn wf(self) -> bool {
        match self {
            Cmd::Send(m) => m.wf(),
            Cmd::SetPeriodic { msg, .. } => msg.wf(),
            Cmd::StartReplay { frames, offsets, .. } => {
                &&& offsets@.len() == frames@.len()
                &&& forall|i: int| 0 <= i < frames@.len() ==> (#[trigger] frames@[i]).wf()
            },
            _ => true,
        }
    }
}

/// What the caller is to do about a command.
pub enum Action {
    Nothing,
    /// Send the frame and report with [`Worker::sent`] or [`send_failed`].
    Transmit(CanMsg),
    /// Create the file and report with [`Worker::recording_opened`].
    Create(String),
    /// Write out and close the recording.
    Close,
}

/// Shortest period, in nanoseconds.
pub const MIN_PERIOD: u64 = 100_000;

/// The periodic messages with one more, or one replaced.
pub open spec fn with_periodic(v: Seq<PeriodicModel>, p: PeriodicModel) -> Seq<PeriodicModel>
    decreases v.len(),
{
    if v.len() == 0 {
        seq![p]
    } else if v[0].id == p.id {
        seq![p] + v.skip(1)
    } else {
        seq![v[0]] + with_periodic(v.skip(1), p)
    }
}

/// The periodic messages without the one with this ID.
pub open spec fn without_periodic(v: Seq<PeriodicModel>, id: u64) -> Seq<PeriodicModel>
    decreases v.len(),
{
    if v.len() == 0 {
        v
    } else if v[0].id == id {
        v.skip(1)
    } else {
        seq![v[0]] + without_periodic(v.skip(1), id)
    }
}

proof fn lemma_with_periodic(v: Seq<PeriodicModel>, p: PeriodicModel, n: int)
    requires
        0 <= n <= v.len(),
        forall|i: int| 0 <= i < n ==> (#[trigger] v[i]).id != p.id,
        n < v.len() ==> v[n].id == p.id,
    ensures
        with_periodic(v, p) == (if n < v.len() {
            v.update(n, p)
        } else {
            v.push(p)
        }),
    decreases n,
{
    if v.len() == 0 {
        assert(with_periodic(v, p) =~= v.push(p));
    } else if n == 0 {
        assert(with_periodic(v, p) =~= v.update(0, p));
    } else {
        assert(v[0].id != p.id);
        let w = v.skip(1);
        assert forall|i: int| 0 <= i < n - 1 implies (#[trigger] w[i]).id != p.id by {
            assert(w[i] == v[i + 1]);
        }
        lemma_with_periodic(w, p, n - 1);
        if n < v.len() {
            assert(with_periodic(v, p) =~= v.update(n, p));
        } else {
            assert(with_periodic(v, p) =~= v.push(p));
        }
    }
}

proof fn lemma_without_periodic(v: Seq<PeriodicModel>, id: u64, n: int)
    requires
        0 <= n <= v.len(),
        forall|i: int| 0 <= i < n ==> (#[trigger] v[i]).id != id,
        n < v.len() ==> v[n].id == id,
    ensures
        without_periodic(v, id) == (if n < v.len() {
            v.remove(n)
        } else {
            v
        }),
    decreases n,
{
    if v.len() == 0 {
    } else if n == 0 {
        assert(without_periodic(v, id) =~= v.remove(0));
    } else {
        assert(v[0].id != id);
        let w = v.skip(1);
        assert forall|i: int| 0 <= i < n - 1 implies (#[trigger] w[i]).id != id by {
            assert(w[i] == v[i + 1]);
        }
        lemma_without_periodic(w, id, n - 1);
        if n < v.len() {
            assert(without_periodic(v, id) =~= v.remove(n));
        } else {
            assert(without_periodic(v, id) =~= v);
        }
    }
}

fn find_periodic(v: &Vec<Periodic>, id: u64) -> (r: usize)
    ensures
        r <= v@.len(),
        forall|i: int| 0 <= i < r ==> (#[trigger] v@[i]).id != id,
        r < v@.len() ==> v@[r as int].id == id,
{
    let mut i: usize = 0;
    while i < v.len() && v[i].id != id
        invariant
            i <= v@.len(),
            forall|j: int| 0 <= j < i ==> (#[trigger] v@[j]).id != id,
        decreases v@.len() - i,
    {
        i = i + 1;
    }
    i
}

/// Text of the event for the start of a playback.
pub open spec fn replay_started(n: int, speed: Seq<char>) -> Seq<char> {
    "Playback started ("@ + decimal(n) + " frames, "@ + speed + "x)"@
}

/// Text of the event for the end of a recording.
pub open spec fn recording_stopped(n: int, path: Seq<char>) -> Seq<char> {
    "Recording stopped: "@ + decimal(n) + " frames written to "@ + path
}

/// What a command does to the worker.
pub open spec fn after_cmd(w: WorkerModel, cmd: Cmd, now: int) -> WorkerModel {
    match cmd {
        Cmd::Send(_) => w,
        Cmd::SetPeriodic { id, msg, period, enabled } => WorkerModel {
            periodic: with_periodic(
                w.periodic,
                PeriodicModel {
                    id,
                    msg: msg@,
                    period: greatest(period as int, MIN_PERIOD as int),
                    next: now,
                    enabled,
                },
            ),
            ..w
        },
        Cmd::RemovePeriodic(id) => WorkerModel {
            periodic: without_periodic(w.periodic, id),
            ..w
        },
        Cmd::StartReplay { frames, offsets, speed, looped } => WorkerModel {
            replay: Some(
                ReplayModel {
                    frames: frame_views(frames@),
                    offsets: offsets@,
                    looped,
                    loops: 0,
                    idx: 0,
                    start: now,
                },
            ),
            ..w
        },
        Cmd::StopReplay => WorkerModel { replay: None, ..w },
        Cmd::StartRecording(_) => w,
        Cmd::StopRecording => WorkerModel { recorder: None, ..w },
        Cmd::Stop => WorkerModel { stop: true, ..w },
    }
}

/// What a command does to the state of the connection.
pub open spec fn stats_after_cmd(s: StatsModel, w: WorkerModel, cmd: Cmd, ts: Real) -> StatsModel {
    match cmd {
        Cmd::StartReplay { frames, speed, .. } => s.with_event(
            ts,
            replay_started(frames@.len() as int, speed@),
            false,
        ),
        Cmd::StopReplay => if w.replay is Some {
            StatsModel { replay: None, ..s }.with_event(ts, "Playback stopped"@, false)
        } else {
            s
        },
        Cmd::StopRecording => match w.recorder {
            Some((path, n)) => StatsModel { recording: None, ..s }.with_event(
                ts,
                recording_stopped(n, path),
                false,
            ),
            None => s,
        },
        _ => s,
    }
}

/// What the caller is to do about a command.
pub open spec fn action_for(w: WorkerModel, cmd: Cmd, a: Action) -> bool {
    match cmd {
        Cmd::Send(m) => a == Action::Transmit(m),
        Cmd::StartRecording(p) => a matches Action::Create(q) && q@ == p@,
        Cmd::StopRecording => a == (if w.recorder is Some {
            Action::Close
        } else {
            Action::Nothing
        }),
        _ => a == Action::Nothing,
    }
}

/// The frame as it was sent: at the time of sending, and outwards.
pub open spec fn as_sent(m: Frame, ts: Real) -> Frame {
    Frame { ts, dir: Dir::Tx, ..m }
}

/// Text of the event for a frame that could not be sent.
pub open spec fn send_error_text(m: Frame, e: Seq<char>) -> Seq<char> {
    "Transmit "@ + id_text(m.id, m.ext) + " failed: "@ + e
}

/// Whether an error that keeps coming is worth an event: the first five, then every 500th.
pub open spec fn send_error_shown(n: int) -> bool {
    n <= 5 || n % 500 == 0
}

/// A worker and what is known of the bus once a file to record to was created, or not.
pub open spec fn recording_begun(
    w: WorkerModel,
    s: StatsModel,
    path: Seq<char>,
    error: Option<Seq<char>>,
    ts: Real,
) -> (WorkerModel, StatsModel) {
    match error {
        None => (
            WorkerModel { recorder: Some((path, 0)), ..w },
            StatsModel {
                recording: Some((path, 0)),
                ..s.with_event(ts, "Recording to "@ + path, false)
            },
        ),
        Some(e) => (w, s.with_event(ts, "Cannot record to "@ + path + ": "@ + e, true)),
    }
}

/// A worker that has sent a frame.
pub open spec fn after_sending(w: WorkerModel, m: Frame, ts: Real) -> WorkerModel {
    WorkerModel { batch: w.batch.push(Frame { ts, dir: Dir::Tx, ..m }), ..w }
}

/// What is known of the bus once a frame could not be sent.
pub open spec fn after_failing(s: StatsModel, m: Frame, e: Seq<char>, ts: Real) -> StatsModel {
    let t = StatsModel { tx_errors: s.tx_errors + 1, ..s };
    if send_error_shown(t.tx_errors) {
        t.with_event(ts, send_error_text(m, e), true)
    } else {
        t
    }
}

impl Worker {
    fn set_periodic(&mut self, p: Periodic)
        requires
            old(self).wf(),
            p.msg.wf(),
        ensures
            final(self).wf(),
            final(self)@ == (WorkerModel {
                periodic: with_periodic(old(self)@.periodic, p@),
                ..old(self)@
            }),
    {
        let ghost before = self@;
        let ghost raw = self.periodic@;
        let n: usize = find_periodic(&self.periodic, p.id);
        let ghost pv = p@;
        proof {
            assert forall|i: int| 0 <= i < n implies (#[trigger] before.periodic[i]).id != pv.id by {
                assert(raw[i].id != pv.id);
            }
            lemma_with_periodic(before.periodic, pv, n as int);
        }
        if n < self.periodic.len() {
            self.periodic.set(n, p);
            assert(self@.periodic =~= before.periodic.update(n as int, pv));
        } else {
            self.periodic.push(p);
            assert(self@.periodic =~= before.periodic.push(pv));
        }
        proof {
            assert forall|i: int| 0 <= i < self.periodic@.len() implies (
            #[trigger] self.periodic@[i]).msg.wf() by {
                if i < raw.len() && i != n {
                    assert(raw[i].msg.wf());
                }
            }
            let v = self@.periodic;
            assert forall|i: int, j: int| 0 <= i < j < v.len() implies (#[trigger] v[i]).id != (
            #[trigger] v[j]).id by {
                if i != n && j != n && j < raw.len() {
                    assert(before.periodic[i].id != before.periodic[j].id);
                } else if j == n {
                    assert(raw[i].id != pv.id);
                } else if i == n {
                    assert(before.periodic[i].id != before.periodic[j].id);
                }
            }
        }
    }

    fn remove_periodic(&mut self, id: u64)
        requires
            old(self).wf(),
        ensures
            final(self).wf(),
            final(self)@ == (WorkerModel {
                periodic: without_periodic(old(self)@.periodic, id),
                ..old(self)@
            }),
    {
        let ghost before = self@;
        let ghost raw = self.periodic@;
        let n: usize = find_periodic(&self.periodic, id);
        proof {
            assert forall|i: int| 0 <= i < n implies (#[trigger] before.periodic[i]).id != id by {
                assert(raw[i].id != id);
            }
            lemma_without_periodic(before.periodic, id, n as int);
        }
        if n < self.periodic.len() {
            self.periodic.remove(n);
            assert(self@.periodic =~= before.periodic.remove(n as int));
            proof {
                assert forall|i: int| 0 <= i < self.periodic@.len() implies (
                #[trigger] self.periodic@[i]).msg.wf() by {
                    if i < n {
                        assert(raw[i].msg.wf());
                    } else {
                        assert(raw[i + 1].msg.wf());
                    }
                }
                let v = self@.periodic;
                assert forall|i: int, j: int| 0 <= i < j < v.len() implies (#[trigger] v[i]).id != (
                #[trigger] v[j]).id by {
                    let a = if i < n {
                        i
                    } else {
                        i + 1
                    };
                    let b = if j < n {
                        j
                    } else {
                        j + 1
                    };
                    assert(before.periodic[a].id != before.periodic[b].id);
                }
            }
        }
    }

    /// Carries out a command, as far as the device and files are left aside.
    pub fn handle_cmd(&mut self, cmd: Cmd, now: u64, ts: Real, stats: &mut BusStats) -> (r: Action)
        requires
            old(self).wf(),
            cmd.wf(),
        ensures
            final(self).wf(),
            final(self)@ == after_cmd(old(self)@, cmd, now as int),
            final(stats)@ == stats_after_cmd(old(stats)@, old(self)@, cmd, ts),
            action_for(old(self)@, cmd, r),
    {
        match cmd {
            Cmd::Send(m) => Action::Transmit(m),
            Cmd::SetPeriodic { id, msg, period, enabled } => {
                let period: u64 = if period > MIN_PERIOD {
                    period
                } else {
                    MIN_PERIOD
                };
                self.set_periodic(Periodic { id, msg, period, next: now, enabled });
                Action::Nothing
            },
            Cmd::RemovePeriodic(id) => {
                self.remove_periodic(id);
                Action::Nothing
            },
            Cmd::StartReplay { frames, offsets, speed, looped } => {
                let mut t: Vec<char> = Vec::new();
                put(&mut t, "Playback started (");
                put_decimal(&mut t, frames.len() as u64);
                put(&mut t, " frames, ");
                put(&mut t, speed.as_str());
                put(&mut t, "x)");
                assert(t@ =~= replay_started(frames@.len() as int, speed@));
                self.replay = Some(Replay { frames, offsets, looped, loops: 0, idx: 0, start: now });
                stats.push_event(ts, string_of(t.as_slice()), false);
                Action::Nothing
            },
            Cmd::StopReplay => {
                if self.replay.is_some() {
                    self.replay = None;
                    stats.replay = None;
                    stats.push_event(ts, "Playback stopped".to_string(), false);
                }
                Action::Nothing
            },
            Cmd::StartRecording(path) => Action::Create(path),
            Cmd::StopRecording => {
                let mut t: Vec<char> = Vec::new();
                match &self.recorder {
                    None => {
                        return Action::Nothing;
                    },
                    Some(rec) => {
                        put(&mut t, "Recording stopped: ");
                        put_decimal(&mut t, rec.count);
                        put(&mut t, " frames written to ");
                        put(&mut t, rec.path.as_str());
                        assert(t@ =~= recording_stopped(rec.count as int, rec.path@));
                    },
                }
                self.recorder = None;
                stats.recording = None;
                stats.push_event(ts, string_of(t.as_slice()), false);
                Action::Close
            },
            Cmd::Stop => {
                self.stop = true;
                Action::Nothing
            },
        }
    }

    /// Takes note that the file of a recording was created, or why it could not be.
    pub fn recording_opened(
        &mut self,
        path: String,
        error: Option<String>,
        ts: Real,
        stats: &mut BusStats,
    )
        requires
            old(self).wf(),
        ensures
            final(self).wf(),
            match error {
                None => {
                    &&& final(self)@ == (WorkerModel { recorder: Some((path@, 0)), ..old(self)@ })
                    &&& final(stats)@ == (StatsModel {
                        recording: Some((path@, 0)),
                        ..old(stats)@.with_event(ts, "Recording to "@ + path@, false)
                    })
                },
                Some(e) => {
                    &&& final(self)@ == old(self)@
                    &&& final(stats)@ == old(stats)@.with_event(
                        ts,
                        "Cannot record to "@ + path@ + ": "@ + e@,
                        true,
                    )
                },
            },
            (final(self)@, final(stats)@) == recording_begun(
                old(self)@,
                old(stats)@,
                path@,
                crate::symbols::text_view(error),
                ts,
            ),
    {
        let mut t: Vec<char> = Vec::new();
        match error {
            None => {
                put(&mut t, "Recording to ");
                put(&mut t, path.as_str());
                assert(t@ =~= "Recording to "@ + path@);
                stats.push_event(ts, string_of(t.as_slice()), false);
                stats.recording = Some((path.clone(), 0));
                self.recorder = Some(Recorder { path, count: 0 });
            },
            Some(e) => {
                put(&mut t, "Cannot record to ");
                put(&mut t, path.as_str());
                put(&mut t, ": ");
                put(&mut t, e.as_str());
                assert(t@ =~= "Cannot record to "@ + path@ + ": "@ + e@);
                stats.push_event(ts, string_of(t.as_slice()), true);
            },
        }
    }

    /// Takes note that a frame was sent.
    pub fn sent(&mut self, m: CanMsg, ts: Real)
        requires
            old(self).wf(),
            m.wf(),
        ensures
            final(self).wf(),
            final(self)@ == (WorkerModel {
                batch: old(self)@.batch.push(as_sent(m@, ts)),
                ..old(self)@
            }),
            final(self)@ == after_sending(old(self)@, m@, ts),
    {
        let ghost before = self@;
        let ghost raw = self.batch@;
        let mut n = m;
        n.ts = ts;
        n.dir = Dir::Tx;
        self.batch.push(n);
        assert(n@ =~= as_sent(m@, ts));
        assert(self@.batch =~= before.batch.push(as_sent(m@, ts)));
        assert forall|i: int| 0 <= i < self.batch@.len() implies (#[trigger] self.batch@[i]).wf() by {
            if i < raw.len() {
                assert(raw[i].wf());
            }
        }
    }
}

/// Takes note that a frame could not be sent. An error that keeps coming does not fill the
/// log.
pub fn send_failed(stats: &mut BusStats, m: &CanMsg, error: &str, ts: Real)
    requires
        old(stats).tx_errors < u64::MAX,
    ensures
        ({
            let n = old(stats)@.tx_errors + 1;
            let s = StatsModel { tx_errors: n, ..old(stats)@ };
            final(stats)@ == if send_error_shown(n) {
                s.with_event(ts, send_error_text(m@, error@), true)
            } else {
                s
            }
        }),
        final(stats)@ == after_failing(old(stats)@, m@, error@, ts),
{
    stats.tx_errors = stats.tx_errors + 1;
    if stats.tx_errors <= 5 || stats.tx_errors % 500 == 0 {
        let mut t: Vec<char> = Vec::new();
        put(&mut t, "Transmit ");
        put_id(&mut t, m.id, m.ext);
        put(&mut t, " failed: ");
        put(&mut t, error);
        assert(t@ =~= send_error_text(m@, error@));
        stats.push_event(ts, string_of(t.as_slice()), true);
    }
}

/// Setting a periodic message leaves exactly one entry with its ID, which is the one that was
/// set. All others stay as they are and where they are.
pub proof fn law_periodic_is_set(v: Seq<PeriodicModel>, p: PeriodicModel)
    requires
        distinct_ids(v),
    ensures
        ({
            let r = with_periodic(v, p);
            &&& exists|i: int| 0 <= i < r.len() && #[trigger] r[i] == p
            &&& forall|i: int|
                0 <= i < r.len() && (#[trigger] r[i]).id == p.id ==> r[i] == p
            &&& distinct_ids(r)
            &&& v.len() <= r.len() <= v.len() + 1
            &&& forall|i: int| 0 <= i < v.len() && (#[trigger] v[i]).id != p.id ==> r[i] == v[i]
            &&& (exists|i: int| 0 <= i < v.len() && (#[trigger] v[i]).id == p.id) ==> r.len()
                == v.len()
        }),
{
    let n = if exists|i: int| 0 <= i < v.len() && (#[trigger] v[i]).id == p.id {
        choose|i: int| 0 <= i < v.len() && (#[trigger] v[i]).id == p.id
    } else {
        v.len() as int
    };
    assert forall|i: int| 0 <= i < n implies (#[trigger] v[i]).id != p.id by {
        if n < v.len() {
            assert(v[i].id != v[n].id);
        }
    }
    lemma_with_periodic(v, p, n);
    let r = with_periodic(v, p);
    assert(r[n] == p);
    assert forall|i: int| 0 <= i < r.len() && (#[trigger] r[i]).id == p.id implies r[i] == p by {
        if i != n && n < v.len() {
            assert(r[i] == v[i]);
            if i < n {
                assert(v[i].id != v[n].id);
            } else {
                assert(v[n].id != v[i].id);
            }
        }
    }
    assert forall|i: int, j: int| 0 <= i < j < r.len() implies (#[trigger] r[i]).id != (
    #[trigger] r[j]).id by {
        if j < v.len() {
            assert(v[i].id != v[j].id);
        }
    }
}

/// Removing a periodic message leaves no entry with its ID and all others, in their order.
pub proof fn law_periodic_is_removed(v: Seq<PeriodicModel>, id: u64)
    requires
        distinct_ids(v),
    ensures
        ({
            let r = without_periodic(v, id);
            &&& forall|i: int| 0 <= i < r.len() ==> (#[trigger] r[i]).id != id
            &&& forall|i: int|
                0 <= i < v.len() && (#[trigger] v[i]).id != id ==> exists|j: int|
                    0 <= j < r.len() && (j == i || j == i - 1) && #[trigger] r[j] == v[i]
            &&& r.len() + 1 >= v.len()
            &&& (forall|i: int| 0 <= i < v.len() ==> (#[trigger] v[i]).id != id) ==> r == v
        }),
{
    let n = if exists|i: int| 0 <= i < v.len() && (#[trigger] v[i]).id == id {
        choose|i: int| 0 <= i < v.len() && (#[trigger] v[i]).id == id
    } else {
        v.len() as int
    };
    assert forall|i: int| 0 <= i < n implies (#[trigger] v[i]).id != id by {
        if n < v.len() {
            assert(v[i].id != v[n].id);
        }
    }
    lemma_without_periodic(v, id, n);
    let r = without_periodic(v, id);
    assert forall|i: int| 0 <= i < r.len() implies (#[trigger] r[i]).id != id by {
        if n < v.len() && i >= n {
            assert(r[i] == v[i + 1]);
            assert(v[n].id != v[i + 1].id);
        } else {
            assert(r[i] == v[i]);
        }
    }
    assert forall|i: int| 0 <= i < v.len() && (#[trigger] v[i]).id != id implies exists|j: int|
        0 <= j < r.len() && (j == i || j == i - 1) && #[trigger] r[j] == v[i] by {
        let j = if i > n {
            i - 1
        } else {
            i
        };
        assert(r[j] == v[i]);
    }
}

/// A periodic message that was set is due at once, with a period of at least a tenth of a
/// millisecond, which is the one asked for where that is not shorter. Frames to send and
/// files to record to leave the worker as it is; playback begins at its first frame, now.
pub proof fn law_commands_take_effect(w: WorkerModel, cmd: Cmd, now: int)
    requires
        distinct_ids(w.periodic),
    ensures
        ({
            let r = after_cmd(w, cmd, now);
            &&& (r.batch, r.events, r.iface, r.win_start) == (w.batch, w.events, w.iface, w.win_start)
            &&& (r.win_frames, r.last_tick) == (w.win_frames, w.last_tick)
            &&& (r.consecutive_errors, r.announced_finish) == (
                w.consecutive_errors,
                w.announced_finish,
            )
            &&& match cmd {
                Cmd::Send(_) => r == w,
                Cmd::StartRecording(_) => r == w,
                Cmd::SetPeriodic { id, msg, period, enabled } => {
                    &&& exists|i: int|
                        {
                            &&& 0 <= i < r.periodic.len()
                            &&& (#[trigger] r.periodic[i]).id == id
                            &&& r.periodic[i].msg == msg@ && r.periodic[i].enabled == enabled
                            &&& r.periodic[i].next == now
                            &&& r.periodic[i].period >= 100_000
                            &&& period >= 100_000 ==> r.periodic[i].period == period
                            &&& period < 100_000 ==> r.periodic[i].period == 100_000
                        }
                    &&& (r.replay, r.recorder, r.stop) == (w.replay, w.recorder, w.stop)
                },
                Cmd::RemovePeriodic(id) => {
                    &&& forall|i: int| 0 <= i < r.periodic.len() ==> (#[trigger] r.periodic[i]).id != id
                    &&& (r.replay, r.recorder, r.stop) == (w.replay, w.recorder, w.stop)
                },
                Cmd::StartReplay { frames, offsets, looped, .. } => {
                    &&& r.replay matches Some(x) && x.idx == 0 && x.loops == 0 && x.start == now
                        && x.looped == looped && x.offsets == offsets@ && x.frames.len()
                        == frames@.len()
                    &&& forall|i: int|
                        0 <= i < frames@.len() ==> r.replay->Some_0.frames[i] == (
                        #[trigger] frames@[i])@
                    &&& (r.periodic, r.recorder, r.stop) == (w.periodic, w.recorder, w.stop)
                },
                Cmd::StopReplay => r.replay is None && (r.periodic, r.recorder, r.stop) == (
                    w.periodic,
                    w.recorder,
                    w.stop,
                ),
                Cmd::StopRecording => r.recorder is None && (r.periodic, r.replay, r.stop) == (
                    w.periodic,
                    w.replay,
                    w.stop,
                ),
                Cmd::Stop => r.stop && (r.periodic, r.replay, r.recorder) == (
                    w.periodic,
                    w.replay,
                    w.recorder,
                ),
            }
        }),
{
    match cmd {
        Cmd::SetPeriodic { id, msg, period, enabled } => {
            let p = PeriodicModel {
                id,
                msg: msg@,
                period: greatest(period as int, MIN_PERIOD as int),
                next: now,
                enabled,
            };
            law_periodic_is_set(w.periodic, p);
            let r = after_cmd(w, cmd, now).periodic;
            let i = choose|i: int| 0 <= i < r.len() && #[trigger] r[i] == p;
            assert(r[i].id == id);
        },
        Cmd::RemovePeriodic(id) => {
            law_periodic_is_removed(w.periodic, id);
        },
        _ => {},
    }
}

/// A frame that was sent differs from the one asked for in its time and direction only.
pub proof fn law_sent_frame(m: Frame, ts: Real)
    ensures
        as_sent(m, ts).ts == ts,
        as_sent(m, ts).dir == Dir::Tx,
        (as_sent(m, ts).id, as_sent(m, ts).ext, as_sent(m, ts).rtr) == (m.id, m.ext, m.rtr),
        (as_sent(m, ts).fd, as_sent(m, ts).brs, as_sent(m, ts).len) == (m.fd, m.brs, m.len),
        as_sent(m, ts).data == m.data,
{
}

/// Of errors in sending that keep coming, the first five are shown and then one in 500, so
/// that every stretch of 500 errors shows one.
pub proof fn law_send_errors_are_thinned(n: int, k: int)
    requires
        n >= 1,
    ensures
        n <= 5 ==> send_error_shown(n),
        send_error_shown(500 * k),
        5 < n && 500 * k < n < 500 * k + 500 ==> !send_error_shown(n),
{
    assert((500 * k) % 500 == 0) by (nonlinear_arith);
    if 500 * k < n < 500 * k + 500 {
        assert(n % 500 == n - 500 * k) by (nonlinear_arith)
            requires
                500 * k < n < 500 * k + 500,
        ;
    }
}

/// A recording begins with no frames written, for the worker as in what is shown; where the
/// file cannot be created nothing changes but for a severe event.
pub proof fn law_recordings_begin(
    w: WorkerModel,
    s: StatsModel,
    path: Seq<char>,
    e: Seq<char>,
    ts: Real,
)
    ensures
        ({
            let (v, t) = recording_begun(w, s, path, None, ts);
            &&& v.recorder == Some((path, 0int)) && t.recording == v.recorder
            &&& v == WorkerModel { recorder: v.recorder, ..w }
            &&& t == StatsModel { recording: t.recording, events: t.events, ..s }
            &&& t.events.len() > 0 && t.events.last().text == "Recording to "@ + path
            &&& !t.events.last().severe
        }),
        ({
            let (v, t) = recording_begun(w, s, path, Some(e), ts);
            &&& v == w && t == StatsModel { events: t.events, ..s }
            &&& t.events.len() > 0 && t.events.last().severe
            &&& t.events.last().text == "Cannot record to "@ + path + ": "@ + e
        }),
{
}

/// A frame that was sent joins the batch as a sent one, with the time of sending and all else
/// as it was; one that could not be sent is counted.
pub proof fn law_frames_sent_or_not(w: WorkerModel, s: StatsModel, m: Frame, e: Seq<char>, ts: Real)
    ensures
        ({
            let v = after_sending(w, m, ts);
            let f = v.batch.last();
            &&& v.batch.len() == w.batch.len() + 1 && v.batch.drop_last() == w.batch
            &&& v == WorkerModel { batch: v.batch, ..w }
            &&& f.dir == Dir::Tx && f.ts == ts
            &&& f == Frame { dir: f.dir, ts: f.ts, ..m }
        }),
        ({
            let t = after_failing(s, m, e, ts);
            &&& t.tx_errors == s.tx_errors + 1
            &&& t == StatsModel { tx_errors: t.tx_errors, events: t.events, ..s }
            &&& 0 <= s.tx_errors < 5 ==> t.events.len() > 0 && t.events.last().severe
                && t.events.last().text == "Transmit "@ + id_text(m.id, m.ext) + " failed: "@ + e
            &&& s.tx_errors >= 5 && (s.tx_errors + 1) % 500 != 0 ==> t.events == s.events
        }),
{
    assert(after_sending(w, m, ts).batch.drop_last() =~= w.batch);
}

/// What a command tells and asks for. A playback tells of its start and, if there was one, of
/// its end, a recording of its end; none of it is severe. A frame is to be sent, a file to be
/// created, a recording to be closed where there is one.
pub proof fn law_commands_are_told(s: StatsModel, w: WorkerModel, cmd: Cmd, a: Action, ts: Real)
    ensures
        ({
            let t = stats_after_cmd(s, w, cmd, ts);
            let told = match cmd {
                Cmd::StartReplay { .. } => true,
                Cmd::StopReplay => w.replay is Some,
                Cmd::StopRecording => w.recorder is Some,
                _ => false,
            };
            &&& !told ==> t == s
            &&& told ==> t.events.len() > 0 && !t.events.last().severe && t.events.last().ts == ts
            &&& cmd matches Cmd::StartReplay { frames, speed, .. } ==> t.events.last().text
                == "Playback started ("@ + decimal(frames@.len() as int) + " frames, "@ + speed@ + "x)"@
            &&& cmd is StopReplay && told ==> t.replay is None && t.events.last().text
                == "Playback stopped"@
            &&& cmd is StopRecording && told ==> t.recording is None && t.events.last().text
                == "Recording stopped: "@ + decimal(w.recorder->Some_0.1) + " frames written to "@
                + w.recorder->Some_0.0
            &&& t == StatsModel { events: t.events, replay: t.replay, recording: t.recording, ..s }
            &&& !(cmd is StopReplay) ==> t.replay == s.replay
            &&& !(cmd is StopRecording) ==> t.recording == s.recording
        }),
        action_for(w, cmd, a) ==> {
            &&& (a is Transmit) == (cmd is Send)
            &&& (a is Create) == (cmd is StartRecording)
            &&& (a is Close) == (cmd is StopRecording && w.recorder is Some)
            &&& cmd matches Cmd::Send(m) ==> a == Action::Transmit(m)
            &&& (cmd matches Cmd::StartRecording(p) ==> (a matches Action::Create(q) && q@ == p@))
        },
{
}

} // verus!
