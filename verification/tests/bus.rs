use can_explorer::bus::flush::{
    burst_timeout, describe_failure, BatchInput, Next, Offered, Rates, Received, RECEIVE_BURST,
    TICK,
};
use can_explorer::bus::schedule::{MAX_WAIT, REPLAY_BURST};
use can_explorer::bus::signals::SignalTable;
use can_explorer::bus::worker::{send_failed, Action, Cmd, Worker, MIN_PERIOD};
use can_explorer::bus::{
    BusStats, HistoryPoint, IdStats, Step, Summary, Timer, HISTORY_SECS, MAX_EVENTS,
    SIGNAL_HISTORY,
};
use can_explorer::candump::{can_read_line, parse_line, stamp_text};
use can_explorer::device::virtual_bus::{Readings, VirtualDevice, SECOND};
use can_explorer::device::{BackendKind, BusEvent, CtrlState, DevEvent, DeviceStatus};
use can_explorer::msg::{CanMsg, Dir, MsgKey};
use can_explorer::number::Real;
use can_explorer::symbols::{DecodedSignal, Number, SymbolDb};

const ENGINE: &str = r#"VERSION ""

NS_ :

BS_:

BU_: ECU

BO_ 256 EngineData: 8 ECU
 SG_ RPM : 0|16@1+ (0.25,0) [0|16383.75] "rpm" Vector__XXX
 SG_ CoolantTemp : 16|8@1+ (1,-40) [-40|215] "degC" Vector__XXX
 SG_ RollingCounter : 56|4@1+ (1,0) [0|15] "" Vector__XXX
"#;

fn num(x: f64) -> Real {
    Real { bits: x.to_bits() }
}

fn float(r: Real) -> f64 {
    f64::from_bits(r.bits)
}

fn msg(ts: f64, id: u32, data: &[u8]) -> CanMsg {
    CanMsg::new(num(ts), id, false, data)
}

fn value(d: &DecodedSignal) -> Real {
    let n = match d.number {
        Number::Signed(v) => v as f64,
        Number::Unsigned(v) => v as f64,
        Number::Float32(b) => f32::from_bits(b) as f64,
        Number::Float64(b) => f64::from_bits(b),
    };
    num(n * float(d.factor) + float(d.offset))
}

fn step(t: &Timer, ts: Real) -> Step {
    let dt = float(ts) - float(t.ts);
    Step { dt: num(dt), blend: num(float(t.period) * 0.9 + dt * 0.1) }
}

fn input(
    batch: &[CanMsg],
    summary: &Summary,
    db: Option<&SymbolDb>,
    wall: f64,
    offered: Vec<Offered>,
) -> BatchInput {
    let mut timers: Vec<(u64, Timer)> = Vec::new();
    let mut steps = Vec::new();
    let mut values = Vec::new();
    for m in batch {
        let code = m.key().code();
        let known = timers.iter().position(|t| t.0 == code);
        let t = match known {
            Some(i) => timers[i].1,
            None => summary.timer(m.key()),
        };
        let s = step(&t, m.ts);
        let after = t.advance(m.ts, s);
        match known {
            Some(i) => timers[i].1 = after,
            None => timers.push((code, after)),
        }
        steps.push(s);
        values.push(match db.and_then(|d| d.get(m.key())) {
            Some(def) => def.decode(m.data()).iter().map(value).collect(),
            None => Vec::new(),
        });
    }
    BatchInput { wall: num(wall), steps, values, offered }
}

/// A worker with everything that it applies frames to.
struct Bus {
    worker: Worker,
    summary: Summary,
    table: SignalTable,
    stats: BusStats,
    db: Option<SymbolDb>,
    room: usize,
    streamed: u64,
    dropped: u64,
    recording: String,
}

impl Bus {
    fn new() -> Self {
        Bus {
            worker: Worker::new("vcan_stress".to_string(), 0),
            summary: Summary::default(),
            table: SignalTable::default(),
            stats: BusStats::default(),
            db: None,
            room: usize::MAX,
            streamed: 0,
            dropped: 0,
            recording: String::new(),
        }
    }

    fn cmd(&mut self, cmd: Cmd, now: u64) -> Action {
        self.worker.handle_cmd(cmd, now, num(0.0), &mut self.stats)
    }

    fn flush(&mut self, wall: f64) {
        let offered: Vec<Offered> = self
            .worker
            .batch
            .iter()
            .map(|_| {
                if self.room > 0 {
                    self.room -= 1;
                    self.streamed += 1;
                    Offered::Taken
                } else {
                    Offered::Full
                }
            })
            .collect();
        if self.worker.recorder.is_some() {
            let stamps: Vec<String> =
                self.worker.batch.iter().map(|m| format!("{:.6}", float(m.ts))).collect();
            for line in self.worker.recording(&stamps) {
                self.recording.push_str(&line);
                self.recording.push('\n');
            }
        }
        let i = input(&self.worker.batch, &self.summary, self.db.as_ref(), wall, offered);
        self.dropped += self.worker.flush_batch(
            &mut self.summary,
            &mut self.table,
            &mut self.stats,
            self.db.as_ref(),
            &i,
        );
    }

    fn run(&mut self, dev: &mut VirtualDevice, from: u64, to: u64) {
        let mut now = from;
        while now < to {
            let t = now as f64 / SECOND as f64;
            let readings = Readings {
                rpm: ((3000.0 + 2500.0 * (t * 0.5).sin()) / 0.25) as u16,
                temp: (90.0 + 5.0 * (t * 0.05).sin() + 40.0) as u8,
                speed: ((60.0 + 40.0 * (t * 0.2).sin()) * 100.0) as u16,
                seconds: t as u32,
            };
            while let Some(m) = dev.send_next(now, num(t), readings) {
                assert_eq!(self.worker.received(Received::Event(DevEvent::Frame(m))), Next::Again);
            }
            assert_eq!(self.worker.received(Received::Nothing), Next::Done);
            self.flush(t);
            now += 1_000_000;
        }
    }
}

fn texts(s: &BusStats) -> Vec<(String, bool)> {
    s.events.iter().map(|e| (e.text.clone(), e.severe)).collect()
}

/// Runs the simulated ~10k fps bus and checks that the summary accounts
/// for every frame, that the recording contains every frame, and that
/// frames the stream view received plus those it skipped add up exactly.
#[test]
fn summary_and_recording_are_lossless() {
    let mut bus = Bus::new();
    let mut dev = VirtualDevice::new("stress", 0);
    bus.room = 4000;
    match bus.cmd(Cmd::StartRecording("test.log".to_string()), 0) {
        Action::Create(p) => bus.worker.recording_opened(p, None, num(0.0), &mut bus.stats),
        _ => panic!("no file"),
    }
    match bus.cmd(Cmd::Send(msg(0.0, 0x555, &[1, 2, 3])), 0) {
        Action::Transmit(m) => bus.worker.sent(m, num(0.25)),
        _ => panic!("nothing to send"),
    }
    bus.run(&mut dev, 0, 3 * SECOND / 2);
    assert!(matches!(bus.cmd(Cmd::StopRecording, 0), Action::Close));
    bus.run(&mut dev, 3 * SECOND / 2, 8 * SECOND / 5);

    let per_id: u64 = bus.summary.entries.values().map(|e| e.count).sum();
    assert!(bus.summary.total > 5000, "expected stress traffic, got {}", bus.summary.total);
    assert_eq!(per_id, bus.summary.total);
    assert_eq!(bus.summary.total, bus.stats.rx_total + bus.stats.tx_total);
    assert_eq!(bus.stats.tx_total, 1);
    let sent = bus.summary.get(MsgKey { id: 0x555, ext: false }).unwrap();
    assert_eq!(sent.tx_count, 1);
    assert_eq!((sent.last.dir, sent.last.ts), (Dir::Tx, num(0.25)));
    assert!(bus.dropped > 0);
    assert_eq!(bus.streamed + bus.dropped, bus.summary.total);

    let recorded = bus.recording.lines().count() as u64;
    assert!(
        recorded > 5000 && recorded <= bus.summary.total,
        "recorded {recorded} of {}",
        bus.summary.total
    );
    for line in bus.recording.lines() {
        assert!(can_read_line(line));
        let stamp = stamp_text(line).unwrap().parse::<f64>().map(num).map_err(|e| format!("{e}"));
        assert!(parse_line(line, &stamp).unwrap().is_some());
    }
    assert_eq!(
        texts(&bus.stats),
        vec![
            ("Recording to test.log".to_string(), false),
            (format!("Recording stopped: {recorded} frames written to test.log"), false),
        ]
    );
}

/// Every frame of a message with a symbol definition updates its signals.
#[test]
fn signals_decoded_for_every_frame() {
    let mut bus = Bus::new();
    bus.db = Some(SymbolDb::load(ENGINE.as_bytes(), "dbc").unwrap());
    let mut dev = VirtualDevice::new("demo", 0);
    bus.run(&mut dev, 0, SECOND);

    let engine = MsgKey { id: 0x100, ext: false };
    let frames = bus.summary.get(engine).unwrap().count;
    assert!(frames > 50);
    for name in ["RPM", "CoolantTemp", "RollingCounter"] {
        let s = bus.table.get(engine, name).unwrap();
        assert_eq!(s.count, frames, "{name} updates");
        assert_eq!(s.history.len() as u64, frames);
        assert!(float(s.min) <= float(s.value) && float(s.value) <= float(s.max));
        assert_eq!(s.msg_name, "EngineData");
    }
    // RPM = raw * 0.25; the simulator sweeps 500..5500 rpm
    let rpm = bus.table.get(engine, "RPM").unwrap();
    let v = float(rpm.value);
    assert!(v >= 400.0 && v <= 5600.0, "rpm {v}");
    assert_eq!(rpm.unit, "rpm");
    assert_eq!(rpm.display_value("5"), "5");
    assert!(rpm.without_history().history.is_empty());
    assert_eq!(rpm.without_history().count, frames);
    // IDs without a definition (0x300) produce no signals
    assert!(bus.table.entries.keys().all(|k| *k != 0x300));
    assert!(bus.table.get(engine, "Nothing").is_none());
    bus.table.clear();
    assert!(bus.table.get(engine, "RPM").is_none());
}

#[test]
fn recordings_hold_a_line_per_frame() {
    let mut w = Worker::new("can7".to_string(), 0);
    assert!(w.recording(&Vec::new()).is_empty());
    let mut fd = msg(0.0, 0x12345678, &[0xAB; 12]);
    fd.ext = true;
    fd.fd = true;
    fd.brs = true;
    let mut ask = msg(0.0, 0x7FF, &[]);
    ask.rtr = true;
    ask.len = 3;
    for m in [msg(0.0, 0x123, &[0xDE, 0xAD]), fd, ask] {
        w.received(Received::Event(DevEvent::Frame(m)));
    }
    let stamps = ["1.000000", "2.500000", "3.000001"].map(|s| s.to_string()).to_vec();
    assert_eq!(
        w.recording(&stamps),
        [
            "(1.000000) can7 123#DEAD".to_string(),
            format!("(2.500000) can7 12345678##1{}", "AB".repeat(12)),
            "(3.000001) can7 7FF#R3".to_string(),
        ]
    );
    // the frames stay until they are applied
    assert_eq!(w.batch.len(), 3);
}

#[test]
fn bursts_are_bounded() {
    assert_eq!(burst_timeout(0, 5), Some(5));
    assert_eq!(burst_timeout(0, 0), Some(0));
    assert_eq!(burst_timeout(1, 5), Some(0));
    assert_eq!(burst_timeout(RECEIVE_BURST - 1, 5), Some(0));
    assert_eq!(burst_timeout(RECEIVE_BURST, 5), None);
    assert_eq!(burst_timeout(usize::MAX, 5), None);
    assert_eq!(RECEIVE_BURST, 4096);
}

#[test]
fn statistics_of_an_id() {
    let a = msg(1.0, 5, &[1, 2, 3]);
    let mut s = IdStats::new(&a, num(10.0));
    assert_eq!((s.count, float(s.period_min), float(s.period)), (0, f64::MAX, 0.0));
    let go = |s: &mut IdStats, m: &CanMsg, wall: f64| {
        let t = Timer { count: s.count, ts: s.last.ts, period: s.period };
        let st = step(&t, m.ts);
        s.update(m, num(wall), st);
    };
    go(&mut s, &a, 10.0);
    assert_eq!((s.count, s.rx_count, s.tx_count, float(s.period)), (1, 1, 0, 0.0));
    assert_eq!(float(s.byte_changed[0]), 0.0);
    go(&mut s, &msg(1.5, 5, &[1, 9, 3]), 11.0);
    assert_eq!((float(s.period), float(s.period_min), float(s.period_max)), (0.5, 0.5, 0.5));
    assert_eq!((float(s.byte_changed[0]), float(s.byte_changed[1])), (0.0, 11.0));
    let mut sent = msg(2.5, 5, &[1, 9, 3, 4]);
    sent.dir = Dir::Tx;
    go(&mut s, &sent, 12.0);
    assert_eq!((float(s.period), float(s.period_min), float(s.period_max)), (0.55, 0.5, 1.0));
    assert_eq!((s.dlc_changes, s.tx_count, float(s.byte_changed[3])), (1, 1, 12.0));
    // a step back in time changes no period
    go(&mut s, &msg(2.0, 5, &[1]), 13.0);
    assert_eq!((float(s.period), float(s.period_min)), (0.55, 0.5));
    assert_eq!((s.dlc_changes, s.count), (2, 4));
    assert_eq!(float(s.last_wall), 13.0);
}

#[test]
fn summary_counts_each_id() {
    let mut s = Summary::default();
    for i in 0..10u32 {
        let m = msg(i as f64, i % 3, &[]);
        let st = step(&s.timer(m.key()), m.ts);
        s.apply(&m, num(0.0), st);
    }
    assert_eq!(s.total, 10);
    let count = |id: u32| s.get(MsgKey { id, ext: false }).map(|e| e.count);
    assert_eq!((count(0), count(1), count(2), count(3)), (Some(4), Some(3), Some(3), None));
    assert_eq!(s.timer(MsgKey { id: 0, ext: false }).ts, num(9.0));
    s.clear();
    assert_eq!((s.total, s.entries.len(), s.generation), (0, 0, 1));
}

#[test]
fn logs_keep_the_latest() {
    let mut s = BusStats::default();
    for i in 0..MAX_EVENTS + 5 {
        s.push_event(num(0.0), format!("{i}"), false);
    }
    assert_eq!(s.events.len(), MAX_EVENTS);
    assert_eq!(s.events[0].text, "5");
    for i in 0..HISTORY_SECS + 2 {
        s.push_point(HistoryPoint { load: num(i as f64), fps: num(0.0) });
    }
    assert_eq!(s.history.len(), HISTORY_SECS);
    assert_eq!(float(s.history[0].load), 2.0);
}

#[test]
fn signal_history_is_bounded() {
    let db = SymbolDb::load(ENGINE.as_bytes(), "dbc").unwrap();
    let mut t = SignalTable::default();
    let n = SIGNAL_HISTORY + 3;
    for i in 0..n {
        let v = vec![num(i as f64), num(1.0), num(2.0)];
        assert!(t.apply(&db, &msg(i as f64, 0x100, &[0; 8]), &v, num(0.0)));
    }
    let key = MsgKey { id: 0x100, ext: false };
    let s = t.get(key, "RPM").unwrap();
    assert_eq!((s.count, s.history.len()), (n as u64, SIGNAL_HISTORY));
    assert_eq!(float(s.history[0].1), 3.0);
    assert_eq!((float(s.min), float(s.max)), (0.0, (n - 1) as f64));
    assert!(!t.apply(&db, &msg(0.0, 0x101, &[]), &Vec::new(), num(0.0)));
}

#[test]
fn connections() {
    let mut s = BusStats::default();
    s.rx_total = 7;
    s.push_event(num(0.0), "before".to_string(), false);
    s.connect("can0", 250_000, BackendKind::SocketCan, num(1.0));
    assert!(s.connected);
    assert_eq!((s.iface.as_str(), s.bitrate, s.rx_total), ("can0", 250_000, 0));
    assert_eq!(s.state, CtrlState::Unknown);
    s.disconnect(num(2.0));
    assert!(!s.connected);
    assert_eq!(
        texts(&s),
        vec![
            ("before".to_string(), false),
            ("Connected to can0 (SocketCAN)".to_string(), false),
            ("Disconnected".to_string(), false),
        ]
    );
}

#[test]
fn failures_of_the_device() {
    let mut bus = Bus::new();
    let mut fail = |text: &str| bus.worker.received(Received::Failed(text.to_string()));
    for _ in 0..10 {
        assert_eq!(fail("gone"), Next::Sleep(1));
    }
    assert_eq!(fail("gone"), Next::Sleep(20));
    for _ in 11..1000 {
        fail("gone");
    }
    // the first three and the thousandth
    assert_eq!(bus.worker.events.len(), 4);
    bus.worker.received(Received::Event(DevEvent::Frame(msg(0.0, 1, &[]))));
    assert_eq!(bus.worker.consecutive_errors, 0);
    bus.worker.received(Received::Failed("BUS-OFF and RX Overrun".to_string()));
    let e = bus.worker.events.last().unwrap();
    assert_eq!(e.desc, "receive error: BUS-OFF and RX Overrun");
    assert_eq!(e.state, Some(CtrlState::BusOff));
    assert!(e.rx_overflow);
    let calm = describe_failure("x", "x");
    assert_eq!((calm.state, calm.rx_overflow), (None, false));
    assert_eq!(describe_failure("", "the bus off").state, Some(CtrlState::BusOff));
    assert_eq!(describe_failure("", "busoff").state, Some(CtrlState::BusOff));
    assert!(describe_failure("", "fifo overflow").rx_overflow);
}

#[test]
fn events_of_the_bus() {
    let mut bus = Bus::new();
    let mut e = BusEvent::new("passive".to_string());
    e.state = Some(CtrlState::ErrorPassive);
    e.tec = Some(130);
    bus.worker.received(Received::Event(DevEvent::Bus(e)));
    let mut o = BusEvent::new("overrun".to_string());
    o.rx_overflow = true;
    bus.worker.received(Received::Event(DevEvent::Bus(o)));
    bus.worker.received(Received::Event(DevEvent::Bus(BusEvent::new("other".to_string()))));
    bus.flush(5.0);
    assert_eq!((bus.stats.error_frames, bus.stats.rx_overflows), (3, 1));
    assert_eq!((bus.stats.state, bus.stats.tec, bus.stats.rec), (CtrlState::ErrorPassive, Some(130), None));
    assert_eq!(
        texts(&bus.stats),
        vec![
            ("passive".to_string(), true),
            ("overrun".to_string(), true),
            ("other".to_string(), false),
        ]
    );
    assert!(bus.worker.events.is_empty());
    assert_eq!(bus.summary.generation, 0);
}

#[test]
fn sending_that_fails() {
    let mut s = BusStats::default();
    let m = msg(0.0, 0x12, &[]);
    for _ in 0..500 {
        send_failed(&mut s, &m, "no bus", num(0.0));
    }
    assert_eq!(s.tx_errors, 500);
    assert_eq!(s.events.len(), 6);
    assert_eq!(s.events[0].text, "Transmit 012 failed: no bus");
    assert!(s.events[0].severe);
}

fn periodic(id: u64, period: u64, enabled: bool) -> Cmd {
    Cmd::SetPeriodic { id, msg: msg(0.0, id as u32, &[]), period, enabled }
}

#[test]
fn periodic_messages() {
    let mut bus = Bus::new();
    bus.cmd(periodic(1, 1_000_000, true), 0);
    bus.cmd(periodic(2, 1, true), 0);
    bus.cmd(periodic(3, 1_000_000, false), 0);
    assert_eq!(bus.worker.periodic[1].period, MIN_PERIOD);
    let ids = |v: Vec<CanMsg>| v.iter().map(|m| m.id).collect::<Vec<u32>>();
    let mut run = |bus: &mut Bus, now: u64| {
        bus.worker.run_scheduled_tx(now, now, num(0.0), &mut bus.stats)
    };
    assert_eq!(ids(run(&mut bus, 0)), vec![1, 2]);
    assert!(run(&mut bus, 0).is_empty());
    assert_eq!(bus.worker.wait_time(0), MIN_PERIOD);
    assert_eq!(ids(run(&mut bus, 100_000)), vec![2]);
    assert_eq!(bus.worker.periodic[1].next, 200_000);
    // no burst after a stall
    assert_eq!(ids(run(&mut bus, 50_000_000)), vec![1, 2]);
    assert_eq!(bus.worker.periodic[0].next, 51_000_000);
    assert_eq!(bus.worker.next_deadline(), Some(50_100_000));
    // replacing keeps one message per ID
    bus.cmd(periodic(2, 1_000_000, false), 0);
    assert_eq!(bus.worker.periodic.len(), 3);
    bus.cmd(Cmd::RemovePeriodic(1), 0);
    bus.cmd(Cmd::RemovePeriodic(9), 0);
    assert_eq!(bus.worker.periodic.len(), 2);
    assert_eq!(bus.worker.next_deadline(), None);
    assert_eq!(bus.worker.wait_time(0), MAX_WAIT);
    bus.cmd(Cmd::Stop, 0);
    assert!(bus.worker.stop);
}

#[test]
fn playback() {
    let mut bus = Bus::new();
    let frames: Vec<CanMsg> = (0..3).map(|i| msg(i as f64, i, &[])).collect();
    bus.cmd(
        Cmd::StartReplay { frames, offsets: vec![0, 10, 20], speed: "2".to_string(), looped: true },
        1000,
    );
    let run = |bus: &mut Bus, now: u64| {
        let v = bus.worker.run_scheduled_tx(now, now + 5, num(0.0), &mut bus.stats);
        v.iter().map(|m| m.id).collect::<Vec<u32>>()
    };
    assert_eq!(run(&mut bus, 1010), vec![0, 1]);
    assert!(run(&mut bus, 1019).is_empty());
    assert_eq!(bus.worker.next_deadline(), Some(1020));
    assert_eq!(run(&mut bus, 1030), vec![2]);
    let r = bus.worker.replay.as_ref().unwrap();
    assert_eq!((r.idx, r.loops, r.start), (0, 1, 1035));
    assert!(matches!(bus.cmd(Cmd::StopReplay, 0), Action::Nothing));
    bus.cmd(Cmd::StopReplay, 0);
    assert!(bus.worker.replay.is_none());
    assert_eq!(
        texts(&bus.stats),
        vec![
            ("Playback started (3 frames, 2x)".to_string(), false),
            ("Playback stopped".to_string(), false),
        ]
    );
}

#[test]
fn playback_ends() {
    let mut bus = Bus::new();
    let n = REPLAY_BURST + 1;
    let frames: Vec<CanMsg> = (0..n).map(|i| msg(0.0, i as u32, &[])).collect();
    let offsets = vec![0; n];
    bus.cmd(Cmd::StartReplay { frames, offsets, speed: "1".to_string(), looped: false }, 0);
    assert_eq!(bus.worker.run_scheduled_tx(0, 0, num(0.0), &mut bus.stats).len(), REPLAY_BURST);
    assert_eq!(bus.worker.run_scheduled_tx(0, 0, num(0.0), &mut bus.stats).len(), 1);
    assert!(bus.worker.replay.is_none());
    assert_eq!(bus.stats.events.back().unwrap().text, "Playback finished");
    // nothing to play is over at once, looped or not
    bus.cmd(
        Cmd::StartReplay { frames: Vec::new(), offsets: Vec::new(), speed: "1".to_string(), looped: true },
        0,
    );
    assert!(bus.worker.run_scheduled_tx(0, 0, num(0.0), &mut bus.stats).is_empty());
    assert!(bus.worker.replay.is_none());
}

#[test]
fn recordings_that_fail() {
    let mut bus = Bus::new();
    match bus.cmd(Cmd::StartRecording("x".to_string()), 0) {
        Action::Create(p) => {
            let e = Some("denied".to_string());
            bus.worker.recording_opened(p, e, num(0.0), &mut bus.stats)
        }
        _ => panic!("no file"),
    }
    assert!(bus.worker.recorder.is_none());
    assert_eq!(texts(&bus.stats), vec![("Cannot record to x: denied".to_string(), true)]);
    assert!(matches!(bus.cmd(Cmd::StopRecording, 0), Action::Nothing));
}

#[test]
fn ticks() {
    let mut bus = Bus::new();
    assert!(!bus.worker.tick_due(TICK - 1));
    assert!(bus.worker.tick_due(TICK));
    let rates = Rates { fps: num(10.0), load: num(5.0) };
    let status = |state| Some(DeviceStatus { state, tec: Some(3), rec: None });
    let mut tick = |bus: &mut Bus, now: u64, s: Option<DeviceStatus>| {
        bus.worker.tick(now, s, rates, num(0.0), &mut bus.stats)
    };
    // no news from the device: frames tell that the bus is up
    tick(&mut bus, TICK, None);
    assert_eq!(bus.stats.state, CtrlState::Unknown);
    bus.stats.rx_total = 1;
    tick(&mut bus, 2 * TICK, None);
    assert_eq!(bus.stats.state, CtrlState::ErrorActive);
    assert_eq!(float(bus.stats.fps), 0.0);
    tick(&mut bus, 3 * TICK, status(CtrlState::BusOff));
    assert_eq!(texts(&bus.stats), vec![("Controller state: BUS OFF".to_string(), true)]);
    assert_eq!((bus.stats.tec, bus.stats.rec), (Some(3), None));
    // a full window sets the rates
    tick(&mut bus, 4 * TICK, status(CtrlState::BusOff));
    assert_eq!((float(bus.stats.fps), float(bus.stats.peak_load_pct)), (10.0, 5.0));
    assert_eq!(bus.stats.history.len(), 1);
    assert_eq!(bus.worker.win_start, SECOND);
    assert_eq!(bus.stats.events.len(), 1);
    bus.worker.note_finished(false, num(0.0), &mut bus.stats);
    assert!(!bus.stats.finished);
    bus.worker.note_finished(true, num(0.0), &mut bus.stats);
    bus.worker.note_finished(true, num(0.0), &mut bus.stats);
    assert!(bus.stats.finished);
    assert_eq!(bus.stats.events.len(), 2);
    assert_eq!(bus.stats.events[1].text, "End of log file reached");
}
