//! Labels and figures of the status views.

use std::collections::VecDeque;
use vstd::prelude::*;
use crate::bus::{entry_views, BusStats, EventEntry, EventEntryModel, StatsModel};
use crate::device::{BackendKind, ConnectConfig};
use crate::msg::{id_text, put_id, CanMsg};
use crate::number::{decimal, lemma_decimal, parsed, put_decimal, IntError, Real};
use crate::text::{put, string_of};

verus! {

/// A bitrate in words.
pub open spec fn bitrate_text(b: int) -> Seq<char> {
    if b == 0 {
        "-"@
    } else if b % 1_000_000 == 0 {
        decimal(b / 1_000_000) + " Mbit/s"@
    } else {
        decimal(b / 1000) + " kbit/s"@
    }
}

/// A bitrate in words: whole megabits, or kilobits.
pub fn fmt_bitrate(b: u32) -> (r: String)
    ensures
        r@ == bitrate_text(b as int),
{
    if b == 0 {
        return "-".to_string();
    }
    let mut t: Vec<char> = Vec::new();
    if b % 1_000_000 == 0 {
        put_decimal(&mut t, (b / 1_000_000) as u64);
        put(&mut t, " Mbit/s");
    } else {
        put_decimal(&mut t, (b / 1000) as u64);
        put(&mut t, " kbit/s");
    }
    assert(t@ =~= bitrate_text(b as int));
    string_of(t.as_slice())
}

/// The ID of a frame in the stream, with a mark for FD frames.
pub open spec fn frame_id_text(id: u32, ext: bool, fd: bool, brs: bool) -> Seq<char> {
    id_text(id, ext) + (if fd && brs {
        " FD+"@
    } else if fd {
        " FD"@
    } else {
        Seq::empty()
    })
}

/// The ID of a frame in the stream, with a mark for FD frames.
pub fn fmt_id(m: &CanMsg) -> (r: String)
    ensures
        r@ == frame_id_text(m.id, m.ext, m.fd, m.brs),
{
    let mut t: Vec<char> = Vec::new();
    put_id(&mut t, m.id, m.ext);
    if m.fd {
        if m.brs {
            put(&mut t, " FD+");
        } else {
            put(&mut t, " FD");
        }
    }
    assert(t@ =~= frame_id_text(m.id, m.ext, m.fd, m.brs));
    string_of(t.as_slice())
}

/// An error counter, or a dash where it is not known.
pub open spec fn counter_text(c: Option<u8>) -> Seq<char> {
    match c {
        Some(v) => decimal(v as int),
        None => "-"@,
    }
}

fn put_counter(out: &mut Vec<char>, c: Option<u8>)
    ensures
        final(out)@ == old(out)@ + counter_text(c),
{
    match c {
        Some(v) => {
            put_decimal(out, v as u64);
        },
        None => {
            put(out, "-");
        },
    }
}

/// Both error counters.
pub fn describe_counters(tec: Option<u8>, rec: Option<u8>) -> (r: String)
    ensures
        r@ == counter_text(tec) + " / "@ + counter_text(rec),
{
    let mut t: Vec<char> = Vec::new();
    put_counter(&mut t, tec);
    put(&mut t, " / ");
    put_counter(&mut t, rec);
    assert(t@ =~= counter_text(tec) + " / "@ + counter_text(rec));
    string_of(t.as_slice())
}

/// What is shown of the interface.
pub open spec fn shown_interface(connected: bool, iface: Seq<char>) -> Seq<char> {
    if connected {
        iface
    } else {
        "(disconnected)"@
    }
}

/// The interface as the status shows it.
pub fn interface_text(stats: &BusStats) -> (r: String)
    ensures
        r@ == (if stats.connected {
            stats.iface@
        } else {
            "(disconnected)"@
        }),
        r@ == shown_interface(stats.connected, stats.iface@),
{
    if stats.connected {
        stats.iface.clone()
    } else {
        "(disconnected)".to_string()
    }
}

/// Counters of the state of the connection, set back to zero; logs emptied.
pub open spec fn cleared(s: StatsModel) -> StatsModel {
    StatsModel {
        rx_total: 0,
        tx_total: 0,
        error_frames: 0,
        rx_overflows: 0,
        tx_errors: 0,
        peak_load_pct: Real { bits: 0 },
        history: Seq::empty(),
        events: Seq::empty(),
        ..s
    }
}

/// Sets the counters back and empties the logs.
pub fn clear_counters(stats: &mut BusStats)
    ensures
        final(stats)@ == cleared(old(stats)@),
{
    let ghost before = stats@;
    stats.rx_total = 0;
    stats.tx_total = 0;
    stats.error_frames = 0;
    stats.rx_overflows = 0;
    stats.tx_errors = 0;
    stats.peak_load_pct = Real { bits: 0 };
    stats.history = VecDeque::new();
    stats.events = VecDeque::new();
    assert(stats@.events =~= Seq::<EventEntryModel>::empty());
    assert(stats@ =~= cleared(before));
}

/// The numbers without the logs.
pub open spec fn light(s: StatsModel) -> StatsModel {
    StatsModel { history: Seq::empty(), events: Seq::empty(), ..s }
}

/// A copy without the (potentially large) history and event log.
pub fn clone_light(s: &BusStats) -> (r: BusStats)
    ensures
        r@ == light(s@),
        r@ == (StatsModel { history: Seq::empty(), events: Seq::empty(), ..s@ }),
{
    let r = BusStats {
        connected: s.connected,
        iface: s.iface.clone(),
        bitrate: s.bitrate,
        state: s.state,
        tec: s.tec,
        rec: s.rec,
        rx_total: s.rx_total,
        tx_total: s.tx_total,
        tx_errors: s.tx_errors,
        error_frames: s.error_frames,
        rx_overflows: s.rx_overflows,
        fps: s.fps,
        load_pct: s.load_pct,
        peak_load_pct: s.peak_load_pct,
        history: VecDeque::new(),
        events: VecDeque::new(),
        recording: match &s.recording {
            Some(x) => Some((x.0.clone(), x.1)),
            None => None,
        },
        replay: s.replay,
        finished: s.finished,
    };
    assert(r@.events =~= Seq::<EventEntryModel>::empty());
    assert(r@ =~= (StatsModel { history: Seq::empty(), events: Seq::empty(), ..s@ }));
    r
}

/// Events with the newest one first.
pub open spec fn newest_first(events: Seq<EventEntryModel>) -> Seq<EventEntryModel> {
    Seq::new(events.len(), |i: int| events[events.len() - 1 - i])
}

/// The events, latest first.
pub fn latest_events(s: &BusStats) -> (r: Vec<EventEntry>)
    ensures
        entry_views(r@) == s@.events.reverse(),
        entry_views(r@) == newest_first(s@.events),
{
    let mut out: Vec<EventEntry> = Vec::new();
    let n: usize = s.events.len();
    let mut i: usize = n;
    let ghost all = s@.events;
    while i > 0
        invariant
            i <= n,
            n == s.events@.len(),
            all == entry_views(s.events@),
            out@.len() == n - i,
            forall|j: int| 0 <= j < n - i ==> (#[trigger] out@[j])@ == all[n - 1 - j],
        decreases i,
    {
        i = i - 1;
        let e = s.events[i].clone();
        assert(all[i as int] == s.events@[i as int]@);
        out.push(e);
    }
    assert(entry_views(out@) =~= all.reverse()) by {
        let o = entry_views(out@);
        assert forall|j: int| 0 <= j < o.len() implies o[j] == all.reverse()[j] by {
            assert(o[j] == out@[j]@);
        }
    }
    out
}

/// The channel that a backend starts with, given the interfaces and serial ports there are.
pub open spec fn first_channel(
    kind: BackendKind,
    interfaces: Seq<Seq<char>>,
    ports: Seq<Seq<char>>,
) -> Seq<char> {
    match kind {
        BackendKind::Virtual => "demo"@,
        BackendKind::SocketCan => if interfaces.len() > 0 {
            interfaces[0]
        } else {
            "can0"@
        },
        BackendKind::Slcan => if ports.len() > 0 {
            ports[0]
        } else {
            Seq::empty()
        },
        _ => Seq::empty(),
    }
}

/// Whether CAN FD stays switched on with a backend.
pub open spec fn fd_after(kind: BackendKind, fd: bool) -> bool {
    fd && kind.has_fd()
}

/// Adapts the configuration to another backend: a channel to start with, and FD only where
/// the backend has it.
pub fn backend_changed(cfg: &mut ConnectConfig, interfaces: &Vec<String>, ports: &Vec<String>)
    ensures
        final(cfg).channel@ == first_channel(
            old(cfg).kind,
            crate::symbols::string_views(interfaces@),
            crate::symbols::string_views(ports@),
        ),
        final(cfg).fd == (old(cfg).fd && old(cfg).kind.has_fd()),
        final(cfg).fd == fd_after(old(cfg).kind, old(cfg).fd),
        final(cfg).kind == old(cfg).kind,
        final(cfg).index == old(cfg).index,
        final(cfg).pcan_bus == old(cfg).pcan_bus,
        final(cfg).bitrate == old(cfg).bitrate,
        final(cfg).data_bitrate == old(cfg).data_bitrate,
        final(cfg).log_path == old(cfg).log_path,
        final(cfg).log_speed == old(cfg).log_speed,
{
    let c: String = match cfg.kind {
        BackendKind::Virtual => "demo".to_string(),
        BackendKind::SocketCan => if interfaces.len() > 0 {
            interfaces[0].clone()
        } else {
            "can0".to_string()
        },
        BackendKind::Slcan => if ports.len() > 0 {
            ports[0].clone()
        } else {
            String::new()
        },
        _ => String::new(),
    };
    proof {
        assert(c@ =~= first_channel(
            cfg.kind,
            crate::symbols::string_views(interfaces@),
            crate::symbols::string_views(ports@),
        ));
    }
    cfg.channel = c;
    if !cfg.kind.supports_fd() {
        cfg.fd = false;
    }
}

/// A bitrate is shown in Mbit/s where it is a whole number of them, else in kbit/s without
/// what is below; none is shown as a dash.
pub proof fn law_bitrates_shown(b: int, n: int)
    requires
        b >= 0,
    ensures
        b == 0 ==> bitrate_text(b) == "-"@,
        n > 0 && b == n * 1_000_000 ==> bitrate_text(b) == decimal(n) + " Mbit/s"@,
        b % 1_000_000 != 0 && n * 1000 <= b < n * 1000 + 1000 ==> bitrate_text(b) == decimal(n)
            + " kbit/s"@,
{
}

/// The ID of a frame is shown with a mark behind it: `FD+` for a CAN FD frame with a faster
/// data phase, `FD` for another one, none for a classic frame.
pub proof fn law_ids_shown(id: u32, ext: bool, fd: bool, brs: bool)
    ensures
        frame_id_text(id, ext, false, brs) == id_text(id, ext),
        frame_id_text(id, ext, true, false) == frame_id_text(id, ext, false, brs) + " FD"@,
        frame_id_text(id, ext, true, true) == frame_id_text(id, ext, true, false).push('+'),
{
    reveal_strlit(" FD");
    reveal_strlit(" FD+");
    assert(id_text(id, ext) + Seq::<char>::empty() =~= id_text(id, ext));
    assert(" FD+"@ =~= " FD"@.push('+'));
    assert(id_text(id, ext) + " FD+"@ =~= (id_text(id, ext) + " FD"@).push('+'));
}

/// A counter is shown as its number, one that is not known as a dash; the interface by its
/// name while it is connected.
pub proof fn law_counters_shown(v: u8, iface: Seq<char>)
    ensures
        shown_interface(true, iface) == iface,
        shown_interface(false, iface) == "(disconnected)"@,
        parsed(counter_text(Some(v)), 10, 0xFF) == Ok::<int, IntError>(v as int),
        counter_text(None) == "-"@,
{
    lemma_decimal(v as int, 0xFF);
}

/// Clearing sets the counts and the peak back and empties the logs; the connection, the state
/// of the controller, the present load, the recording and the replay stay. The light copy has
/// all but the logs.
pub proof fn law_clearing_and_copying(s: StatsModel)
    ensures
        ({
            let c = cleared(s);
            &&& c.rx_total == 0 && c.tx_total == 0 && c.tx_errors == 0 && c.error_frames == 0
            &&& c.rx_overflows == 0 && c.peak_load_pct.bits == 0
            &&& c.history.len() == 0 && c.events.len() == 0
            &&& c.connected == s.connected && c.iface == s.iface && c.bitrate == s.bitrate
            &&& c.state == s.state && c.tec == s.tec && c.rec == s.rec
            &&& c.fps == s.fps && c.load_pct == s.load_pct
            &&& c.recording == s.recording && c.replay == s.replay && c.finished == s.finished
            &&& cleared(c) == c
        }),
        light(s).history.len() == 0 && light(s).events.len() == 0,
        light(s) == (StatsModel { history: light(s).history, events: light(s).events, ..s }),
{
}

/// The newest event comes first and the oldest one last; turned round twice they are as they
/// were.
pub proof fn law_newest_event_first(events: Seq<EventEntryModel>, e: EventEntryModel)
    ensures
        newest_first(events.push(e)) == seq![e] + newest_first(events),
        newest_first(newest_first(events)) == events,
{
    assert(newest_first(events.push(e)) =~= seq![e] + newest_first(events));
    assert(newest_first(newest_first(events)) =~= events);
}

/// Another backend begins with the first channel that was found for it, or the usual one, and
/// keeps CAN FD only where it can do it.
pub proof fn law_backend_begins(kind: BackendKind, fd: bool, interfaces: Seq<Seq<char>>, ports: Seq<Seq<char>>)
    ensures
        kind == BackendKind::Virtual ==> first_channel(kind, interfaces, ports) == "demo"@,
        kind == BackendKind::SocketCan ==> first_channel(kind, interfaces, ports) == (
        if interfaces.len() > 0 {
            interfaces[0]
        } else {
            "can0"@
        }),
        kind == BackendKind::Slcan && ports.len() > 0 ==> first_channel(kind, interfaces, ports)
            == ports[0],
        kind == BackendKind::Slcan && ports.len() == 0 || kind == BackendKind::Pcan || kind
            == BackendKind::Kvaser || kind == BackendKind::LogFile ==> first_channel(
            kind,
            interfaces,
            ports,
        ).len() == 0,
        fd_after(kind, false) == false,
        fd_after(kind, true) == (kind == BackendKind::Pcan || kind == BackendKind::Kvaser || kind
            == BackendKind::SocketCan),
{
}

} // verus!
