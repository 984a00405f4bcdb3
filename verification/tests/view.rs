use can_explorer::bus::{BusStats, HistoryPoint, ReplayProgress};
use can_explorer::device::{BackendKind, ConnectConfig};
use can_explorer::msg::{CanMsg, Dir, MsgKey};
use can_explorer::number::Real;
use can_explorer::symbols::SymbolDb;
use can_explorer::view::connection::Connection;
use can_explorer::view::filter::{passes, Filter};
use can_explorer::view::status::{
    backend_changed, clear_counters, clone_light, describe_counters, fmt_bitrate, fmt_id,
    interface_text, latest_events,
};
use can_explorer::view::stream::StreamView;
use can_explorer::view::summary::{
    byte_cells, count_frames, directions, sorted_order, toggled, visible, Row, SortBy,
};
use can_explorer::view::transmit::{
    describe_progress, describe_skipped, has_fd, symbol_choices, PeriodicList, TxForm,
};

const SYM: &str = "{SEND}\n[EngineÄ]\nID=100h\n[Brake]\nID=200h\n";

fn num(x: f64) -> Real {
    Real { bits: x.to_bits() }
}

fn msg(id: u32) -> CanMsg {
    CanMsg::new(num(id as f64), id, false, &[1, 2])
}

fn key(id: u32) -> MsgKey {
    MsgKey { id, ext: false }
}

fn db() -> SymbolDb {
    SymbolDb::load(SYM.as_bytes(), "sym").unwrap()
}

#[test]
fn filters() {
    let f = Filter::parse("100 1A0, -7E8 engine -");
    assert_eq!(f.wanted, vec!["100", "1a0", "engine"]);
    assert_eq!(f.excluded, vec!["7e8"]);
    assert!(f.matches(key(0x100), None));
    assert!(f.matches(key(0x1A0), Some("x")));
    assert!(f.matches(key(0x5), Some("MyEngineData")));
    assert!(!f.matches(key(0x5), Some("Brake")));
    assert!(!f.matches(key(0x7E8), Some("Engine")));
    assert!(!f.matches(key(0x5), None));
    let only = Filter::parse("-7E8");
    assert!(only.matches(key(1), None) && !only.matches(key(0x7E8), None));
    assert!(Filter::parse(" , -").is_empty());
    assert!(Filter::parse("").matches(key(1), None));
    assert!(Filter::parse("1 2").same(&Filter::parse("1, 2")));
    assert!(!Filter::parse("1 2").same(&Filter::parse("2 1")));
    // capitals of any alphabet
    assert!(Filter::parse("ENGINEÄ").matches(key(1), Some("engineä")));
    assert!(passes(&Filter::parse("engineä"), Some(&db()), &msg(0x100)));
    assert!(!passes(&Filter::parse("engineä"), None, &msg(0x100)));
    assert!(Filter::tok_matches("0x10", key(0x10), None));
    assert!(Filter::parse("brake").matches_lower(key(1), Some("the brake")));
}

#[test]
fn streams_begin_with_a_new_cache() {
    let mut v = StreamView::new(5);
    let is_new = |v: &StreamView| {
        v.cache.filter.is_empty()
            && v.cache.seqs.is_empty()
            && (v.cache.sym_gen, v.cache.last_seq) == (0, 0)
    };
    assert!(is_new(&v));
    v.set_symbols(Some(db()));
    v.take(msg(0x100));
    assert!(is_new(&v));
    v.update_filter_cache("100");
    assert_eq!((v.cache.sym_gen, v.cache.last_seq, v.cache.seqs.len()), (1, 1, 1));
    v.update_filter_cache("");
    assert_eq!((v.cache.last_seq, v.cache.seqs.len()), (1, 0));
    v.update_filter_cache("100");
    v.clear();
    assert!(is_new(&v));
}

#[test]
fn symbols_to_choose() {
    let text = "{SEND}\n[Zeta]\nID=1h\nDLC=3\n[Alpha]\nID=300h\n[Alpha]\nID=200h\nType=Extended\n\
        [Alpha]\nID=200h\nDLC=2\n[alpha]\nID=2h\n[Al]\nID=900h\n[\u{c4}]\nID=3h\n";
    let db = SymbolDb::load(text.as_bytes(), "sym").unwrap();
    let choice = |name: &str, id: u32, ext: bool, dlc: u8| {
        (name.to_string(), MsgKey { id, ext }, dlc)
    };
    let choices = symbol_choices(&db);
    assert_eq!(
        choices,
        [
            choice("Al", 0x900, true, 8),
            choice("Alpha", 0x200, false, 2),
            choice("Alpha", 0x200, true, 8),
            choice("Alpha", 0x300, false, 8),
            choice("Zeta", 1, false, 3),
            choice("alpha", 2, false, 8),
            choice("\u{c4}", 3, false, 8),
        ]
    );
    let mut sorted = choices.clone();
    sorted.sort();
    assert_eq!(choices, sorted);
    assert!(symbol_choices(&SymbolDb::default()).is_empty());
}

#[test]
fn stream_shows_what_passes() {
    let mut v = StreamView::new(5);
    for id in [0x100, 0x200, 0x300, 0x100] {
        v.take(msg(id));
    }
    v.trim();
    assert_eq!(v.t_ref, Some(num(0x100 as f64)));
    v.update_filter_cache("");
    assert_eq!(v.rows(), 4);
    assert_eq!(v.row(2).map(|m| m.id), Some(0x300));
    assert!(v.row(4).is_none());
    v.update_filter_cache("100");
    assert_eq!(v.rows(), 2);
    // more frames push the oldest out, the filter follows
    for id in [0x100, 0x200, 0x100] {
        v.take(msg(id));
    }
    v.trim();
    assert_eq!((v.frames.len(), v.front_seq), (5, 2));
    v.update_filter_cache("100");
    assert_eq!(v.rows(), 3);
    assert!((0..3).all(|i| v.row(i).unwrap().id == 0x100));
    assert!(v.row(3).is_none());
    // names count once there are symbols
    v.update_filter_cache("brake");
    assert_eq!(v.rows(), 0);
    v.set_symbols(Some(db()));
    v.update_filter_cache("brake");
    assert_eq!(v.row(0).map(|m| m.id), Some(0x200));
    v.set_symbols(None);
    v.update_filter_cache("-brake -100");
    assert_eq!(v.rows(), 2);
}

#[test]
fn paused_streams_only_count() {
    let mut v = StreamView::new(10);
    v.take(msg(1));
    v.paused = true;
    v.take(msg(2));
    v.take(msg(3));
    assert_eq!((v.frames.len(), v.paused_skipped), (1, 2));
    v.update_filter_cache("1");
    v.clear();
    assert_eq!((v.frames.len(), v.paused_skipped, v.front_seq), (0, 0, 0));
    assert!(v.t_ref.is_none() && v.paused);
    v.update_filter_cache("1");
    assert_eq!(v.rows(), 0);
}

fn row(id: u32, ext: bool, name: &str, count: u64, rate: f64, wall: f64) -> Row {
    Row {
        key: MsgKey { id, ext },
        name: if name.is_empty() { None } else { Some(name.to_string()) },
        count,
        rate: num(rate),
        last_wall: num(wall),
    }
}

#[test]
fn rows_are_sorted() {
    let rows = vec![
        row(0x300, false, "b", 5, 1.0, 9.0),
        row(0x100, true, "", 7, 0.0, 3.0),
        row(0x200, false, "B", 5, 8.5, 4.0),
        row(0x100, false, "", 1, 2.0, 5.0),
        row(0x050, false, "ba", 9, 2.0, 1.0),
    ];
    assert_eq!(sorted_order(&rows, SortBy::Id), vec![4, 3, 2, 0, 1]);
    assert_eq!(sorted_order(&rows, SortBy::Name), vec![2, 0, 4, 3, 1]);
    assert_eq!(sorted_order(&rows, SortBy::Count), vec![4, 1, 0, 2, 3]);
    assert_eq!(sorted_order(&rows, SortBy::Rate), vec![2, 3, 4, 0, 1]);
    assert_eq!(sorted_order(&rows, SortBy::Recent), vec![0, 3, 2, 1, 4]);
    assert_eq!(count_frames(&rows), 27);
    let order = sorted_order(&rows, SortBy::Id);
    assert_eq!(visible(&rows, &Filter::parse("100"), &order), vec![3, 1]);
    assert_eq!(visible(&rows, &Filter::parse("-100"), &order), vec![4, 2, 0]);
    assert_eq!(visible(&rows, &Filter::parse(""), &order), order);
    assert_eq!(visible(&rows, &Filter::parse("b"), &order), vec![4, 2, 0]);
    assert!(sorted_order(&Vec::new(), SortBy::Name).is_empty());
}

#[test]
fn summary_details() {
    assert_eq!(toggled(None, key(1)), Some(key(1)));
    assert_eq!(toggled(Some(key(1)), key(1)), None);
    assert_eq!(toggled(Some(key(1)), key(2)), Some(key(2)));
    assert_eq!(directions(1, 1), "Rx/Tx");
    assert_eq!(directions(0, 1), "Tx");
    assert_eq!(directions(1, 0), "Rx");
    let c = byte_cells(12, 0x0A);
    assert_eq!(
        (c.index.as_str(), c.hex.as_str(), c.binary.as_str(), c.dec.as_str()),
        ("12", "0A", "00001010", "10")
    );
}

#[test]
fn forms_build_frames() {
    let mut f = TxForm::default();
    let m = f.build(num(4.0)).unwrap();
    assert_eq!((m.id, m.ext, m.len, m.dir, m.ts), (0x123, false, 8, Dir::Tx, num(4.0)));
    f.id = "800".to_string();
    assert!(f.build(num(0.0)).unwrap().ext);
    f.id = "20000000".to_string();
    assert_eq!(f.build(num(0.0)).unwrap_err(), "ID exceeds 29 bits");
    f.id = "zz".to_string();
    assert_eq!(
        f.build(num(0.0)).unwrap_err(),
        "invalid ID 'zz': invalid digit found in string"
    );
    f.id = "1".to_string();
    f.data = "1G".to_string();
    assert_eq!(f.build(num(0.0)).unwrap_err(), "'1G': invalid digit found in string");
    f.data = "00 ".repeat(9);
    assert_eq!(
        f.build(num(0.0)).unwrap_err(),
        "classic CAN frames carry at most 8 bytes (enable FD)"
    );
    f.fd = true;
    assert_eq!(
        f.build(num(0.0)).unwrap_err(),
        "9 bytes is not a valid CAN FD length (0-8,12,16,20,24,32,48,64)"
    );
    f.data = "00 ".repeat(12);
    f.brs = true;
    let m = f.build(num(0.0)).unwrap();
    assert!(m.fd && m.brs);
    assert_eq!(m.len, 12);
    // FD frames are never remote
    f.rtr = true;
    let m = f.build(num(0.0)).unwrap();
    assert!(m.fd && !m.rtr);
    assert_eq!(m.len, 0);
    f.fd = false;
    let m = f.build(num(0.0)).unwrap();
    assert!(m.rtr && !m.brs);
    assert_eq!(m.len, 8);
    f.data = "x".to_string();
    assert_eq!(f.build(num(0.0)).unwrap().len, 0);
    // data that would cut a character is only looked at where it is needed
    f.data = "1é2".to_string();
    assert!(!f.can_build());
    f.fd = true;
    assert!(f.can_build());
    f.fd = false;
    f.id = "zz".to_string();
    assert!(f.can_build());
}

#[test]
fn seen_frames_are_sent_as_seen() {
    let mut fd = CanMsg::new(num(0.0), 0x1ABCDEF0, true, &[0x5A; 32]);
    fd.brs = true;
    for m in [msg(0x7FF), CanMsg::new(num(0.0), 5, true, &[]), fd] {
        let f = TxForm::from_message(&m);
        let b = f.build(num(1.0)).unwrap();
        assert_eq!((b.id, b.ext, b.rtr, b.fd, b.brs, b.len), (m.id, m.ext, m.rtr, m.fd, m.brs, m.len));
        assert_eq!(b.data, m.data);
        assert_eq!(b.dir, Dir::Tx);
    }
    let mut f = TxForm::default();
    f.brs = true;
    f.set_symbol(MsgKey { id: 0xABC, ext: true }, 12);
    assert_eq!((f.id.as_str(), f.ext, f.fd, f.brs), ("ABC", true, true, true));
    assert_eq!(f.data, "00 00 00 00 00 00 00 00 00 00 00 00");
    f.set_symbol(key(1), 0);
    assert_eq!((f.fd, f.data.as_str()), (false, ""));
}

#[test]
fn periodic_list() {
    let mut l = PeriodicList::new();
    let a = l.add(msg(1), num(100.0));
    let b = l.add(msg(2), num(50.0));
    assert_eq!((a, b), (1, 2));
    assert!(!l.items[0].enabled);
    assert_eq!(l.find(b), Some(1));
    l.remove(a);
    l.remove(77);
    assert_eq!(l.items.len(), 1);
    assert_eq!((l.find(a), l.find(b)), (None, Some(0)));
    assert_eq!(l.add(msg(3), num(1.0)), 3);
    assert_eq!(l.items[1].period_ms, num(1.0));
}

#[test]
fn playback_texts() {
    let mut p = ReplayProgress { index: 3, total: 10, looped: false, loops: 0 };
    assert_eq!(describe_progress(&p), "3/10");
    p.looped = true;
    p.loops = 4;
    assert_eq!(describe_progress(&p), "3/10 (loop 5)");
    assert_eq!(describe_skipped(0), "");
    assert_eq!(describe_skipped(2), ", 2 unparsable lines skipped");
    assert!(!has_fd(&vec![msg(1)]));
    assert!(has_fd(&vec![msg(1), CanMsg::new(num(0.0), 1, false, &[0; 12])]));
}

#[test]
fn status_texts() {
    assert_eq!(fmt_bitrate(0), "-");
    assert_eq!(fmt_bitrate(1_000_000), "1 Mbit/s");
    assert_eq!(fmt_bitrate(125_000), "125 kbit/s");
    assert_eq!(fmt_bitrate(83_333), "83 kbit/s");
    let mut m = msg(0x12);
    assert_eq!(fmt_id(&m), "012");
    m.fd = true;
    assert_eq!(fmt_id(&m), "012 FD");
    m.brs = true;
    m.ext = true;
    assert_eq!(fmt_id(&m), "00000012 FD+");
    assert_eq!(describe_counters(Some(12), None), "12 / -");
    let mut s = BusStats::default();
    assert_eq!(interface_text(&s), "(disconnected)");
    s.connect("can0", 1, BackendKind::SocketCan, num(0.0));
    assert_eq!(interface_text(&s), "can0");
}

#[test]
fn counters_are_cleared_but_not_the_connection() {
    let mut s = BusStats::default();
    s.connect("can0", 1, BackendKind::SocketCan, num(0.0));
    s.push_event(num(1.0), "second".to_string(), true);
    s.push_point(HistoryPoint { load: num(1.0), fps: num(2.0) });
    s.rx_total = 5;
    s.tx_errors = 2;
    s.recording = Some(("x".to_string(), 9));
    let events = latest_events(&s);
    assert_eq!(events.len(), 2);
    assert_eq!((events[0].text.as_str(), events[0].severe), ("second", true));
    let light = clone_light(&s);
    assert_eq!((light.rx_total, light.events.len(), light.history.len()), (5, 0, 0));
    assert_eq!(light.recording, Some(("x".to_string(), 9)));
    clear_counters(&mut s);
    assert_eq!((s.rx_total, s.tx_errors, s.events.len(), s.history.len()), (0, 0, 0, 0));
    assert!(s.connected);
    assert_eq!(s.recording, Some(("x".to_string(), 9)));
}

#[test]
fn backends_bring_their_channel() {
    let mut c = ConnectConfig::default();
    let none: Vec<String> = Vec::new();
    let ifaces = vec!["vcan0".to_string(), "can1".to_string()];
    let ports = vec!["/dev/ttyS0".to_string()];
    c.fd = true;
    c.kind = BackendKind::SocketCan;
    backend_changed(&mut c, &ifaces, &ports);
    assert_eq!((c.channel.as_str(), c.fd), ("vcan0", true));
    backend_changed(&mut c, &none, &ports);
    assert_eq!(c.channel, "can0");
    c.kind = BackendKind::Slcan;
    backend_changed(&mut c, &ifaces, &ports);
    assert_eq!((c.channel.as_str(), c.fd), ("/dev/ttyS0", false));
    backend_changed(&mut c, &ifaces, &none);
    assert_eq!(c.channel, "");
    c.kind = BackendKind::Virtual;
    backend_changed(&mut c, &none, &none);
    assert_eq!(c.channel, "demo");
    c.kind = BackendKind::Pcan;
    backend_changed(&mut c, &none, &none);
    assert_eq!(c.channel, "");
}

#[test]
fn connection_comes_and_goes() {
    let mut c = Connection::new();
    assert_eq!(c.button(), ("▶ Connect", true));
    assert_eq!(c.repaint_ms(), 250);
    c.connect();
    assert_eq!(c.button(), ("Connecting...", false));
    assert!(!c.is_connected());
    assert!(!c.lost(false));
    let n = c.result(Err("no driver".to_string()));
    assert_eq!((n.text.as_str(), n.error), ("Connect failed: no driver", true));
    assert_eq!(c.button(), ("▶ Connect", true));
    c.connect();
    let n = c.result(Ok("can0".to_string()));
    assert_eq!((n.text.as_str(), n.error), ("Connected: can0", false));
    assert_eq!(c.name.as_deref(), Some("can0"));
    assert!(c.is_connected());
    assert_eq!(c.button(), ("⏹ Disconnect", true));
    assert_eq!(c.repaint_ms(), 33);
    assert!(c.lost(false) && !c.lost(true));
    c.disconnect();
    assert!(!c.is_connected() && c.name.is_none());
}
