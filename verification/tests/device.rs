use can_explorer::device::hal::{
    from_parts, hal_id, map_status, pcan_bitrate, to_classic, to_fd, Classic, Fd, PcanBitrate,
};
use can_explorer::device::logfile::{LogFileDevice, LogStep};
use can_explorer::device::slcan::{
    encode, parse_frame, setup_command, step, SlcanDevice, SlcanStep,
};
use can_explorer::device::socket::{
    error_event, is_can_type, sc_id, socketcan_interfaces, to_frame, SocketCanDevice, SocketError,
    SocketEvent, SocketFrame,
};
use can_explorer::device::virtual_bus::{payload, Readings, SimMsg, VirtualDevice, SECOND};
use can_explorer::device::{
    log_name, BackendKind, BusEvent, ConnectConfig, CtrlState, DevEvent, DeviceStatus, PcanBus,
    Platform,
};
use can_explorer::msg::{CanMsg, Dir};
use can_explorer::number::Real;
use socketcan::{EmbeddedFrame, Frame};

fn num(x: f64) -> Real {
    Real { bits: x.to_bits() }
}

fn msg(id: u32, ext: bool, data: &[u8]) -> CanMsg {
    CanMsg::new(num(1.0), id, ext, data)
}

fn remote(id: u32, len: u8) -> CanMsg {
    let mut m = msg(id, false, &[]);
    m.rtr = true;
    m.len = len;
    m
}

fn frame_of(e: Option<DevEvent>) -> CanMsg {
    match e {
        Some(DevEvent::Frame(m)) => m,
        _ => panic!("no frame"),
    }
}

fn event_of(e: Option<DevEvent>) -> BusEvent {
    match e {
        Some(DevEvent::Bus(b)) => b,
        _ => panic!("no event"),
    }
}

#[test]
fn backends_of_platforms() {
    assert_eq!(
        BackendKind::all(Platform::Linux),
        vec![
            BackendKind::Virtual,
            BackendKind::Pcan,
            BackendKind::Kvaser,
            BackendKind::SocketCan,
            BackendKind::Slcan,
            BackendKind::LogFile,
        ]
    );
    assert_eq!(
        BackendKind::all(Platform::Windows),
        vec![
            BackendKind::Virtual,
            BackendKind::Pcan,
            BackendKind::Kvaser,
            BackendKind::Slcan,
            BackendKind::LogFile,
        ]
    );
    assert_eq!(
        BackendKind::all(Platform::Other),
        vec![BackendKind::Virtual, BackendKind::Pcan, BackendKind::Slcan, BackendKind::LogFile]
    );
    let bitrate: Vec<BackendKind> =
        BackendKind::all(Platform::Linux).into_iter().filter(|k| k.has_bitrate()).collect();
    assert_eq!(bitrate, vec![BackendKind::Pcan, BackendKind::Kvaser, BackendKind::Slcan]);
    let fd: Vec<BackendKind> =
        BackendKind::all(Platform::Linux).into_iter().filter(|k| k.supports_fd()).collect();
    assert_eq!(fd, vec![BackendKind::Pcan, BackendKind::Kvaser, BackendKind::SocketCan]);
    assert_eq!(BackendKind::LogFile.label(), "Log file (offline review)");
    assert_eq!(CtrlState::BusOff.label(), "BUS OFF");
    assert_eq!(CtrlState::ErrorActive.label(), "Error Active (OK)");
}

#[test]
fn default_configuration() {
    let c = ConnectConfig::default();
    assert_eq!(c.kind, BackendKind::Virtual);
    assert_eq!(c.channel, "demo");
    assert_eq!((c.index, c.pcan_bus, c.bitrate), (0, PcanBus::Usb, 500_000));
    assert_eq!((c.fd, c.data_bitrate), (false, 2_000_000));
    assert!(c.log_path.is_none());
    assert_eq!(c.log_speed, num(1.0));
    assert_eq!(c.clone().channel, "demo");
    let s = DeviceStatus::default();
    assert_eq!((s.state, s.tec, s.rec), (CtrlState::Unknown, None, None));
    let e = BusEvent::new("x".to_string());
    assert_eq!((e.desc.as_str(), e.state, e.rx_overflow), ("x", None, false));
}

#[test]
fn names_in_log_files() {
    assert_eq!(log_name(BackendKind::Virtual, "stress", 0), "vcan_stress");
    assert_eq!(log_name(BackendKind::Pcan, "", 2), "pcan3");
    assert_eq!(log_name(BackendKind::Kvaser, "", 2), "kvaser2");
    assert_eq!(log_name(BackendKind::SocketCan, "can0", 0), "can0");
    assert_eq!(log_name(BackendKind::Slcan, "/dev/ttyACM0", 0), "slcandevttyacm0");
    let c = Classic { ch: (), name: "pcan1".to_string() };
    let f = Fd { ch: (), name: "kvaser0".to_string() };
    assert_eq!((c.log_name(), f.log_name()), ("pcan1".to_string(), "kvaser0".to_string()));
}

#[test]
fn classic_channels() {
    let f = to_classic(&msg(0x123, false, &[1, 2])).unwrap();
    assert_eq!((f.id().raw(), f.id().is_extended(), f.data()), (0x123, false, &[1u8, 2][..]));
    let f = to_classic(&msg(0x1FFF_FFFF, true, &[])).unwrap();
    assert_eq!((f.id().raw(), f.id().is_extended()), (0x1FFF_FFFF, true));
    assert_eq!(
        to_classic(&remote(1, 0)).unwrap_err(),
        "remote frames are not supported by this backend"
    );
    assert_eq!(
        to_classic(&msg(1, false, &[0; 12])).unwrap_err(),
        "CAN FD frame on a classic channel (enable FD when connecting)"
    );
    assert_eq!(to_classic(&msg(0x800, false, &[])).unwrap_err(), "invalid CAN id 800");
    assert_eq!(to_classic(&msg(0x10001, false, &[])).unwrap_err(), "invalid CAN id 10001");
    assert_eq!(hal_id(&msg(0x2000_0000, true, &[])).unwrap_err(), "invalid CAN id 20000000");
    let mut long = msg(1, false, &[0; 9]);
    long.fd = false;
    assert_eq!(to_classic(&long).unwrap_err(), "invalid classic frame");
}

#[test]
fn fd_channels() {
    let mut m = msg(0x123, false, &[3; 12]);
    m.brs = true;
    let f = to_fd(&m).unwrap();
    assert_eq!((f.id().raw(), f.data(), f.brs()), (0x123, &[3u8; 12][..], true));
    assert_eq!(to_fd(&msg(1, false, &[0; 9])).unwrap_err(), "invalid FD length 9");
    assert_eq!(
        to_fd(&remote(1, 0)).unwrap_err(),
        "remote frames are not supported by this backend"
    );
    // a frame that went out comes back as it was
    let back = from_parts(num(2.0), &f.id(), f.data(), true, f.brs());
    assert_eq!((back.id, back.ext, back.fd, back.brs), (0x123, false, true, true));
    assert_eq!(back.data(), m.data());
    assert_eq!(back.ts, num(2.0));
    let id = can_hal::CanId::new_extended(0x1234).unwrap();
    let x = from_parts(num(0.0), &id, &[1; 9], false, false);
    assert_eq!((x.id, x.ext, x.fd, x.len), (0x1234, true, false, 9));
}

#[test]
fn states_of_channels() {
    let active = CtrlState::ErrorActive;
    assert_eq!(map_status(active, Some((95, 95))).state, active);
    assert_eq!(map_status(active, Some((96, 0))).state, CtrlState::Warning);
    assert_eq!(map_status(active, Some((0, 96))).state, CtrlState::Warning);
    assert_eq!(map_status(CtrlState::BusOff, Some((255, 0))).state, CtrlState::BusOff);
    let s = map_status(active, None);
    assert_eq!((s.state, s.tec, s.rec), (active, None, None));
    assert_eq!(map_status(active, Some((1, 2))).rec, Some(2));
}

#[test]
fn pcan_bitrates() {
    assert!(matches!(pcan_bitrate(500_000), Ok(PcanBitrate::Br500K)));
    assert!(matches!(pcan_bitrate(5_000), Ok(PcanBitrate::Br5K)));
    assert!(matches!(pcan_bitrate(1_000_000), Ok(PcanBitrate::Br1M)));
    assert_eq!(
        pcan_bitrate(123).err(),
        Some("PCAN does not support classic bitrate 123".to_string())
    );
}

#[test]
fn socket_frames() {
    match to_frame(&msg(0x123, false, &[1, 2])).unwrap() {
        SocketFrame::Data(f) => {
            assert_eq!((f.raw_id(), f.is_extended(), f.data()), (0x123, false, &[1u8, 2][..]))
        }
        _ => panic!("data frame"),
    }
    match to_frame(&remote(0x7FF, 5)).unwrap() {
        SocketFrame::Remote(f) => assert_eq!((f.raw_id(), f.dlc()), (0x7FF, 5)),
        _ => panic!("remote frame"),
    }
    let mut m = msg(0x1234_5678, true, &[7; 10]);
    m.brs = true;
    match to_frame(&m).unwrap() {
        SocketFrame::Fd(f) => {
            assert_eq!((f.raw_id(), f.is_extended(), f.is_brs()), (0x1234_5678, true, true));
            // filled up to a valid length
            assert_eq!(f.data(), &[7, 7, 7, 7, 7, 7, 7, 7, 7, 7, 0, 0]);
        }
        _ => panic!("FD frame"),
    }
    m.brs = false;
    match to_frame(&m).unwrap() {
        SocketFrame::Fd(f) => assert!(!f.is_brs()),
        _ => panic!("FD frame"),
    }
    // standard IDs are cut to 16 bits
    assert!(sc_id(&msg(0x10001, false, &[])).is_ok());
    assert_eq!(sc_id(&msg(0x800, false, &[])).err(), Some("bad id".to_string()));
    assert_eq!(sc_id(&msg(0x2000_0000, true, &[])).err(), Some("bad id".to_string()));
    assert_eq!(to_frame(&remote(1, 9)).err(), Some("invalid RTR".to_string()));
    let mut long = msg(1, false, &[0; 9]);
    long.fd = false;
    assert_eq!(to_frame(&long).err(), Some("invalid frame".to_string()));
}

#[test]
fn socket_interfaces() {
    assert!(is_can_type("280\n"));
    assert!(!is_can_type("1\n"));
    assert!(!is_can_type(""));
    let found = [("vcan1", "280\n"), ("eth0", "1\n"), ("can10", " 280 "), ("can1", "280"), ("lo", "")]
        .map(|(n, t)| (n.to_string(), t.to_string()))
        .to_vec();
    assert_eq!(socketcan_interfaces(&found), ["can1", "can10", "vcan1"]);
    assert!(socketcan_interfaces(&Vec::new()).is_empty());
}

#[test]
fn socket_events() {
    let mut d = SocketCanDevice::new("can0");
    assert_eq!(d.name, "can0");
    assert_eq!(d.status().state, CtrlState::ErrorActive);
    let m = frame_of(Some(d.receive(
        SocketEvent::Data { id: 1, ext: true, data: vec![1, 2] },
        num(3.0),
    )));
    assert_eq!((m.id, m.ext, m.ts), (1, true, num(3.0)));
    let m = frame_of(Some(d.receive(SocketEvent::Remote { id: 1, ext: false, len: 4 }, num(0.0))));
    assert!(m.rtr);
    assert_eq!(m.len, 4);
    let m = frame_of(Some(d.receive(
        SocketEvent::Fd { id: 1, ext: false, data: vec![1], brs: true },
        num(0.0),
    )));
    assert!(m.fd && m.brs);
}

#[test]
fn socket_errors() {
    let mut d = SocketCanDevice::new("can0");
    let error = |bits: u32, problem: u8| SocketEvent::Error {
        bits,
        bytes: [0, problem, 0, 0, 0, 0, 11, 22],
    };
    let e = event_of(Some(d.receive(error(4, 0x10), num(0.0))));
    assert_eq!(
        (e.desc.as_str(), e.state),
        ("controller problem: ERROR PASSIVE (receive)", Some(CtrlState::ErrorPassive))
    );
    assert!(e.tec.is_none() && e.rec.is_none() && !e.rx_overflow);
    assert_eq!(
        d.status(),
        DeviceStatus { state: CtrlState::ErrorPassive, tec: None, rec: None }
    );
    let e = event_of(Some(d.receive(error(4, 1), num(0.0))));
    assert_eq!(e.desc, "controller problem: receive buffer overflow");
    assert!(e.rx_overflow && e.state.is_none());
    assert_eq!(d.status().state, CtrlState::ErrorPassive);
    // the counters come with a class of their own, which is no error by itself
    let e = event_of(Some(d.receive(error(0x200, 0), num(0.0))));
    assert_eq!((e.desc.as_str(), e.state), ("unknown error (512)", None));
    assert_eq!((e.tec, e.rec), (Some(11), Some(22)));
    assert_eq!(
        d.status(),
        DeviceStatus { state: CtrlState::ErrorPassive, tec: Some(11), rec: Some(22) }
    );
    for (bits, problem, text, state, overflow) in [
        (0x40, 0, "bus off", Some(CtrlState::BusOff), false),
        (0x100, 0, "restarted", Some(CtrlState::ErrorActive), false),
        (4, 2, "controller problem: transmit buffer overflow", None, true),
        (4, 4, "controller problem: ERROR WARNING (receive)", Some(CtrlState::Warning), false),
        (4, 8, "controller problem: ERROR WARNING (transmit)", Some(CtrlState::Warning), false),
        (
            4,
            0x20,
            "controller problem: ERROR PASSIVE (transmit)",
            Some(CtrlState::ErrorPassive),
            false,
        ),
        (4, 0x40, "controller problem: ERROR ACTIVE", Some(CtrlState::ErrorActive), false),
        (4, 0, "controller problem: unspecified controller problem", None, false),
        (4, 3, "decoding failure: not a valid controller problem", None, false),
        (1, 0, "transmission timeout", None, false),
        (2, 0, "arbitration lost after 0 bits", None, false),
        (0x20, 0, "no ack", None, false),
        (0x44, 4, "unknown error (68)", None, false),
        // flags above the class bits do not count
        (0x2000_0040, 0, "bus off", Some(CtrlState::BusOff), false),
    ] {
        let e = event_of(Some(d.receive(error(bits, problem), num(0.0))));
        assert_eq!((e.desc.as_str(), e.state, e.rx_overflow), (text, state, overflow));
        assert!(e.tec.is_none());
    }
    // what is read back of a frame makes the same event
    let f = socketcan::CanErrorFrame::new_error(0x104, &[0, 4]).unwrap();
    let e = event_of(Some(d.receive(
        SocketEvent::Error { bits: f.error_bits(), bytes: f.data().try_into().unwrap() },
        num(0.0),
    )));
    assert_eq!(e.desc, f.into_error().to_string());
}

#[test]
fn events_of_socket_errors() {
    let bytes = [1, 2, 3, 4, 5, 6, 7, 8];
    let of = |error: SocketError, bits: u32| error_event(error, "oops".to_string(), bits, &bytes);
    let e = of(SocketError::RxErrorPassive, 0x204);
    assert_eq!((e.desc.as_str(), e.state), ("oops", Some(CtrlState::ErrorPassive)));
    assert_eq!((e.tec, e.rec), (Some(7), Some(8)));
    for (x, s) in [
        (SocketError::BusOff, Some(CtrlState::BusOff)),
        (SocketError::Restarted, Some(CtrlState::ErrorActive)),
        (SocketError::RxErrorWarning, Some(CtrlState::Warning)),
        (SocketError::TxErrorWarning, Some(CtrlState::Warning)),
        (SocketError::TxErrorPassive, Some(CtrlState::ErrorPassive)),
        (SocketError::RxBufferOverflow, None),
        (SocketError::TxBufferOverflow, None),
        (SocketError::Active, Some(CtrlState::ErrorActive)),
        (SocketError::Other, None),
    ] {
        let e = of(x, 0x1FF);
        assert_eq!((e.state, e.tec, e.rec), (s, None, None));
        let full = [SocketError::RxBufferOverflow, SocketError::TxBufferOverflow];
        assert_eq!(e.rx_overflow, full.contains(&x));
    }
}

#[test]
fn slcan_lines_keep_what_counts() {
    let back = |m: &CanMsg| {
        let line: Vec<char> = encode(m).trim_end().chars().collect();
        parse_frame(&line, num(5.0))
    };
    // what stands behind the data is not sent
    let mut m = msg(0x123, false, &[1, 2, 3, 4]);
    m.len = 2;
    let r = back(&m).unwrap();
    assert_eq!((r.id, r.len, r.data[..4].to_vec()), (0x123, 2, vec![1, 2, 0, 0]));
    // classic frames have no bit rate switch and at most 8 bytes
    let mut m = msg(0x123, false, &[7; 20]);
    m.fd = false;
    m.brs = true;
    let r = back(&m).unwrap();
    assert_eq!((r.len, r.brs, r.data().to_vec()), (8, false, vec![7; 8]));
    let r = back(&remote(0x123, 20)).unwrap();
    assert_eq!((r.rtr, r.len), (true, 8));
    // FD frames of other lengths do not come back
    assert!(back(&msg(0x123, false, &[7; 10])).is_none());
}

#[test]
fn slcan_waiting() {
    let ms = 1_000_000;
    assert_eq!(step(1, 5, 5), SlcanStep::Read);
    assert_eq!(step(1, 0, 9 * ms), SlcanStep::Read);
    assert_eq!(step(0, 5, 5), SlcanStep::GiveUp);
    assert_eq!(step(0, 6, 5), SlcanStep::GiveUp);
    assert_eq!(step(0, 0, 9 * ms), SlcanStep::Wait(9 * ms));
    assert_eq!(step(0, 7, 8), SlcanStep::Wait(ms));
    assert_eq!(step(0, 0, ms), SlcanStep::Wait(ms));
}

#[test]
fn slcan_lines() {
    assert_eq!(setup_command(500_000).unwrap(), "S6\r");
    assert_eq!(setup_command(1_000_000).unwrap(), "S8\r");
    assert_eq!(setup_command(5).unwrap_err(), "SLCAN does not support bitrate 5");
    assert_eq!(encode(&msg(0x123, false, &[0xDE, 0xAD])), "t1232DEAD\r");
    assert_eq!(encode(&msg(0x123, true, &[])), "T000001230\r");
    assert_eq!(encode(&remote(0x7FF, 3)), "r7FF3\r");
    let mut fd = msg(0x10, false, &[1; 12]);
    assert_eq!(encode(&fd), "d0109010101010101010101010101\r");
    fd.brs = true;
    fd.ext = true;
    assert_eq!(encode(&fd), "B000000109010101010101010101010101\r");
}

#[test]
fn slcan_frames() {
    let read = |s: &str| parse_frame(&s.chars().collect::<Vec<char>>(), num(9.0));
    let m = read("t1232DEAD").unwrap();
    assert_eq!((m.id, m.ext, m.ts, m.dir), (0x123, false, num(9.0), Dir::Rx));
    assert_eq!(m.data(), &[0xDE, 0xAD]);
    // classic lengths are cut to 8, FD lengths are coded
    assert_eq!(read("r123F").unwrap().len, 8);
    assert_eq!(read(&format!("d123F{}", "00".repeat(64))).unwrap().len, 64);
    for s in ["", "x", "t12", "t123", "t1232DE", "t12G0", "t1232DEAG", "t12\u{e9}0"] {
        assert!(read(s).is_none());
    }
}

#[test]
fn slcan_round_trip_over_the_wire() {
    let mut d = SlcanDevice::new("/dev/ttyUSB0", 0);
    assert_eq!(d.name, "slcandevttyusb0");
    let mut sent = vec![msg(0x123, false, &[1, 2, 3]), msg(0x1234567, true, &[]), remote(5, 8)];
    let mut fd = msg(0x7FF, false, &[0xA5; 48]);
    fd.brs = true;
    sent.push(fd);
    for m in &sent {
        d.feed(encode(m).as_bytes());
    }
    for m in &sent {
        let r = frame_of(d.next_event(num(2.0)));
        assert_eq!((r.id, r.ext, r.rtr, r.fd, r.brs, r.len), (m.id, m.ext, m.rtr, m.fd, m.brs, m.len));
        assert_eq!(r.data, m.data);
    }
    assert!(d.next_event(num(2.0)).is_none());
    assert!(d.buf.is_empty());
}

#[test]
fn slcan_status() {
    let mut d = SlcanDevice::new("p", 0);
    // all is well and was so before
    d.feed(b"F00\r");
    assert!(d.next_event(num(0.0)).is_none());
    d.feed(b"\nF2D\r");
    let e = event_of(d.next_event(num(0.0)));
    assert_eq!(e.desc, "RX FIFO full, error warning, data overrun, error passive");
    assert_eq!(e.state, Some(CtrlState::ErrorPassive));
    assert!(e.rx_overflow);
    assert_eq!(d.status().state, CtrlState::ErrorPassive);
    d.feed(b"F00\r");
    let e = event_of(d.next_event(num(0.0)));
    assert_eq!((e.desc.as_str(), e.state), ("status OK", Some(CtrlState::ErrorActive)));
    d.feed(b"FC2\r");
    let e = event_of(d.next_event(num(0.0)));
    assert_eq!(e.desc, "TX FIFO full, arbitration lost, bus error");
    // a bell is reported after the line that it stands before
    d.feed(b"\x07t1230\rz\r\r");
    assert_eq!(frame_of(d.next_event(num(0.0))).id, 0x123);
    assert_eq!(
        event_of(d.next_event(num(0.0))).desc,
        "SLCAN adapter reported an error (BELL)"
    );
    assert!(d.next_event(num(0.0)).is_none());
    // lines that are not valid UTF-8 are passed over, incomplete ones wait
    d.feed(&[0xFF, b'\r']);
    d.feed(b"t12");
    assert!(d.next_event(num(0.0)).is_none());
    d.feed(b"40\r");
    assert_eq!(frame_of(d.next_event(num(0.0))).id, 0x124);
}

#[test]
fn slcan_polls_its_status() {
    let mut d = SlcanDevice::new("p", 100);
    assert!(!d.poll_due(500_000_100));
    assert!(d.poll_due(500_000_101));
    assert!(!d.poll_due(500_000_102));
}

#[test]
fn virtual_traffic() {
    let d = VirtualDevice::new("stress", 0);
    assert_eq!(d.msgs.len(), 20);
    assert!(d.msgs.iter().all(|m| m.period == 2_000_000));
    assert_eq!((d.msgs[5].id, d.msgs[5].ext, d.msgs[5].next), (0x105, true, 5 * 137_000));
    assert_eq!(VirtualDevice::new("quiet", 0).msgs.len(), 1);
    let demo = VirtualDevice::new("anything", 0);
    assert_eq!(demo.msgs.len(), 8);
    assert_eq!(demo.msgs[7].id, 0x0CF00400);
    let s = demo.status();
    assert_eq!((s.state, s.tec, s.rec), (CtrlState::ErrorActive, Some(0), Some(0)));
}

#[test]
fn virtual_payloads() {
    let r = Readings { rpm: 0x1234, temp: 0x56, speed: 0x789A, seconds: 38 };
    let at = |id: u32, counter: u32| {
        payload(&SimMsg { id, ext: false, period: 1, next: 0, counter }, r)
    };
    assert_eq!(at(0x0C0, 0x1_0203), vec![0x03, 0x02]);
    assert_eq!(at(0x100, 0x21), vec![0x34, 0x12, 0x56, 0, 0, 0, 0, 1]);
    assert_eq!(at(0x200, 0), vec![0x78, 0x9A, 0, 0, 0, 0]);
    assert_eq!(at(0x201, 6), vec![2, 6, 0xAA, 0x55]);
    assert_eq!(at(0x7E8, 0x101), vec![0x03, 0x41, 0x0C, 1, 0, 0, 0, 0]);
    assert_eq!(at(0x300, 0xFE), vec![0xFE, 0xFF, 0, 1, 2, 3, 4, 5]);
}

#[test]
fn virtual_messages_keep_their_period_but_do_not_burst() {
    let r = Readings { rpm: 0, temp: 0, speed: 0, seconds: 0 };
    let mut d = VirtualDevice::new("quiet", 1000);
    assert_eq!(d.wait(400, 100), Some(100));
    assert_eq!(d.wait(400, 10_000), Some(600));
    assert_eq!(d.wait(1000, 5), None);
    assert!(d.send_next(999, num(0.0), r).is_none());
    let m = d.send_next(1000, num(7.0), r).unwrap();
    assert_eq!((m.id, m.ts), (0x100, num(7.0)));
    assert_eq!(d.msgs[0].next, 1000 + SECOND);
    // half a second late: one period after it was due
    assert!(d.send_next(1000 + 3 * SECOND / 2, num(0.0), r).is_some());
    assert_eq!(d.msgs[0].next, 1000 + 2 * SECOND);
    // far behind: one period from now
    assert!(d.send_next(1000 + 100 * SECOND, num(0.0), r).is_some());
    assert_eq!(d.msgs[0].next, 1000 + 101 * SECOND);
    assert_eq!(d.msgs[0].counter, 3);
    // the earliest comes first
    let mut demo = VirtualDevice::new("demo", 0);
    let order: Vec<u32> =
        (0..8).map(|_| demo.send_next(1_000_000, num(0.0), r).unwrap().id).collect();
    assert_eq!(
        order,
        vec![0x0C0, 0x100, 0x200, 0x201, 0x300, 0x7E8, 0x18FEF100, 0x0CF00400]
    );
    assert!(demo.send_next(1_000_000, num(0.0), r).is_none());
}

#[test]
fn log_files_as_devices() {
    assert!(LogFileDevice::open(Vec::new(), Vec::new(), "x".to_string()).is_none());
    let frames = vec![msg(1, false, &[]), msg(2, false, &[])];
    let mut d = LogFileDevice::open(frames, vec![100, 300], "drive".to_string()).unwrap();
    assert_eq!(d.name, "drive");
    assert!(matches!(d.step(50, 1000), LogStep::Wait(50)));
    assert!(matches!(d.step(50, 7), LogStep::Wait(7)));
    assert!(d.next(99).is_none());
    assert!(matches!(d.step(100, 7), LogStep::Ready));
    assert_eq!(d.next(100).unwrap().id, 1);
    assert!(!d.finished());
    assert_eq!(d.next(400).unwrap().id, 2);
    assert!(d.finished());
    assert!(d.next(500).is_none());
    assert!(matches!(d.step(500, 7), LogStep::Finished));
}
