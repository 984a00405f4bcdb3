//! SLCAN (Lawicel ASCII over serial): CANable, USBtin and others.

use std::collections::VecDeque;
use vstd::prelude::*;
use vstd::slice::slice_subrange;
use vstd::utf8::{decode_utf8, valid_utf8};
use crate::candump::{lemma_plain_hex, plain_hex};
use crate::device::{
    log_name_of, plain_event, BackendKind, BusEvent, BusEventModel, CtrlState, DevEvent, DeviceStatus,
    EventModel,
};
use crate::msg::{
    data_frame, fd_len, greatest, id_text, is_plain, is_remote, law_what_is_read_back, least,
    put_id, read_back, CanMsg, Dir, Frame,
};
use crate::number::{
    decimal, hex_padded, is_hex_char, lemma_hex_padded, lemma_hex_width, parse_uint, parsed,
    put_decimal, put_hex, IntError, Real,
};
use crate::text::{chars_of, lower, put, string_of, utf8_text};

verus! {

/// The setup code of a bitrate.
pub open spec fn bitrate_code(bitrate: u32) -> Option<char> {
    if bitrate == 10_000 {
        Some('0')
    } else if bitrate == 20_000 {
        Some('1')
    } else if bitrate == 50_000 {
        Some('2')
    } else if bitrate == 100_000 {
        Some('3')
    } else if bitrate == 125_000 {
        Some('4')
    } else if bitrate == 250_000 {
        Some('5')
    } else if bitrate == 500_000 {
        Some('6')
    } else if bitrate == 800_000 {
        Some('7')
    } else if bitrate == 1_000_000 {
        Some('8')
    } else {
        None
    }
}

/// The command that sets a bitrate.
pub open spec fn setup_line(bitrate: u32) -> Option<Seq<char>> {
    match bitrate_code(bitrate) {
        Some(c) => Some(seq!['S', c, '\r']),
        None => None,
    }
}

/// The command that sets the bitrate, or that the adapter does not know it.
pub fn setup_command(bitrate: u32) -> (r: Result<String, String>)
    ensures
        match r {
            Ok(s) => bitrate_code(bitrate) matches Some(c) && s@ == seq!['S', c, '\r'],
            Err(e) => bitrate_code(bitrate) is None && e@ == "SLCAN does not support bitrate "@
                + decimal(bitrate as int),
        },
        r matches Ok(s) ==> Some(s@) == setup_line(bitrate),
        r is Ok == setup_line(bitrate) is Some,
{
    let mut out: Vec<char> = Vec::new();
    let c: char = match bitrate {
        10_000 => '0',
        20_000 => '1',
        50_000 => '2',
        100_000 => '3',
        125_000 => '4',
        250_000 => '5',
        500_000 => '6',
        800_000 => '7',
        1_000_000 => '8',
        _ => {
            put(&mut out, "SLCAN does not support bitrate ");
            put_decimal(&mut out, bitrate as u64);
            assert(out@ =~= "SLCAN does not support bitrate "@ + decimal(bitrate as int));
            return Err(string_of(out.as_slice()));
        },
    };
    out.push('S');
    out.push(c);
    out.push('\r');
    assert(out@ =~= seq!['S', c, '\r']);
    Ok(string_of(out.as_slice()))
}

/// The letter that a frame's line begins with.
pub open spec fn kind_char(m: Frame) -> char {
    if m.fd && m.brs {
        if m.ext {
            'B'
        } else {
            'b'
        }
    } else if m.fd {
        if m.ext {
            'D'
        } else {
            'd'
        }
    } else if m.rtr {
        if m.ext {
            'R'
        } else {
            'r'
        }
    } else {
        if m.ext {
            'T'
        } else {
            't'
        }
    }
}

/// The length code of a length.
pub open spec fn length_code(len: int) -> int {
    if len <= 8 {
        len
    } else if len == 12 {
        9
    } else if len == 16 {
        10
    } else if len == 20 {
        11
    } else if len == 24 {
        12
    } else if len == 32 {
        13
    } else if len == 48 {
        14
    } else {
        15
    }
}

/// The length for a code: classic frames have at most 8 bytes.
pub open spec fn coded_length(code: int, fd: bool) -> int {
    if !fd {
        least(code, 8)
    } else if code <= 8 {
        code
    } else if code == 9 {
        12
    } else if code == 10 {
        16
    } else if code == 11 {
        20
    } else if code == 12 {
        24
    } else if code == 13 {
        32
    } else if code == 14 {
        48
    } else {
        64
    }
}

/// A frame as a line, without the carriage return.
pub open spec fn frame_line(m: Frame) -> Seq<char> {
    seq![kind_char(m)] + id_text(m.id, m.ext) + hex_padded(length_code(m.len), 1) + (if m.rtr {
        Seq::empty()
    } else {
        plain_hex(m.data.take(m.len))
    })
}

/// The bytes of a frame as a line that ends in a carriage return.
pub fn encode(msg: &CanMsg) -> (r: String)
    requires
        msg.wf(),
    ensures
        r@ == frame_line(msg@).push('\r'),
{
    let mut out: Vec<char> = Vec::new();
    let c: char = match (msg.fd, msg.brs, msg.rtr, msg.ext) {
        (true, true, _, false) => 'b',
        (true, true, _, true) => 'B',
        (true, false, _, false) => 'd',
        (true, false, _, true) => 'D',
        (false, _, true, false) => 'r',
        (false, _, true, true) => 'R',
        (false, _, false, false) => 't',
        (false, _, false, true) => 'T',
    };
    out.push(c);
    put_id(&mut out, msg.id, msg.ext);
    let code: u8 = if msg.len <= 8 {
        msg.len
    } else if msg.len == 12 {
        9
    } else if msg.len == 16 {
        10
    } else if msg.len == 20 {
        11
    } else if msg.len == 24 {
        12
    } else if msg.len == 32 {
        13
    } else if msg.len == 48 {
        14
    } else {
        15
    };
    put_hex(&mut out, code as u64, 1);
    let ghost head = out@;
    assert(head =~= seq![kind_char(msg@)] + id_text(msg.id, msg.ext) + hex_padded(
        length_code(msg.len as int),
        1,
    ));
    if !msg.rtr {
        let d = msg.data();
        let mut i: usize = 0;
        assert(head + plain_hex(d@.take(0)) =~= head);
        while i < d.len()
            invariant
                i <= d@.len(),
                out@ == head + plain_hex(d@.take(i as int)),
            decreases d@.len() - i,
        {
            put_hex(&mut out, d[i] as u64, 2);
            proof {
                let t = d@.take(i + 1);
                assert(t.drop_last() =~= d@.take(i as int));
                assert(out@ =~= head + plain_hex(t));
            }
            i = i + 1;
        }
        assert(d@.take(i as int) =~= d@);
    }
    assert(out@ =~= frame_line(msg@));
    out.push('\r');
    string_of(out.as_slice())
}

/// What the first letter of a line says: extended, remote, FD, bit rate switch.
pub open spec fn kind_of(c: char) -> Option<(bool, bool, bool, bool)> {
    if c == 't' {
        Some((false, false, false, false))
    } else if c == 'T' {
        Some((true, false, false, false))
    } else if c == 'r' {
        Some((false, true, false, false))
    } else if c == 'R' {
        Some((true, true, false, false))
    } else if c == 'd' {
        Some((false, false, true, false))
    } else if c == 'D' {
        Some((true, false, true, false))
    } else if c == 'b' {
        Some((false, false, true, true))
    } else if c == 'B' {
        Some((true, false, true, true))
    } else {
        None
    }
}

/// The first `n` bytes of a text of hexadecimal pairs.
pub open spec fn first_bytes(s: Seq<char>, n: int) -> Option<Seq<u8>>
    decreases n,
{
    if n <= 0 {
        Some(Seq::empty())
    } else if s.len() < 2 * n {
        None
    } else {
        match (first_bytes(s, n - 1), parsed(s.subrange(2 * n - 2, 2 * n), 16, 0xFF)) {
            (Some(d), Ok(v)) => Some(d.push(v as u8)),
            _ => None,
        }
    }
}

/// The frame that a line stands for. Anything but digits where digits are due makes the
/// line no frame.
pub open spec fn line_frame(s: Seq<char>, ts: Real) -> Option<Frame> {
    if s.len() == 0 {
        None
    } else {
        match kind_of(s[0]) {
            None => None,
            Some((ext, rtr, fd, brs)) => {
                let n: int = if ext {
                    8
                } else {
                    3
                };
                if s.len() < 2 + n {
                    None
                } else {
                    match (
                        parsed(s.subrange(1, 1 + n), 16, u32::MAX as int),
                        parsed(s.subrange(1 + n, 2 + n), 16, u32::MAX as int),
                    ) {
                        (Ok(id), Ok(code)) => {
                            let len = coded_length(code, fd);
                            let d = if rtr {
                                Some(Seq::empty())
                            } else {
                                first_bytes(s.skip(2 + n), len)
                            };
                            match d {
                                None => None,
                                Some(d) => Some(
                                    Frame {
                                        rtr,
                                        fd,
                                        brs,
                                        len,
                                        ..data_frame(ts, id as u32, ext, d)
                                    },
                                ),
                            }
                        },
                        _ => None,
                    }
                }
            },
        }
    }
}

/// The flags of a status line `Fxx`.
pub open spec fn line_flags(s: Seq<char>) -> Option<int> {
    if s.len() < 3 || s[0] != 'F' {
        None
    } else {
        match parsed(s.subrange(1, 3), 16, u32::MAX as int) {
            Ok(v) => Some(v),
            Err(_) => None,
        }
    }
}

/// Whether a flag is set.
pub open spec fn has_flag(flags: int, weight: int) -> bool {
    (flags / weight) % 2 == 1
}

/// The state that flags stand for.
pub open spec fn flag_state(flags: int) -> CtrlState {
    if has_flag(flags, 0x20) {
        CtrlState::ErrorPassive
    } else if has_flag(flags, 0x04) {
        CtrlState::Warning
    } else {
        CtrlState::ErrorActive
    }
}

/// A list of flags in words, with one more if it is set.
pub open spec fn with_flag(list: Seq<char>, set: bool, name: Seq<char>) -> Seq<char> {
    if !set {
        list
    } else if list.len() == 0 {
        name
    } else {
        list + ", "@ + name
    }
}

/// The flags that are set, in words.
pub open spec fn flag_names(flags: int) -> Seq<char> {
    let a = with_flag(Seq::empty(), has_flag(flags, 0x01), "RX FIFO full"@);
    let b = with_flag(a, has_flag(flags, 0x02), "TX FIFO full"@);
    let c = with_flag(b, has_flag(flags, 0x04), "error warning"@);
    let d = with_flag(c, has_flag(flags, 0x08), "data overrun"@);
    let e = with_flag(d, has_flag(flags, 0x20), "error passive"@);
    let f = with_flag(e, has_flag(flags, 0x40), "arbitration lost"@);
    with_flag(f, has_flag(flags, 0x80), "bus error"@)
}

/// The event for flags; none when all is well and was so before.
pub open spec fn flag_event(flags: int, before: CtrlState) -> Option<BusEventModel> {
    if flags == 0 && before == flag_state(flags) {
        None
    } else {
        Some(
            BusEventModel {
                state: Some(flag_state(flags)),
                rx_overflow: has_flag(flags, 0x01) || has_flag(flags, 0x08),
                ..plain_event(
                    if flag_names(flags).len() == 0 {
                        "status OK"@
                    } else {
                        flag_names(flags)
                    },
                )
            },
        )
    }
}

/// Bytes that end a line.
pub open spec fn is_end(b: u8) -> bool {
    b == 0x0D || b == 0x07
}

/// Position of the first byte that ends a line, or the length.
pub open spec fn find_end(b: Seq<u8>) -> int
    decreases b.len(),
{
    if b.len() == 0 || is_end(b[0]) {
        0
    } else {
        1 + find_end(b.skip(1))
    }
}

/// Bytes without line feeds.
pub open spec fn without_feeds(b: Seq<u8>) -> Seq<u8>
    decreases b.len(),
{
    if b.len() == 0 {
        b
    } else if b.last() == 0x0A {
        without_feeds(b.drop_last())
    } else {
        without_feeds(b.drop_last()).push(b.last())
    }
}

/// The first line that is not empty, what follows it, and how many bells were passed.
pub open spec fn first_line(b: Seq<u8>) -> (Option<Seq<u8>>, Seq<u8>, int)
    decreases b.len(),
{
    let p = find_end(b);
    if p < 0 || p >= b.len() {
        (None, b, 0)
    } else {
        let bell = if b[p] == 0x07 {
            1int
        } else {
            0int
        };
        let line = without_feeds(b.take(p));
        let rest = b.skip(p + 1);
        if line.len() > 0 {
            (Some(line), rest, bell)
        } else {
            let (l, r, n) = first_line(rest);
            (l, r, n + bell)
        }
    }
}

/// The text of the event for a bell.
pub open spec fn bell_event() -> EventModel {
    EventModel::Bus(plain_event("SLCAN adapter reported an error (BELL)"@))
}

/// An SLCAN adapter, as far as the serial port is left aside.
pub struct SlcanDevice {
    pub name: String,
    /// Bytes received that make no whole line yet.
    pub buf: Vec<u8>,
    pub status: DeviceStatus,
    /// When the status was last asked for, in nanoseconds.
    pub last_status_poll: u64,
    pub pending_events: VecDeque<DevEvent>,
}

/// The contents of an optional event.
pub open spec fn opt_event(e: Option<DevEvent>) -> Option<EventModel> {
    match e {
        Some(e) => Some(e@),
        None => None,
    }
}

/// An optional event of the bus.
pub open spec fn bus_event(e: Option<BusEventModel>) -> Option<EventModel> {
    match e {
        Some(e) => Some(EventModel::Bus(e)),
        None => None,
    }
}

/// The contents of events.
pub open spec fn event_views(v: Seq<DevEvent>) -> Seq<EventModel> {
    Seq::new(v.len(), |i: int| v[i]@)
}

fn end_position(b: &Vec<u8>) -> (r: usize)
    ensures
        r == find_end(b@),
        r <= b@.len(),
{
    let mut i: usize = 0;
    assert(b@.skip(0) =~= b@);
    while i < b.len() && b[i] != 0x0D && b[i] != 0x07
        invariant
            i <= b@.len(),
            find_end(b@) == i + find_end(b@.skip(i as int)),
        decreases b@.len() - i,
    {
        assert(b@.skip(i as int).skip(1) =~= b@.skip(i + 1));
        i = i + 1;
    }
    i
}

fn drop_feeds(b: &[u8]) -> (r: Vec<u8>)
    ensures
        r@ == without_feeds(b@),
{
    let mut v: Vec<u8> = Vec::new();
    let mut i: usize = 0;
    while i < b.len()
        invariant
            i <= b@.len(),
            v@ == without_feeds(b@.take(i as int)),
        decreases b@.len() - i,
    {
        assert(b@.take(i + 1).drop_last() =~= b@.take(i as int));
        if b[i] != 0x0A {
            v.push(b[i]);
        }
        i = i + 1;
    }
    assert(b@.take(i as int) =~= b@);
    v
}

fn add_flag(list: &mut Vec<char>, set: bool, name: &str)
    ensures
        final(list)@ == with_flag(old(list)@, set, name@),
{
    if set {
        if list.len() > 0 {
            put(list, ", ");
            put(list, name);
        } else {
            put(list, name);
            assert(list@ =~= name@);
        }
    }
}

fn read_bytes(s: &[char], n: usize) -> (r: Option<Vec<u8>>)
    requires
        n <= 64,
    ensures
        match r {
            Some(d) => first_bytes(s@, n as int) == Some(d@),
            None => first_bytes(s@, n as int) is None,
        },
{
    if s.len() < 2 * n {
        return None;
    }
    let mut out: Vec<u8> = Vec::new();
    let mut i: usize = 0;
    while i < n
        invariant
            i <= n <= 64,
            2 * n <= s@.len(),
            first_bytes(s@, i as int) == Some(out@),
        decreases n - i,
    {
        let pair = slice_subrange(s, 2 * i, 2 * i + 2);
        match parse_uint(pair, 16, 0xFF) {
            Ok(v) => {
                out.push(v as u8);
            },
            Err(_) => {
                proof {
                    lemma_first_bytes_none(s@, i + 1, n as int);
                }
                return None;
            },
        }
        i = i + 1;
    }
    Some(out)
}

proof fn lemma_first_bytes_none(s: Seq<char>, i: int, n: int)
    requires
        0 <= i <= n,
        first_bytes(s, i) is None,
    ensures
        first_bytes(s, n) is None,
    decreases n,
{
    if i < n {
        lemma_first_bytes_none(s, i, n - 1);
    }
}

fn length_for(code: u64, fd: bool) -> (r: u8)
    ensures
        r == coded_length(code as int, fd),
        r <= 64,
{
    if !fd {
        if code < 8 {
            code as u8
        } else {
            8
        }
    } else if code <= 8 {
        code as u8
    } else if code == 9 {
        12
    } else if code == 10 {
        16
    } else if code == 11 {
        20
    } else if code == 12 {
        24
    } else if code == 13 {
        32
    } else if code == 14 {
        48
    } else {
        64
    }
}

/// Reads a line as a frame.
pub fn parse_frame(s: &[char], ts: Real) -> (r: Option<CanMsg>)
    ensures
        match r {
            Some(m) => m.wf() && line_frame(s@, ts) == Some(m@),
            None => line_frame(s@, ts) is None,
        },
{
    let total: usize = s.len();
    if total == 0 {
        return None;
    }
    let (ext, rtr, fd, brs): (bool, bool, bool, bool) = match s[0] {
        't' => (false, false, false, false),
        'T' => (true, false, false, false),
        'r' => (false, true, false, false),
        'R' => (true, true, false, false),
        'd' => (false, false, true, false),
        'D' => (true, false, true, false),
        'b' => (false, false, true, true),
        'B' => (true, false, true, true),
        _ => {
            return None;
        },
    };
    let n: usize = if ext {
        8
    } else {
        3
    };
    if total < 2 + n {
        return None;
    }
    let id: u64 = match parse_uint(slice_subrange(s, 1, 1 + n), 16, 0xFFFF_FFFF) {
        Ok(v) => v,
        Err(_) => {
            return None;
        },
    };
    let code: u64 = match parse_uint(slice_subrange(s, 1 + n, 2 + n), 16, 0xFFFF_FFFF) {
        Ok(v) => v,
        Err(_) => {
            return None;
        },
    };
    let len: u8 = length_for(code, fd);
    let d: Vec<u8> = if rtr {
        Vec::new()
    } else {
        let rest = slice_subrange(s, 2 + n, total);
        assert(rest@ =~= s@.skip(2 + n));
        match read_bytes(rest, len as usize) {
            Some(d) => d,
            None => {
                return None;
            },
        }
    };
    assert(rtr ==> d@ =~= Seq::<u8>::empty());
    let mut m = CanMsg::new(ts, id as u32, ext, d.as_slice());
    m.rtr = rtr;
    m.fd = fd;
    m.brs = brs;
    m.len = len;
    Some(m)
}

/// What to do about the serial port when no event waits.
#[derive(Debug, Clone, Copy, PartialEq, Eq, Structural)]
pub enum SlcanStep {
    /// The time is up and nothing came.
    GiveUp,
    /// Bytes are there: read them.
    Read,
    /// Read, waiting for so many nanoseconds at most.
    Wait(u64),
}

/// The shortest time that the serial port is waited for, in nanoseconds.
pub const SHORTEST_WAIT: u64 = 1_000_000;

/// The step for so many bytes at hand, at a time, with a deadline; times are in
/// nanoseconds.
pub open spec fn step_of(avail: u32, now: u64, deadline: u64) -> SlcanStep {
    if avail > 0 {
        SlcanStep::Read
    } else if now >= deadline {
        SlcanStep::GiveUp
    } else {
        SlcanStep::Wait(greatest(deadline - now, SHORTEST_WAIT as int) as u64)
    }
}

/// Says what to do about the serial port: bytes at hand are read even when the time is up.
pub fn step(avail: u32, now: u64, deadline: u64) -> (r: SlcanStep)
    ensures
        r == step_of(avail, now, deadline),
{
    if avail > 0 {
        SlcanStep::Read
    } else if now >= deadline {
        SlcanStep::GiveUp
    } else if deadline - now > SHORTEST_WAIT {
        SlcanStep::Wait(deadline - now)
    } else {
        SlcanStep::Wait(SHORTEST_WAIT)
    }
}

/// No byte at hand is left unread, nothing is waited for once the time is up, and a wait
/// ends at the deadline or after the shortest wait.
pub proof fn law_waiting_is_bounded(avail: u32, now: u64, deadline: u64)
    ensures
        (step_of(avail, now, deadline) is Read) == (avail > 0),
        now >= deadline ==> !(step_of(avail, now, deadline) is Wait),
        step_of(avail, now, deadline) matches SlcanStep::Wait(t) ==> t >= SHORTEST_WAIT && (now + t
            == deadline || t == SHORTEST_WAIT),
{
}

/// Whether the status, last asked for at `last`, is to be asked for again: twice a second.
pub open spec fn poll_is_due(last: int, now: int) -> bool {
    2 * (now - last) > 1_000_000_000
}

impl SlcanDevice {
    /// An adapter that was just opened.
    pub fn new(path: &str, now: u64) -> (r: Self)
        ensures
            r.name@ == log_name_of(BackendKind::Slcan, path@, 0),
            r.buf@ == Seq::<u8>::empty(),
            r.status == (DeviceStatus { state: CtrlState::ErrorActive, tec: None, rec: None }),
            r.last_status_poll == now,
            r.pending_events@ == Seq::<DevEvent>::empty(),
    {
        SlcanDevice {
            name: crate::device::log_name(BackendKind::Slcan, path, 0),
            buf: Vec::new(),
            status: DeviceStatus { state: CtrlState::ErrorActive, tec: None, rec: None },
            last_status_poll: now,
            pending_events: VecDeque::new(),
        }
    }

    /// Every waiting frame is well formed.
    pub open spec fn wf(self) -> bool {
        forall|i: int| 0 <= i < self.pending_events@.len() ==> (#[trigger] self.pending_events@[i]).wf()
    }

    /// Whether the adapter is to be asked for its status now: every half second. The time
    /// of asking is noted.
    pub fn poll_due(&mut self, now: u64) -> (r: bool)
        ensures
            r == (now - old(self).last_status_poll > 500_000_000),
            r == poll_is_due(old(self).last_status_poll as int, now as int),
            final(self).last_status_poll == (if r {
                now
            } else {
                old(self).last_status_poll
            }),
            final(self).name == old(self).name,
            final(self).buf == old(self).buf,
            final(self).status == old(self).status,
            final(self).pending_events == old(self).pending_events,
    {
        if now > self.last_status_poll && now - self.last_status_poll > 500_000_000 {
            self.last_status_poll = now;
            true
        } else {
            false
        }
    }

    /// Takes in bytes from the serial port.
    pub fn feed(&mut self, bytes: &[u8])
        ensures
            final(self).buf@ == old(self).buf@ + bytes@,
            final(self).name == old(self).name,
            final(self).status == old(self).status,
            final(self).last_status_poll == old(self).last_status_poll,
            final(self).pending_events == old(self).pending_events,
    {
        self.buf.extend_from_slice(bytes);
        assert(self.buf@ =~= old(self).buf@ + bytes@);
    }

    /// Takes the first line that is not empty; a bell leaves an event behind.
    pub fn take_line(&mut self) -> (r: Option<Vec<u8>>)
        ensures
            ({
                let (line, rest, bells) = first_line(old(self).buf@);
                &&& match r {
                    Some(l) => line == Some(l@),
                    None => line is None,
                }
                &&& final(self).buf@ == rest
                &&& event_views(final(self).pending_events@) == event_views(
                    old(self).pending_events@,
                ) + Seq::new(bells as nat, |i: int| bell_event())
            }),
            old(self).wf() ==> final(self).wf(),
            final(self).name == old(self).name,
            final(self).status == old(self).status,
            final(self).last_status_poll == old(self).last_status_poll,
    {
        let ghost all = first_line(self.buf@);
        let ghost events = event_views(self.pending_events@);
        let ghost mut bells: int = 0;
        proof {
            lemma_first_line(self.buf@);
            assert(events + Seq::new(0nat, |i: int| bell_event()) =~= events);
        }
        loop
            invariant
                bells >= 0,
                all.0 == first_line(self.buf@).0,
                all.1 == first_line(self.buf@).1,
                all.2 == bells + first_line(self.buf@).2,
                event_views(self.pending_events@) == events + Seq::new(
                    bells as nat,
                    |i: int| bell_event(),
                ),
                old(self).wf() ==> self.wf(),
                self.name == old(self).name,
                self.status == old(self).status,
                self.last_status_poll == old(self).last_status_poll,
                all == first_line(old(self).buf@),
                events == event_views(old(self).pending_events@),
            decreases self.buf@.len(),
        {
            let n: usize = self.buf.len();
            let p: usize = end_position(&self.buf);
            if p >= n {
                return None;
            }
            let ghost before = self.buf@;
            let line = drop_feeds(slice_subrange(self.buf.as_slice(), 0, p));
            let bell = self.buf[p] == 0x07;
            let mut rest: Vec<u8> = Vec::new();
            rest.extend_from_slice(slice_subrange(self.buf.as_slice(), p + 1, n));
            proof {
                assert(before.subrange(0, p as int) =~= before.take(p as int));
                assert(rest@ =~= before.skip(p + 1));
                lemma_first_line(rest@);
            }
            self.buf = rest;
            if bell {
                let ghost held = event_views(self.pending_events@);
                let ghost held_raw = self.pending_events@;
                let e = DevEvent::Bus(
                    BusEvent::new("SLCAN adapter reported an error (BELL)".to_string()),
                );
                self.pending_events.push_back(e);
                proof {
                    assert(event_views(self.pending_events@) =~= held.push(bell_event()));
                    bells = bells + 1;
                    assert(event_views(self.pending_events@) =~= events + Seq::new(
                        bells as nat,
                        |i: int| bell_event(),
                    ));
                    assert(old(self).wf() ==> self.wf()) by {
                        if old(self).wf() {
                            assert forall|i: int| 0 <= i < self.pending_events@.len() implies (
                            #[trigger] self.pending_events@[i]).wf() by {
                                if i < held_raw.len() {
                                    assert(held_raw[i].wf());
                                }
                            }
                        }
                    }
                }
            }
            if line.len() > 0 {
                return Some(line);
            }
        }
    }

    /// Takes note of status flags; the event says which are set.
    pub fn status_flags(&mut self, flags: u8) -> (r: Option<DevEvent>)
        ensures
            r matches Some(e) ==> e.wf(),
            opt_event(r) == bus_event(flag_event(flags as int, old(self).status.state)),
            final(self).status == (DeviceStatus {
                state: flag_state(flags as int),
                ..old(self).status
            }),
            final(self).name == old(self).name,
            final(self).buf == old(self).buf,
            final(self).last_status_poll == old(self).last_status_poll,
            final(self).pending_events == old(self).pending_events,
    {
        let prev = self.status.state;
        let state = if (flags / 0x20) % 2 == 1 {
            CtrlState::ErrorPassive
        } else if (flags / 0x04) % 2 == 1 {
            CtrlState::Warning
        } else {
            CtrlState::ErrorActive
        };
        self.status.state = state;
        if flags == 0 && prev == state {
            return None;
        }
        let mut list: Vec<char> = Vec::new();
        assert(list@ =~= Seq::<char>::empty());
        add_flag(&mut list, flags % 2 == 1, "RX FIFO full");
        add_flag(&mut list, (flags / 0x02) % 2 == 1, "TX FIFO full");
        add_flag(&mut list, (flags / 0x04) % 2 == 1, "error warning");
        add_flag(&mut list, (flags / 0x08) % 2 == 1, "data overrun");
        add_flag(&mut list, (flags / 0x20) % 2 == 1, "error passive");
        add_flag(&mut list, (flags / 0x40) % 2 == 1, "arbitration lost");
        add_flag(&mut list, (flags / 0x80) % 2 == 1, "bus error");
        assert(list@ == flag_names(flags as int));
        if list.len() == 0 {
            list = chars_of("status OK");
        }
        let mut ev = BusEvent::new(string_of(list.as_slice()));
        ev.state = Some(state);
        ev.rx_overflow = flags % 2 == 1 || (flags / 0x08) % 2 == 1;
        Some(DevEvent::Bus(ev))
    }

    /// Reads a line: a frame, or a status that is worth an event.
    pub fn parse_line(&mut self, line: &[u8], ts: Real) -> (r: Option<DevEvent>)
        ensures
            r matches Some(e) ==> e.wf(),
            (opt_event(r), final(self).status.state) == line_event(
                line@,
                old(self).status.state,
                ts,
            ),
            final(self).status.tec == old(self).status.tec,
            final(self).status.rec == old(self).status.rec,
            final(self).name == old(self).name,
            final(self).buf == old(self).buf,
            final(self).last_status_poll == old(self).last_status_poll,
            final(self).pending_events == old(self).pending_events,
    {
        let text = match utf8_text(line) {
            Some(t) => t,
            None => {
                return None;
            },
        };
        let s = chars_of(text.as_str());
        if s.len() > 0 && s[0] == 'F' {
            if s.len() < 3 {
                return None;
            }
            let d = slice_subrange(s.as_slice(), 1, 3);
            proof {
                lemma_two_digits(d@);
            }
            match parse_uint(d, 16, 0xFFFF_FFFF) {
                Ok(v) => {
                    return self.status_flags(v as u8);
                },
                Err(_) => {
                    return None;
                },
            }
        }
        match parse_frame(s.as_slice(), ts) {
            Some(m) => Some(DevEvent::Frame(m)),
            None => None,
        }
    }

    /// The next event: one that waits, or that of the first line that makes one.
    pub fn next_event(&mut self, ts: Real) -> (r: Option<DevEvent>)
        requires
            old(self).wf(),
        ensures
            final(self).wf(),
            r matches Some(e) ==> e.wf(),
            final(self).name == old(self).name,
            final(self).last_status_poll == old(self).last_status_poll,
            old(self).pending_events@.len() > 0 ==> (r == Some(old(self).pending_events@[0])
                && final(self).pending_events@ == old(self).pending_events@.skip(1)
                && final(self).buf@ == old(self).buf@ && final(self).status == old(self).status),
            old(self).pending_events@.len() == 0 ==> lines_event(
                old(self).buf@,
                old(self).status.state,
                ts,
            ) == (
                opt_event(r),
                final(self).buf@,
                final(self).status.state,
                final(self).pending_events@.len() as int,
            ),
            old(self).pending_events@.len() == 0 ==> forall|i: int|
                0 <= i < final(self).pending_events@.len() ==> (#[trigger] final(self).pending_events@[i])@ == bell_event(),
            final(self).status.tec == old(self).status.tec,
            final(self).status.rec == old(self).status.rec,
    {
        if self.pending_events.len() > 0 {
            let ghost q = self.pending_events@;
            let e = self.pending_events.pop_front();
            proof {
                assert(self.pending_events@ =~= q.skip(1));
                assert forall|i: int| 0 <= i < self.pending_events@.len() implies (
                #[trigger] self.pending_events@[i]).wf() by {
                    assert(q[i + 1].wf());
                }
                assert(q[0].wf());
            }
            return e;
        }
        let ghost all = lines_event(self.buf@, self.status.state, ts);
        loop
            invariant
                self.wf(),
                self.name == old(self).name,
                self.last_status_poll == old(self).last_status_poll,
                self.status.tec == old(self).status.tec,
                self.status.rec == old(self).status.rec,
                old(self).pending_events@.len() == 0,
                all == lines_event(old(self).buf@, old(self).status.state, ts),
                ({
                    let now = lines_event(self.buf@, self.status.state, ts);
                    all == (now.0, now.1, now.2, now.3 + self.pending_events@.len())
                }),
                forall|i: int|
                    0 <= i < self.pending_events@.len() ==> (#[trigger] self.pending_events@[i])@
                        == bell_event(),
            decreases self.buf@.len(),
        {
            let ghost b0 = self.buf@;
            let ghost ev0 = event_views(self.pending_events@);
            proof {
                lemma_first_line(b0);
            }
            let t = self.take_line();
            proof {
                let bells = first_line(b0).2;
                let q = event_views(self.pending_events@);
                assert(q.len() == ev0.len() + bells);
                assert forall|i: int| 0 <= i < self.pending_events@.len() implies (
                #[trigger] self.pending_events@[i])@ == bell_event() by {
                    assert(q[i] == self.pending_events@[i]@);
                    if i < ev0.len() {
                        assert(q[i] == ev0[i]);
                    }
                }
            }
            match t {
                None => {
                    return None;
                },
                Some(line) => {
                    let e = self.parse_line(line.as_slice(), ts);
                    if e.is_some() {
                        return e;
                    }
                },
            }
        }
    }

    /// The state of the adapter's controller.
    pub fn status(&self) -> (r: DeviceStatus)
        ensures
            r == self.status,
    {
        self.status
    }
}

/// The event of a line in a state, and the state after it.
pub open spec fn line_event(line: Seq<u8>, state: CtrlState, ts: Real) -> (
    Option<EventModel>,
    CtrlState,
) {
    let s = decode_utf8(line);
    if !valid_utf8(line) {
        (None, state)
    } else {
        match line_flags(s) {
            Some(v) => (bus_event(flag_event(v, state)), flag_state(v)),
            None => (
                match line_frame(s, ts) {
                    Some(f) => Some(EventModel::Frame(f)),
                    None => None,
                },
                state,
            ),
        }
    }
}

/// The event of the first line that makes one, with the bytes and the state left after
/// it and the number of bells passed.
pub open spec fn lines_event(b: Seq<u8>, state: CtrlState, ts: Real) -> (
    Option<EventModel>,
    Seq<u8>,
    CtrlState,
    int,
)
    decreases b.len(),
{
    proof {
        lemma_first_line(b);
    }
    let (line, rest, bells) = first_line(b);
    match line {
        None => (None, rest, state, bells),
        Some(l) => {
            let (e, after) = line_event(l, state, ts);
            if e is Some {
                (e, rest, after, bells)
            } else if rest.len() < b.len() {
                let (e2, r2, s2, n2) = lines_event(rest, after, ts);
                (e2, r2, s2, n2 + bells)
            } else {
                (None, rest, after, bells)
            }
        },
    }
}

pub proof fn lemma_first_line(b: Seq<u8>)
    ensures
        first_line(b).1.len() <= b.len(),
        first_line(b).0 is Some ==> first_line(b).1.len() < b.len(),
        first_line(b).2 >= 0,
    decreases b.len(),
{
    let p = find_end(b);
    if p < 0 || p >= b.len() {
    } else {
        lemma_first_line(b.skip(p + 1));
    }
}

proof fn lemma_two_digits(s: Seq<char>)
    requires
        s.len() == 2,
    ensures
        parsed(s, 16, u32::MAX as int) matches Ok(v) ==> 0 <= v <= 0xFF,
{
    reveal_with_fuel(crate::number::scan, 3);
    assert(s.skip(1)[0] == s[1]);
    assert(s.skip(1).skip(1).len() == 0);
    assert(s.skip(1).skip(1) =~= Seq::<char>::empty());
}

/// Frames that come back from a line: the ID fits its format, and FD frames have a length
/// that such frames can have and no remote mark in place of data.
pub open spec fn sendable(m: Frame) -> bool {
    &&& m.ext || m.id <= 0xFFF
    &&& 0 <= m.len <= 64
    &&& m.data.len() == 64
    &&& m.fd ==> fd_len(m.len) && (m.rtr ==> m.len == 0)
}

proof fn lemma_plain_hex_at(d: Seq<u8>, k: int)
    requires
        0 <= k < d.len(),
    ensures
        plain_hex(d).len() == 2 * d.len(),
        plain_hex(d).subrange(2 * k, 2 * k + 2) == hex_padded(d[k] as int, 2),
    decreases d.len(),
{
    lemma_plain_hex(d);
    lemma_plain_hex(d.drop_last());
    lemma_hex_width(d.last() as int, 2);
    let n = d.len() - 1;
    if k == n {
        assert(plain_hex(d).subrange(2 * k, 2 * k + 2) =~= hex_padded(d[k] as int, 2));
    } else {
        lemma_plain_hex_at(d.drop_last(), k);
        assert(plain_hex(d).subrange(2 * k, 2 * k + 2) =~= plain_hex(d.drop_last()).subrange(
            2 * k,
            2 * k + 2,
        ));
        assert(d.drop_last()[k] == d[k]);
    }
}

proof fn lemma_first_bytes_back(d: Seq<u8>, k: int)
    requires
        0 <= k <= d.len(),
    ensures
        first_bytes(plain_hex(d), k) == Some(d.take(k)),
    decreases k,
{
    lemma_plain_hex(d);
    if k == 0 {
        assert(d.take(0) =~= Seq::<u8>::empty());
    } else {
        lemma_first_bytes_back(d, k - 1);
        lemma_plain_hex_at(d, k - 1);
        lemma_hex_padded(d[k - 1] as int, 2, 0xFF);
        assert(d.take(k - 1).push(d[k - 1]) =~= d.take(k));
    }
}

/// The parts of a frame's line.
proof fn lemma_line_parts(m: Frame)
    requires
        sendable(m),
    ensures
        ({
            let s = frame_line(m);
            let n: int = if m.ext {
                8
            } else {
                3
            };
            &&& s.len() >= 2 + n
            &&& kind_of(s[0]) == Some((m.ext, is_remote(m), m.fd, m.fd && m.brs))
            &&& parsed(s.subrange(1, 1 + n), 16, u32::MAX as int) == Ok::<int, IntError>(m.id as int)
            &&& parsed(s.subrange(1 + n, 2 + n), 16, u32::MAX as int) == Ok::<int, IntError>(
                length_code(m.len),
            )
            &&& !m.rtr ==> s.skip(2 + n) == plain_hex(m.data.take(m.len))
        }),
{
    let s = frame_line(m);
    let n: int = if m.ext {
        8
    } else {
        3
    };
    let code = length_code(m.len);
    lemma_hex_padded(m.id as int, n, u32::MAX as int);
    lemma_hex_width(m.id as int, n as nat);
    lemma_hex_padded(code, 1, u32::MAX as int);
    lemma_hex_width(code, 1);
    assert(s.subrange(1, 1 + n) =~= id_text(m.id, m.ext));
    assert(s.subrange(1 + n, 2 + n) =~= hex_padded(code, 1));
    if !m.rtr {
        assert(s.skip(2 + n) =~= plain_hex(m.data.take(m.len)));
    }
}

/// A frame written as a line reads back. ID, format and kind of the frame come back, its
/// length unless it is a classic frame of more than 8 bytes, and its bytes unless it is a
/// remote frame. Of a plain frame all comes back.
pub proof fn law_line_roundtrip(m: Frame, ts: Real)
    requires
        sendable(m),
    ensures
        line_frame(frame_line(m), ts) == Some(read_back(m, ts)),
        m.fd || m.len <= 8 ==> read_back(m, ts).len == m.len,
        !is_remote(m) ==> read_back(m, ts).data.take(read_back(m, ts).len) == m.data.take(
            read_back(m, ts).len,
        ),
        is_plain(m) ==> read_back(m, ts) == (Frame { ts, dir: Dir::Rx, ..m }),
{
    let n: int = if m.ext {
        8
    } else {
        3
    };
    let code = length_code(m.len);
    let d = m.data.take(m.len);
    let r = read_back(m, ts);
    lemma_line_parts(m);
    law_what_is_read_back(m, ts);
    assert(coded_length(code, m.fd) == r.len);
    let e = if is_remote(m) {
        Seq::empty()
    } else {
        m.data.take(r.len)
    };
    if m.rtr {
        assert(r.len == 0 || is_remote(m));
        assert(e =~= Seq::<u8>::empty());
        assert(first_bytes(frame_line(m).skip(2 + n), 0) == Some(Seq::<u8>::empty()));
    } else {
        lemma_first_bytes_back(d, r.len);
        assert(d.take(r.len) =~= e);
    }
    assert(Frame { rtr: r.rtr, fd: m.fd, brs: r.brs, len: r.len, ..data_frame(ts, m.id, m.ext, e) }
        == r);
}

proof fn lemma_frame_line_chars(m: Frame)
    requires
        sendable(m),
    ensures
        frame_line(m).len() > 0,
        frame_line(m)[0] != 'F',
        forall|i: int|
            0 <= i < frame_line(m).len() ==> '0' <= #[trigger] frame_line(m)[i] <= 'z',
{
    let s = frame_line(m);
    let n: int = if m.ext {
        8
    } else {
        3
    };
    let id = id_text(m.id, m.ext);
    let code = length_code(m.len);
    let d = m.data.take(m.len);
    lemma_hex_padded(m.id as int, n, u32::MAX as int);
    lemma_hex_width(m.id as int, n as nat);
    lemma_hex_padded(code, 1, u32::MAX as int);
    lemma_hex_width(code, 1);
    lemma_plain_hex(d);
    assert(s[0] == kind_char(m));
    assert forall|i: int| 0 <= i < s.len() implies '0' <= #[trigger] s[i] <= 'z' by {
        if 0 < i < 1 + n {
            assert(s[i] == id[i - 1]);
            assert(is_hex_char(id[i - 1]));
        } else if i == 1 + n {
            assert(s[i] == hex_padded(code, 1)[0]);
            assert(is_hex_char(hex_padded(code, 1)[0]));
        } else if i > 1 + n {
            assert(s[i] == plain_hex(d)[i - 2 - n]);
            assert(is_hex_char(plain_hex(d)[i - 2 - n]));
        }
    }
}

proof fn lemma_find_end(b: Seq<u8>, n: int)
    requires
        0 <= n < b.len(),
        is_end(b[n]),
        forall|i: int| 0 <= i < n ==> !is_end(#[trigger] b[i]),
    ensures
        find_end(b) == n,
    decreases n,
{
    if n > 0 {
        assert(!is_end(b[0]));
        let c = b.skip(1);
        assert(c[n - 1] == b[n]);
        assert forall|i: int| 0 <= i < n - 1 implies !is_end(#[trigger] c[i]) by {
            assert(c[i] == b[i + 1]);
        }
        lemma_find_end(c, n - 1);
    }
}

proof fn lemma_no_feeds(b: Seq<u8>)
    requires
        forall|i: int| 0 <= i < b.len() ==> #[trigger] b[i] != 0x0A,
    ensures
        without_feeds(b) == b,
    decreases b.len(),
{
    if b.len() > 0 {
        let c = b.drop_last();
        assert forall|i: int| 0 <= i < c.len() implies #[trigger] c[i] != 0x0A by {
            assert(c[i] == b[i]);
        }
        lemma_no_feeds(c);
        assert(b[b.len() - 1] != 0x0A);
        assert(c.push(b.last()) =~= b);
    }
}

/// The bytes of a frame, as they go over the wire, come out as what a line keeps of the
/// frame and leave nothing behind. Of a plain frame all comes out.
pub proof fn law_wire_roundtrip(m: Frame, state: CtrlState, ts: Real)
    requires
        sendable(m),
    ensures
        lines_event(vstd::utf8::encode_utf8(frame_line(m).push('\r')), state, ts) == (
            Some(EventModel::Frame(read_back(m, ts))),
            Seq::<u8>::empty(),
            state,
            0int,
        ),
        is_plain(m) ==> read_back(m, ts) == (Frame { ts, dir: Dir::Rx, ..m }),
{
    let s = frame_line(m);
    let n = s.len() as int;
    let w = s.push('\r');
    let b = vstd::utf8::encode_utf8(w);
    lemma_frame_line_chars(m);
    law_line_roundtrip(m, ts);
    assert(vstd::utf8::is_ascii_chars(s)) by {
        assert forall|i: int| 0 <= i < s.len() implies '\0' <= #[trigger] s[i] <= '\u{7f}' by {
            assert('0' <= s[i] <= 'z');
        }
    }
    assert(vstd::utf8::is_ascii_chars(w)) by {
        assert forall|i: int| 0 <= i < w.len() implies '\0' <= #[trigger] w[i] <= '\u{7f}' by {
            if i < n {
                assert(w[i] == s[i]);
            }
        }
    }
    vstd::utf8::is_ascii_chars_encode_utf8(w);
    vstd::utf8::is_ascii_chars_encode_utf8(s);
    assert(b.len() == n + 1);
    assert(b[n] == 0x0D);
    assert forall|i: int| 0 <= i < n implies !is_end(#[trigger] b[i]) && b[i] != 0x0A by {
        assert(w[i] == s[i]);
        assert('0' <= s[i] <= 'z');
    }
    lemma_find_end(b, n);
    let line = b.take(n);
    assert forall|i: int| 0 <= i < line.len() implies #[trigger] line[i] != 0x0A by {
        assert(line[i] == b[i]);
        assert(!is_end(b[i]) && b[i] != 0x0A);
    }
    lemma_no_feeds(line);
    let e = vstd::utf8::encode_utf8(s);
    assert(line =~= e) by {
        assert forall|i: int| 0 <= i < n implies line[i] == #[trigger] e[i] by {
            assert(w[i] == s[i]);
        }
    }
    vstd::utf8::encode_utf8_valid_utf8(s);
    vstd::utf8::encode_utf8_decode_utf8(s);
    assert(b.skip(n + 1) =~= Seq::<u8>::empty());
    assert(line_flags(s) is None);
}

/// The status is asked for no more than twice a second, and no less often where there is
/// nothing else to do.
pub proof fn law_polls_keep_their_distance(last: int, now: int)
    ensures
        poll_is_due(last, now) ==> now > last + 500_000_000,
        now > last + 500_000_000 ==> poll_is_due(last, now),
{
}

/// There are nine bitrates, each with a code of its own; a faster one has a higher code.
pub proof fn law_bitrate_codes(a: u32, b: u32)
    ensures
        bitrate_code(a) is Some == (a == 10_000 || a == 20_000 || a == 50_000 || a == 100_000 || a
            == 125_000 || a == 250_000 || a == 500_000 || a == 800_000 || a == 1_000_000),
        bitrate_code(a) matches Some(c) ==> '0' <= c <= '8',
        bitrate_code(a) matches Some(c) ==> (bitrate_code(b) matches Some(d) ==> (a < b) == (c < d)),
{
}

/// The letter of a frame: `t` for data, `r` for a remote frame, `d` for CAN FD and `b` for CAN
/// FD with a faster data phase, as capitals for extended IDs. It reads back.
pub proof fn law_frame_letters(m: Frame)
    ensures
        ({
            let small = if m.fd {
                if m.brs {
                    'b'
                } else {
                    'd'
                }
            } else if m.rtr {
                'r'
            } else {
                't'
            };
            &&& lower(kind_char(m)) == small
            &&& (kind_char(m) == small) == !m.ext
            &&& kind_of(kind_char(m)) == Some((m.ext, m.rtr && !m.fd, m.fd, m.fd && m.brs))
        }),
{
}

/// The length codes 0 to 8 mean themselves; in CAN FD frames 9 to 12 count on in steps of 4
/// bytes and 13 to 15 in steps of 16. Each length of a CAN FD frame has a code, which means
/// that length; in a classic frame higher codes mean 8.
pub proof fn law_length_codes(len: int, code: int)
    ensures
        fd_len(len) ==> 0 <= length_code(len) <= 15 && coded_length(length_code(len), true) == len,
        0 <= code <= 8 ==> coded_length(code, true) == code && coded_length(code, false) == code,
        9 <= code <= 12 ==> coded_length(code, true) == 4 * (code - 6),
        13 <= code <= 15 ==> coded_length(code, true) == 16 * (code - 11),
        9 <= code ==> coded_length(code, false) == 8,
        0 <= code <= 15 ==> length_code(coded_length(code, true)) == code,
{
}

/// A line for a frame: the letter, three hexadecimal digits of the ID, or eight for an
/// extended one, one digit of the length, and two for each byte unless it is a remote frame.
pub proof fn law_frame_lines(m: Frame, i: int)
    requires
        sendable(m),
    ensures
        ({
            let s = frame_line(m);
            let n: int = if m.ext {
                8
            } else {
                3
            };
            &&& s[0] == kind_char(m)
            &&& parsed(s.subrange(1, 1 + n), 16, u32::MAX as int) == Ok::<int, IntError>(m.id as int)
            &&& parsed(s.subrange(1 + n, 2 + n), 16, u32::MAX as int) == Ok::<int, IntError>(
                length_code(m.len),
            )
            &&& m.rtr ==> s.len() == 2 + n
            &&& !m.rtr ==> s.len() == 2 + n + 2 * m.len
            &&& !m.rtr && 0 <= i < m.len ==> parsed(
                s.subrange(2 + n + 2 * i, 4 + n + 2 * i),
                16,
                0xFF,
            ) == Ok::<int, IntError>(m.data[i] as int)
        }),
{
    let s = frame_line(m);
    let n: int = if m.ext {
        8
    } else {
        3
    };
    lemma_line_parts(m);
    let code = length_code(m.len);
    lemma_hex_width(m.id as int, n as nat);
    lemma_hex_width(code, 1);
    let d = m.data.take(m.len);
    lemma_plain_hex(d);
    if !m.rtr && 0 <= i < m.len {
        lemma_plain_hex_at(d, i);
        assert(s.subrange(2 + n + 2 * i, 4 + n + 2 * i) =~= s.skip(2 + n).subrange(2 * i, 2 * i + 2));
        lemma_hex_padded(d[i] as int, 2, 0xFF);
    }
}

/// Two hexadecimal digits behind an `F` are the status flags; a line that begins otherwise, or
/// is shorter, has none.
pub proof fn law_flag_lines(v: u8, s: Seq<char>, rest: Seq<char>)
    ensures
        line_flags(seq!['F'] + hex_padded(v as int, 2) + rest) == Some(v as int),
        s.len() < 3 || s[0] != 'F' ==> line_flags(s) is None,
{
    lemma_hex_padded(v as int, 2, u32::MAX as int);
    lemma_hex_width(v as int, 2);
    let t = seq!['F'] + hex_padded(v as int, 2) + rest;
    assert(t.subrange(1, 3) =~= hex_padded(v as int, 2));
}

/// A flag is set where its bit is.
pub proof fn law_flags_are_bits(f: u8)
    ensures
        has_flag(f as int, 0x01) == (f & 0x01 != 0),
        has_flag(f as int, 0x02) == (f & 0x02 != 0),
        has_flag(f as int, 0x04) == (f & 0x04 != 0),
        has_flag(f as int, 0x08) == (f & 0x08 != 0),
        has_flag(f as int, 0x20) == (f & 0x20 != 0),
        has_flag(f as int, 0x40) == (f & 0x40 != 0),
        has_flag(f as int, 0x80) == (f & 0x80 != 0),
{
    assert((f / 0x01 % 2 == 1) == (f & 0x01 != 0) && (f / 0x02 % 2 == 1) == (f & 0x02 != 0) && (f
        / 0x04 % 2 == 1) == (f & 0x04 != 0) && (f / 0x08 % 2 == 1) == (f & 0x08 != 0) && (f / 0x20
        % 2 == 1) == (f & 0x20 != 0) && (f / 0x40 % 2 == 1) == (f & 0x40 != 0) && (f / 0x80 % 2
        == 1) == (f & 0x80 != 0)) by (bit_vector);
}

/// What the flags mean for the controller: passive where the bit for it is set, else a warning
/// where that one is, else active. Something is reported unless no flag is set and the state
/// was active already; frames were lost where the receive buffer was full or data overran.
pub proof fn law_flags_tell_the_state(f: u8, before: CtrlState)
    ensures
        f & 0x20 != 0 ==> flag_state(f as int) == CtrlState::ErrorPassive,
        f & 0x20 == 0 && f & 0x04 != 0 ==> flag_state(f as int) == CtrlState::Warning,
        f & 0x20 == 0 && f & 0x04 == 0 ==> flag_state(f as int) == CtrlState::ErrorActive,
        flag_event(f as int, before) is None == (f == 0 && before == CtrlState::ErrorActive),
        flag_event(f as int, before) matches Some(e) ==> {
            &&& e.state == Some(flag_state(f as int))
            &&& e.rx_overflow == (f & 0x01 != 0 || f & 0x08 != 0)
            &&& e.tec is None && e.rec is None
            &&& f == 0 ==> e.desc == "status OK"@
        },
{
    law_flags_are_bits(f);
    if f == 0 {
        assert(0u8 & 0x20 == 0 && 0u8 & 0x04 == 0) by (bit_vector);
        assert(flag_names(0) =~= Seq::empty());
    }
}

proof fn lemma_further_flag(f: int, w: int)
    requires
        0 <= f < w,
        w == 0x01 || w == 0x02 || w == 0x04 || w == 0x08 || w == 0x10 || w == 0x20 || w == 0x40 || w
            == 0x80,
    ensures
        has_flag(f + w, 0x01) == (w == 0x01 || has_flag(f, 0x01)),
        w <= 0x01 ==> !has_flag(f, 0x01),
        has_flag(f + w, 0x02) == (w == 0x02 || has_flag(f, 0x02)),
        w <= 0x02 ==> !has_flag(f, 0x02),
        has_flag(f + w, 0x04) == (w == 0x04 || has_flag(f, 0x04)),
        w <= 0x04 ==> !has_flag(f, 0x04),
        has_flag(f + w, 0x08) == (w == 0x08 || has_flag(f, 0x08)),
        w <= 0x08 ==> !has_flag(f, 0x08),
        has_flag(f + w, 0x20) == (w == 0x20 || has_flag(f, 0x20)),
        w <= 0x20 ==> !has_flag(f, 0x20),
        has_flag(f + w, 0x40) == (w == 0x40 || has_flag(f, 0x40)),
        w <= 0x40 ==> !has_flag(f, 0x40),
        has_flag(f + w, 0x80) == (w == 0x80 || has_flag(f, 0x80)),
        w <= 0x80 ==> !has_flag(f, 0x80),
{
    let a = f as u8;
    let b = w as u8;
    let c = (f + w) as u8;
    assert((c / 0x01 % 2 == 1) == (b == 0x01 || a / 0x01 % 2 == 1)
        && (b <= 0x01 ==> a / 0x01 % 2 != 1)
        && (c / 0x02 % 2 == 1) == (b == 0x02 || a / 0x02 % 2 == 1)
        && (b <= 0x02 ==> a / 0x02 % 2 != 1)
        && (c / 0x04 % 2 == 1) == (b == 0x04 || a / 0x04 % 2 == 1)
        && (b <= 0x04 ==> a / 0x04 % 2 != 1)
        && (c / 0x08 % 2 == 1) == (b == 0x08 || a / 0x08 % 2 == 1)
        && (b <= 0x08 ==> a / 0x08 % 2 != 1)
        && (c / 0x20 % 2 == 1) == (b == 0x20 || a / 0x20 % 2 == 1)
        && (b <= 0x20 ==> a / 0x20 % 2 != 1)
        && (c / 0x40 % 2 == 1) == (b == 0x40 || a / 0x40 % 2 == 1)
        && (b <= 0x40 ==> a / 0x40 % 2 != 1)
        && (c / 0x80 % 2 == 1) == (b == 0x80 || a / 0x80 % 2 == 1)
        && (b <= 0x80 ==> a / 0x80 % 2 != 1)) by (bit_vector)
        requires
            a < b,
            c == a + b,
            b == 0x01 || b == 0x02 || b == 0x04 || b == 0x08 || b == 0x10 || b == 0x20 || b == 0x40
                || b == 0x80,
    ;
}

/// The flags are named from the lowest bit up, with commas between them: a further, higher
/// flag adds its name behind the others. One bit has no name.
pub proof fn law_flag_names(f: int, w: int)
    requires
        0 <= f < w,
        w == 0x01 || w == 0x02 || w == 0x04 || w == 0x08 || w == 0x10 || w == 0x20 || w == 0x40 || w
            == 0x80,
    ensures
        w == 0x10 ==> flag_names(f + w) == flag_names(f),
        w != 0x10 ==> {
            let name = if w == 0x01 {
                "RX FIFO full"@
            } else if w == 0x02 {
                "TX FIFO full"@
            } else if w == 0x04 {
                "error warning"@
            } else if w == 0x08 {
                "data overrun"@
            } else if w == 0x20 {
                "error passive"@
            } else if w == 0x40 {
                "arbitration lost"@
            } else {
                "bus error"@
            };
            flag_names(f + w) == if flag_names(f).len() == 0 {
                name
            } else {
                flag_names(f) + ", "@ + name
            }
        },
        flag_names(0).len() == 0,
{
    lemma_further_flag(f, w);
}

/// A line ends at a carriage return or a bell, of which the bell is an error; line feeds are
/// no part of it. Lines without content are passed over, and bytes without an end stay.
pub proof fn law_lines_of_bytes(line: Seq<u8>, end: u8, rest: Seq<u8>)
    requires
        end == 0x0D || end == 0x07,
        forall|i: int|
            0 <= i < line.len() ==> #[trigger] line[i] != 0x0D && line[i] != 0x07 && line[i] != 0x0A,
    ensures
        ({
            let bell: int = if end == 0x07 {
                1
            } else {
                0
            };
            let after = first_line(rest);
            &&& line.len() > 0 ==> first_line(line.push(end) + rest) == (Some(line), rest, bell)
            &&& line.len() == 0 ==> first_line(line.push(end) + rest) == (
                after.0,
                after.1,
                after.2 + bell,
            )
            &&& first_line(line) == (None::<Seq<u8>>, line, 0int)
        }),
{
    let b = line.push(end) + rest;
    let n = line.len() as int;
    assert(b[n] == end);
    assert forall|i: int| 0 <= i < n implies !is_end(#[trigger] b[i]) by {
        assert(b[i] == line[i]);
    }
    lemma_find_end(b, n);
    assert(b.take(n) =~= line);
    assert(b.skip(n + 1) =~= rest);
    lemma_no_feeds(line);
    lemma_no_end(line);
}

proof fn lemma_no_end(b: Seq<u8>)
    requires
        forall|i: int| 0 <= i < b.len() ==> !is_end(#[trigger] b[i]),
    ensures
        find_end(b) == b.len(),
    decreases b.len(),
{
    if b.len() > 0 {
        assert(!is_end(b[0]));
        let c = b.skip(1);
        assert forall|i: int| 0 <= i < c.len() implies !is_end(#[trigger] c[i]) by {
            assert(c[i] == b[i + 1]);
        }
        lemma_no_end(c);
    }
}

/// Line feeds are taken out wherever they stand, and nothing else is.
pub proof fn law_line_feeds(a: Seq<u8>, b: Seq<u8>)
    ensures
        without_feeds(a + b) == without_feeds(a) + without_feeds(b),
        a.len() == 1 ==> without_feeds(a) == if a[0] == 0x0A {
            Seq::empty()
        } else {
            a
        },
    decreases b.len(),
{
    if b.len() == 0 {
        assert(a + b =~= a);
        assert(without_feeds(a) + without_feeds(b) =~= without_feeds(a));
    } else {
        law_line_feeds(a, b.drop_last());
        assert((a + b).drop_last() =~= a + b.drop_last());
        assert(without_feeds(a + b) =~= without_feeds(a) + without_feeds(b));
    }
    if a.len() == 1 {
        assert(without_feeds(a.drop_last()) =~= Seq::empty());
        assert(without_feeds(a) =~= if a[0] == 0x0A {
            Seq::empty()
        } else {
            a
        });
    }
}

/// Lines are taken one by one: where the first one tells something that is what comes, and
/// the bytes behind it stay for the next time; otherwise the next line is looked at. Bytes
/// that make no line yet stay.
pub proof fn law_lines_in_order(line: Seq<u8>, rest: Seq<u8>, state: CtrlState, ts: Real)
    requires
        line.len() > 0,
        forall|i: int|
            0 <= i < line.len() ==> #[trigger] line[i] != 0x0D && line[i] != 0x07 && line[i] != 0x0A,
    ensures
        ({
            let (e, after) = line_event(line, state, ts);
            let all = lines_event(line.push(0x0D) + rest, state, ts);
            &&& e is Some ==> all == (e, rest, after, 0int)
            &&& e is None ==> all == lines_event(rest, after, ts)
            &&& lines_event(line, state, ts) == (None::<EventModel>, line, state, 0int)
        }),
{
    law_lines_of_bytes(line, 0x0D, rest);
    let b = line.push(0x0D) + rest;
    assert(rest.len() < b.len());
}

/// A line of flags reports no frame; a line of a frame leaves the state alone.
pub proof fn law_lines_tell_one_thing(line: Seq<u8>, state: CtrlState, ts: Real)
    ensures
        line_event(line, state, ts).0 matches Some(EventModel::Frame(f)) ==> line_event(
            line,
            state,
            ts,
        ).1 == state && f.ts == ts,
        line_event(line, state, ts).0 matches Some(EventModel::Bus(e)) ==> e.state == Some(
            line_event(line, state, ts).1,
        ),
        line_event(line, state, ts).1 != state ==> line_event(line, state, ts).0 is Some,
{
}

/// The time to wait is what is left, but no less than a millisecond; it is up once the
/// deadline has passed with nothing to read.
pub proof fn law_time_to_wait(avail: u32, now: u64, deadline: u64)
    ensures
        avail > 0 ==> step_of(avail, now, deadline) == SlcanStep::Read,
        avail == 0 && now >= deadline ==> step_of(avail, now, deadline) == SlcanStep::GiveUp,
        avail == 0 && now + 1_000_000 <= deadline ==> step_of(avail, now, deadline)
            == SlcanStep::Wait((deadline - now) as u64),
        avail == 0 && now < deadline < now + 1_000_000 ==> step_of(avail, now, deadline)
            == SlcanStep::Wait(1_000_000),
{
}

/// A bell is told as an error of the adapter, which says nothing about the controller.
pub proof fn law_bells()
    ensures
        bell_event() matches EventModel::Bus(e) && {
            &&& e.desc == "SLCAN adapter reported an error (BELL)"@
            &&& e.state is None && !e.rx_overflow && e.tec is None && e.rec is None
        },
{
}

/// The command for a bitrate is an `S`, one digit, higher for a faster one, and a carriage
/// return; the slowest has the digit 0, the fastest 8.
pub proof fn law_setup_commands(a: u32, b: u32)
    ensures
        setup_line(a) matches Some(s) ==> {
            &&& s.len() == 3 && s[0] == 'S' && '0' <= s[1] <= '8' && s[2] == '\r'
            &&& setup_line(b) matches Some(t) ==> (a < b) == (s[1] < t[1])
        },
        setup_line(10_000) == Some(seq!['S', '0', '\r']),
        setup_line(1_000_000) == Some(seq!['S', '8', '\r']),
{
    law_bitrate_codes(a, b);
}

} // verus!
