//! SocketCAN interfaces.

use socketcan::errors::ControllerProblem as Problem;
use socketcan::{CanError, CanErrorFrame};
use vstd::prelude::*;
use crate::device::{BusEvent, BusEventModel, CtrlState, DevEvent, DeviceStatus, EventModel};
use crate::msg::{data_frame, fd_len, CanMsg, Frame};
use crate::number::Real;
use crate::symbols::string_views;
use crate::text::{
    chars_of, is_text, lemma_text_asym, lemma_text_total, lemma_text_trans, text_before, text_less,
    trim, trimmed,
};

verus! {

/// `socketcan::Id`: an identifier, standard or extended.
#[verifier::external_type_specification]
#[verifier::external_body]
pub struct ExId(socketcan::Id);

/// `socketcan::CanDataFrame`: a classic frame with data.
#[verifier::external_type_specification]
#[verifier::external_body]
pub struct ExCanDataFrame(socketcan::CanDataFrame);

/// `socketcan::CanRemoteFrame`: a remote frame.
#[verifier::external_type_specification]
#[verifier::external_body]
pub struct ExCanRemoteFrame(socketcan::CanRemoteFrame);

/// `socketcan::CanFdFrame`: an FD frame.
#[verifier::external_type_specification]
#[verifier::external_body]
pub struct ExCanFdFrame(socketcan::CanFdFrame);

/// What an identifier holds: its number, and whether it is extended.
pub uninterp spec fn id_parts(id: socketcan::Id) -> (u32, bool);

/// What a frame with data holds: its identifier and its bytes.
pub uninterp spec fn data_parts(f: socketcan::CanDataFrame) -> (u32, bool, Seq<u8>);

/// What a remote frame holds: its identifier and the length that it asks for.
pub uninterp spec fn remote_parts(f: socketcan::CanRemoteFrame) -> (u32, bool, int);

/// What an FD frame holds: its identifier, its bytes and its bit rate switch.
pub uninterp spec fn fd_parts(f: socketcan::CanFdFrame) -> (u32, bool, Seq<u8>, bool);

/// `socketcan::StandardId::new`: takes numbers up to 7FF.
#[verifier::external_body]
fn standard_id(id: u16) -> (r: Option<socketcan::Id>)
    ensures
        r is Some == (id <= 0x7FF),
        r matches Some(i) ==> id_parts(i) == (id as u32, false),
{
    socketcan::StandardId::new(id).map(socketcan::Id::Standard)
}

/// `socketcan::ExtendedId::new`: takes numbers up to 1FFFFFFF.
#[verifier::external_body]
fn extended_id(id: u32) -> (r: Option<socketcan::Id>)
    ensures
        r is Some == (id <= 0x1FFF_FFFF),
        r matches Some(i) ==> id_parts(i) == (id, true),
{
    socketcan::ExtendedId::new(id).map(socketcan::Id::Extended)
}

/// `socketcan::CanDataFrame::new`: takes up to 8 bytes.
#[verifier::external_body]
fn new_data(id: socketcan::Id, data: &[u8]) -> (r: Option<socketcan::CanDataFrame>)
    ensures
        r is Some == (data@.len() <= 8),
        r matches Some(f) ==> data_parts(f) == (id_parts(id).0, id_parts(id).1, data@),
{
    <socketcan::CanDataFrame as socketcan::EmbeddedFrame>::new(id, data)
}

/// `socketcan::CanRemoteFrame::new_remote`: takes lengths up to 8.
#[verifier::external_body]
fn new_remote(id: socketcan::Id, len: usize) -> (r: Option<socketcan::CanRemoteFrame>)
    ensures
        r is Some == (len <= 8),
        r matches Some(f) ==> remote_parts(f) == (id_parts(id).0, id_parts(id).1, len as int),
{
    <socketcan::CanRemoteFrame as socketcan::EmbeddedFrame>::new_remote(id, len)
}

/// The next length that an FD frame can have, for up to 64 bytes.
pub open spec fn next_fd_len(n: int) -> int {
    if n <= 8 {
        n
    } else if n <= 12 {
        12
    } else if n <= 16 {
        16
    } else if n <= 20 {
        20
    } else if n <= 24 {
        24
    } else if n <= 32 {
        32
    } else if n <= 48 {
        48
    } else {
        64
    }
}

/// Bytes filled up with zeros to the next length that an FD frame can have.
pub open spec fn fd_padded(d: Seq<u8>) -> Seq<u8> {
    Seq::new(
        next_fd_len(d.len() as int) as nat,
        |i: int|
            if i < d.len() {
                d[i]
            } else {
                0
            },
    )
}

/// `socketcan::CanFdFrame::new`: takes up to 64 bytes and fills them up with zeros to a
/// valid length; the bit rate switch is off.
#[verifier::external_body]
fn new_fd(id: socketcan::Id, data: &[u8]) -> (r: Option<socketcan::CanFdFrame>)
    ensures
        r is Some == (data@.len() <= 64),
        r matches Some(f) ==> fd_parts(f) == (
            id_parts(id).0,
            id_parts(id).1,
            fd_padded(data@),
            false,
        ),
{
    <socketcan::CanFdFrame as socketcan::EmbeddedFrame>::new(id, data)
}

/// `socketcan::CanFdFrame::set_brs`: sets the bit rate switch and nothing else.
#[verifier::external_body]
fn set_brs(f: &mut socketcan::CanFdFrame, on: bool)
    ensures
        fd_parts(*final(f)) == (
            fd_parts(*old(f)).0,
            fd_parts(*old(f)).1,
            fd_parts(*old(f)).2,
            on,
        ),
{
    f.set_brs(on)
}

/// A frame to be written to the socket.
pub enum SocketFrame {
    Data(socketcan::CanDataFrame),
    Remote(socketcan::CanRemoteFrame),
    Fd(socketcan::CanFdFrame),
}

/// The number that a message's ID has on the bus: standard IDs are cut to 16 bits.
pub open spec fn bus_id(m: Frame) -> int {
    if m.ext {
        m.id as int
    } else {
        m.id as int % 0x1_0000
    }
}

/// Whether the ID can be sent.
pub open spec fn valid_id(m: Frame) -> bool {
    bus_id(m) <= (if m.ext {
        0x1FFF_FFFFint
    } else {
        0x7FF
    })
}

/// The identifier of a message.
pub fn sc_id(msg: &CanMsg) -> (r: Result<socketcan::Id, String>)
    ensures
        match r {
            Ok(i) => valid_id(msg@) && id_parts(i) == (bus_id(msg@) as u32, msg.ext),
            Err(e) => !valid_id(msg@) && e@ == "bad id"@,
        },
{
    let id = if msg.ext {
        extended_id(msg.id)
    } else {
        standard_id((msg.id % 0x1_0000) as u16)
    };
    match id {
        Some(i) => Ok(i),
        None => Err("bad id".to_string()),
    }
}

/// Why a message cannot be sent.
pub open spec fn send_error(m: Frame) -> Option<Seq<char>> {
    if !valid_id(m) {
        Some("bad id"@)
    } else if m.fd {
        None
    } else if m.rtr && m.len > 8 {
        Some("invalid RTR"@)
    } else if !m.rtr && m.len > 8 {
        Some("invalid frame"@)
    } else {
        None
    }
}

/// What is written to the socket for a message.
pub open spec fn is_frame_for(f: SocketFrame, m: Frame) -> bool {
    let id = bus_id(m) as u32;
    let d = m.data.take(m.len);
    if m.fd {
        f matches SocketFrame::Fd(x) && fd_parts(x) == (id, m.ext, fd_padded(d), m.brs)
    } else if m.rtr {
        f matches SocketFrame::Remote(x) && remote_parts(x) == (id, m.ext, m.len)
    } else {
        f matches SocketFrame::Data(x) && data_parts(x) == (id, m.ext, d)
    }
}

/// The frame to be written to the socket for a message.
pub fn to_frame(msg: &CanMsg) -> (r: Result<SocketFrame, String>)
    requires
        msg.wf(),
    ensures
        match r {
            Ok(f) => send_error(msg@) is None && is_frame_for(f, msg@),
            Err(e) => send_error(msg@) == Some(e@),
        },
{
    let id = match sc_id(msg) {
        Ok(i) => i,
        Err(e) => {
            return Err(e);
        },
    };
    if msg.fd {
        match new_fd(id, msg.data()) {
            Some(f) => {
                let mut f = f;
                set_brs(&mut f, msg.brs);
                Ok(SocketFrame::Fd(f))
            },
            None => Err("invalid FD frame".to_string()),
        }
    } else if msg.rtr {
        match new_remote(id, msg.len as usize) {
            Some(f) => Ok(SocketFrame::Remote(f)),
            None => Err("invalid RTR".to_string()),
        }
    } else {
        match new_data(id, msg.data()) {
            Some(f) => Ok(SocketFrame::Data(f)),
            None => Err("invalid frame".to_string()),
        }
    }
}

/// Errors that the socket reports, as far as they are told apart.
#[derive(Debug, Clone, Copy, PartialEq, Eq, Structural)]
pub enum SocketError {
    BusOff,
    Restarted,
    RxBufferOverflow,
    TxBufferOverflow,
    RxErrorWarning,
    TxErrorWarning,
    RxErrorPassive,
    TxErrorPassive,
    Active,
    Other,
}

/// What was read from the socket.
pub enum SocketEvent {
    Data { id: u32, ext: bool, data: Vec<u8> },
    Remote { id: u32, ext: bool, len: u8 },
    Fd { id: u32, ext: bool, data: Vec<u8>, brs: bool },
    Error { bits: u32, bytes: [u8; 8] },
}

/// The error that an error frame reports: its class bits tell the kind of error, and for
/// a problem of the controller the second byte tells which; missing bytes are zero.
pub open spec fn error_kind(bits: u32, data: Seq<u8>) -> SocketError {
    let class = bits % 0x2000_0000;
    let problem = if data.len() > 1 {
        data[1]
    } else {
        0
    };
    if class == 0x40 {
        SocketError::BusOff
    } else if class == 0x100 {
        SocketError::Restarted
    } else if class != 0x04 {
        SocketError::Other
    } else if problem == 0x01 {
        SocketError::RxBufferOverflow
    } else if problem == 0x02 {
        SocketError::TxBufferOverflow
    } else if problem == 0x04 {
        SocketError::RxErrorWarning
    } else if problem == 0x08 {
        SocketError::TxErrorWarning
    } else if problem == 0x10 {
        SocketError::RxErrorPassive
    } else if problem == 0x20 {
        SocketError::TxErrorPassive
    } else if problem == 0x40 {
        SocketError::Active
    } else {
        SocketError::Other
    }
}

/// The text of the error that an error frame reports.
pub uninterp spec fn error_text(bits: u32, data: Seq<u8>) -> Seq<char>;

/// `socketcan::CanErrorFrame::into_error`, on the frame that `new_error` makes of class
/// bits and up to 8 bytes: which error it is, by its class and by the controller's
/// problem, and its text. How the text reads is left unsaid.
#[verifier::external_body]
fn frame_error(bits: u32, data: &[u8]) -> (r: Option<(SocketError, String)>)
    ensures
        r is Some == (data@.len() <= 8),
        r matches Some(e) ==> e.0 == error_kind(bits, data@) && e.1@ == error_text(bits, data@),
{
    let err = CanErrorFrame::new_error(bits, data).ok()?.into_error();
    let kind = match err {
        CanError::BusOff => SocketError::BusOff,
        CanError::Restarted => SocketError::Restarted,
        CanError::ControllerProblem(Problem::ReceiveBufferOverflow) => SocketError::RxBufferOverflow,
        CanError::ControllerProblem(Problem::TransmitBufferOverflow) => SocketError::TxBufferOverflow,
        CanError::ControllerProblem(Problem::ReceiveErrorWarning) => SocketError::RxErrorWarning,
        CanError::ControllerProblem(Problem::TransmitErrorWarning) => SocketError::TxErrorWarning,
        CanError::ControllerProblem(Problem::ReceiveErrorPassive) => SocketError::RxErrorPassive,
        CanError::ControllerProblem(Problem::TransmitErrorPassive) => SocketError::TxErrorPassive,
        CanError::ControllerProblem(Problem::Active) => SocketError::Active,
        _ => SocketError::Other,
    };
    Some((kind, err.to_string()))
}

/// The state that an error stands for.
pub open spec fn error_state(e: SocketError) -> Option<CtrlState> {
    match e {
        SocketError::BusOff => Some(CtrlState::BusOff),
        SocketError::Restarted => Some(CtrlState::ErrorActive),
        SocketError::RxErrorWarning => Some(CtrlState::Warning),
        SocketError::TxErrorWarning => Some(CtrlState::Warning),
        SocketError::RxErrorPassive => Some(CtrlState::ErrorPassive),
        SocketError::TxErrorPassive => Some(CtrlState::ErrorPassive),
        SocketError::Active => Some(CtrlState::ErrorActive),
        SocketError::RxBufferOverflow => None,
        SocketError::TxBufferOverflow => None,
        SocketError::Other => None,
    }
}

/// Whether an error frame tells the error counters.
pub open spec fn has_counters(bits: u32) -> bool {
    (bits / 0x200) % 2 == 1
}

/// The event for an error with the given text, in a frame with the given bits and data.
pub open spec fn error_event_of(
    error: SocketError,
    text: Seq<char>,
    bits: u32,
    data: Seq<u8>,
) -> BusEventModel {
    BusEventModel {
        desc: text,
        state: error_state(error),
        rx_overflow: error == SocketError::RxBufferOverflow || error
            == SocketError::TxBufferOverflow,
        tec: if has_counters(bits) {
            Some(data[6])
        } else {
            None
        },
        rec: if has_counters(bits) {
            Some(data[7])
        } else {
            None
        },
    }
}

/// The event for what was read.
pub open spec fn event_of(e: SocketEvent, ts: Real) -> EventModel {
    match e {
        SocketEvent::Data { id, ext, data } => EventModel::Frame(data_frame(ts, id, ext, data@)),
        SocketEvent::Remote { id, ext, len } => EventModel::Frame(
            Frame { rtr: true, len: len as int, ..data_frame(ts, id, ext, Seq::empty()) },
        ),
        SocketEvent::Fd { id, ext, data, brs } => EventModel::Frame(
            Frame { fd: true, brs, ..data_frame(ts, id, ext, data@) },
        ),
        SocketEvent::Error { bits, bytes } => EventModel::Bus(
            error_event_of(error_kind(bits, bytes@), error_text(bits, bytes@), bits, bytes@),
        ),
    }
}

/// The status after an event: what the event tells replaces what was known.
pub open spec fn status_after(s: DeviceStatus, e: EventModel) -> DeviceStatus {
    match e {
        EventModel::Frame(_) => s,
        EventModel::Bus(b) => DeviceStatus {
            state: match b.state {
                Some(x) => x,
                None => s.state,
            },
            tec: match b.tec {
                Some(x) => Some(x),
                None => s.tec,
            },
            rec: match b.rec {
                Some(x) => Some(x),
                None => s.rec,
            },
        },
    }
}

/// What an error means for the bus; the text is the error's own.
pub fn error_event(error: SocketError, text: String, bits: u32, data: &[u8; 8]) -> (r: BusEvent)
    ensures
        r@ == error_event_of(error, text@, bits, data@),
{
    let mut ev = BusEvent::new(text);
    match error {
        SocketError::BusOff => {
            ev.state = Some(CtrlState::BusOff);
        },
        SocketError::Restarted => {
            ev.state = Some(CtrlState::ErrorActive);
        },
        SocketError::RxBufferOverflow | SocketError::TxBufferOverflow => {
            ev.rx_overflow = true;
        },
        SocketError::RxErrorWarning | SocketError::TxErrorWarning => {
            ev.state = Some(CtrlState::Warning);
        },
        SocketError::RxErrorPassive | SocketError::TxErrorPassive => {
            ev.state = Some(CtrlState::ErrorPassive);
        },
        SocketError::Active => {
            ev.state = Some(CtrlState::ErrorActive);
        },
        SocketError::Other => {},
    }
    if (bits / 0x200) % 2 == 1 {
        ev.tec = Some(data[6]);
        ev.rec = Some(data[7]);
    }
    ev
}

/// Whether a network device of the given type, as `/sys/class/net` tells it, is a CAN
/// interface.
pub fn is_can_type(text: &str) -> (r: bool)
    ensures
        r == (trimmed(text@) == "280"@),
{
    let all = chars_of(text);
    is_text(trim(all.as_slice()), "280")
}

/// The contents of network devices, each with its name and type.
pub open spec fn device_views(v: Seq<(String, String)>) -> Seq<(Seq<char>, Seq<char>)> {
    Seq::new(v.len(), |i: int| (v[i].0@, v[i].1@))
}

/// The names of those network devices that are CAN interfaces.
pub open spec fn can_names(v: Seq<(Seq<char>, Seq<char>)>) -> Seq<Seq<char>>
    decreases v.len(),
{
    if v.len() == 0 {
        Seq::empty()
    } else if trimmed(v.last().1) == "280"@ {
        can_names(v.drop_last()).push(v.last().0)
    } else {
        can_names(v.drop_last())
    }
}

/// Whether no text stands behind one that it comes before.
pub open spec fn texts_sorted(v: Seq<Seq<char>>) -> bool {
    forall|i: int, j: int|
        #![trigger v[i], v[j]]
        0 <= i < j < v.len() ==> !text_before(v[j], v[i])
}

/// Adds a name to a sorted list.
fn put_name(v: &mut Vec<String>, name: &String)
    requires
        texts_sorted(string_views(old(v)@)),
    ensures
        texts_sorted(string_views(final(v)@)),
        string_views(final(v)@).to_multiset() == string_views(old(v)@).to_multiset().insert(name@),
{
    let ghost o = string_views(v@);
    let ghost m = name@;
    let c = chars_of(name.as_str());
    let n: usize = v.len();
    let mut p: usize = n;
    while p > 0
        invariant
            n == v@.len(),
            o == string_views(v@),
            m == name@,
            c@ == m,
            p <= n,
            forall|i: int| p <= i < n ==> text_before(m, #[trigger] o[i]),
        ensures
            p > 0 ==> !text_before(m, o[p - 1]),
        decreases p,
    {
        let d = chars_of(v[p - 1].as_str());
        assert(o[p - 1] == d@);
        if !text_less(c.as_slice(), d.as_slice()) {
            break;
        }
        p = p - 1;
    }
    v.insert(p, name.clone());
    proof {
        let q = string_views(v@);
        assert(q =~= o.insert(p as int, m));
        vstd::seq_lib::to_multiset_insert(o, p as int, m);
        assert forall|i: int, j: int|
            #![trigger q[i], q[j]]
            0 <= i < j < q.len() implies !text_before(q[j], q[i]) by {
            if i == p {
                assert(q[j] == o[j - 1]);
                lemma_text_asym(m, o[j - 1]);
            } else if j == p {
                assert(q[i] == o[i]);
                if text_before(m, o[i]) && i < p - 1 {
                    assert(!text_before(o[p - 1], o[i]));
                    lemma_text_total(o[i], o[p - 1]);
                    if o[i] != o[p - 1] {
                        lemma_text_trans(m, o[i], o[p - 1]);
                    }
                }
            } else {
                let a = if i < p {
                    i
                } else {
                    i - 1
                };
                let b = if j < p {
                    j
                } else {
                    j - 1
                };
                assert(q[i] == o[a] && q[j] == o[b]);
            }
        }
    }
}

/// The names of the CAN interfaces, sorted, out of the network devices that were found; each
/// is given with its type.
pub fn socketcan_interfaces(found: &Vec<(String, String)>) -> (r: Vec<String>)
    ensures
        string_views(r@).to_multiset() == can_names(device_views(found@)).to_multiset(),
        texts_sorted(string_views(r@)),
{
    let mut out: Vec<String> = Vec::new();
    let mut i: usize = 0;
    let ghost all = device_views(found@);
    assert(string_views(out@) =~= can_names(all.take(0)));
    while i < found.len()
        invariant
            i <= found@.len(),
            all == device_views(found@),
            string_views(out@).to_multiset() == can_names(all.take(i as int)).to_multiset(),
            texts_sorted(string_views(out@)),
        decreases found@.len() - i,
    {
        proof {
            let t = all.take(i + 1);
            assert(t.drop_last() =~= all.take(i as int));
            assert(t.last() == (found@[i as int].0@, found@[i as int].1@));
            vstd::seq_lib::to_multiset_build(can_names(all.take(i as int)), t.last().0);
        }
        if is_can_type(found[i].1.as_str()) {
            put_name(&mut out, &found[i].0);
        }
        i = i + 1;
    }
    assert(all.take(i as int) =~= all);
    out
}

/// A SocketCAN interface, as far as the socket is left aside.
pub struct SocketCanDevice {
    pub name: String,
    pub status: DeviceStatus,
}

impl SocketCanDevice {
    /// An interface that was just opened.
    pub fn new(name: &str) -> (r: Self)
        ensures
            r.name@ == name@,
            r.status == (DeviceStatus { state: CtrlState::ErrorActive, tec: None, rec: None }),
    {
        SocketCanDevice {
            name: name.to_string(),
            status: DeviceStatus { state: CtrlState::ErrorActive, tec: None, rec: None },
        }
    }

    /// Takes in what was read from the socket.
    pub fn receive(&mut self, e: SocketEvent, ts: Real) -> (r: DevEvent)
        requires
            e matches SocketEvent::Remote { len, .. } ==> len <= 64,
        ensures
            r.wf(),
            r@ == event_of(e, ts),
            final(self).status == status_after(old(self).status, event_of(e, ts)),
            final(self).name == old(self).name,
    {
        match e {
            SocketEvent::Data { id, ext, data } => DevEvent::Frame(
                CanMsg::new(ts, id, ext, data.as_slice()),
            ),
            SocketEvent::Remote { id, ext, len } => {
                let none: Vec<u8> = Vec::new();
                assert(none@ =~= Seq::<u8>::empty());
                let mut m = CanMsg::new(ts, id, ext, none.as_slice());
                m.rtr = true;
                m.len = len;
                DevEvent::Frame(m)
            },
            SocketEvent::Fd { id, ext, data, brs } => {
                let mut m = CanMsg::new(ts, id, ext, data.as_slice());
                m.fd = true;
                m.brs = brs;
                DevEvent::Frame(m)
            },
            SocketEvent::Error { bits, bytes } => {
                let (error, text) = match frame_error(bits, bytes.as_slice()) {
                    Some(e) => e,
                    None => vstd::pervasive::unreached(),
                };
                let ev = error_event(error, text, bits, &bytes);
                if (bits / 0x200) % 2 == 1 {
                    self.status.tec = ev.tec;
                    self.status.rec = ev.rec;
                }
                match ev.state {
                    Some(s) => {
                        self.status.state = s;
                    },
                    None => {},
                }
                DevEvent::Bus(ev)
            },
        }
    }

    /// The state of the interface's controller.
    pub fn status(&self) -> (r: DeviceStatus)
        ensures
            r == self.status,
    {
        self.status
    }
}

/// A CAN FD frame takes the next length that there is, and no more than that.
pub proof fn law_next_length(n: int, k: int)
    requires
        0 <= n <= 64,
    ensures
        fd_len(next_fd_len(n)) && next_fd_len(n) >= n,
        fd_len(n) ==> next_fd_len(n) == n,
        fd_len(k) && k >= n ==> next_fd_len(n) <= k,
{
}

/// The bytes of a CAN FD frame stay, with zeros behind them up to the next length.
pub proof fn law_padding(d: Seq<u8>, i: int)
    requires
        d.len() <= 64,
    ensures
        fd_len(fd_padded(d).len() as int),
        fd_len(d.len() as int) ==> fd_padded(d) == d,
        0 <= i < d.len() ==> fd_padded(d)[i] == d[i],
        d.len() <= i < fd_padded(d).len() ==> fd_padded(d)[i] == 0,
{
    law_next_length(d.len() as int, 64);
    if fd_len(d.len() as int) {
        assert(fd_padded(d) =~= d);
    }
}

/// The ID on the bus is the ID of the frame where it fits in the 16 bits that a standard ID
/// is handed over in; of a wider one the low bits count. Extended IDs stay as they are. What
/// is above 11 or 29 bits is refused.
pub proof fn law_ids_on_the_bus(m: Frame)
    ensures
        m.ext ==> bus_id(m) == m.id && valid_id(m) == (m.id < 0x2000_0000),
        !m.ext && m.id <= 0xFFFF ==> bus_id(m) == m.id && valid_id(m) == (m.id < 0x800),
        !m.ext ==> 0 <= bus_id(m) <= 0xFFFF && (m.id - bus_id(m)) % 0x1_0000 == 0,
        !m.ext ==> valid_id(m) == (bus_id(m) < 0x800),
{
}

/// Frames with a valid ID are sent where they have up to 8 bytes or are CAN FD frames, and no
/// others.
pub proof fn law_frames_sent(m: Frame)
    ensures
        send_error(m) is None == (valid_id(m) && (m.fd || m.len <= 8)),
        !valid_id(m) ==> send_error(m) == Some("bad id"@),
        valid_id(m) && !m.fd && m.len > 8 ==> send_error(m) == Some(
            if m.rtr {
                "invalid RTR"@
            } else {
                "invalid frame"@
            },
        ),
{
}

/// A frame is sent as what it is: as a CAN FD frame, a remote frame or a data frame, with its
/// ID and format, and its bytes or its length.
pub proof fn law_kinds_of_frames(f: SocketFrame, m: Frame)
    requires
        is_frame_for(f, m),
        m.ext || m.id <= 0xFFFF,
    ensures
        (f is Fd) == m.fd,
        (f is Remote) == (!m.fd && m.rtr),
        (f is Data) == (!m.fd && !m.rtr),
        f matches SocketFrame::Fd(x) ==> {
            &&& fd_parts(x).0 == m.id && fd_parts(x).1 == m.ext && fd_parts(x).3 == m.brs
            &&& fd_parts(x).2 == fd_padded(m.data.take(m.len))
        },
        f matches SocketFrame::Remote(x) ==> remote_parts(x) == (m.id, m.ext, m.len),
        f matches SocketFrame::Data(x) ==> data_parts(x) == (m.id, m.ext, m.data.take(m.len)),
{
}

/// What an error frame says about the controller. Bus-off and the restart after it have bits
/// of their own; of a controller problem the second byte says which: a full buffer means lost
/// frames, the warning and passive levels and the return to active change the state. The upper
/// three bits, which mark the frame, mean nothing here.
pub proof fn law_error_frames(bits: u32, d: Seq<u8>, text: Seq<char>)
    requires
        d.len() == 8,
    ensures
        ({
            let e = error_event_of(error_kind(bits, d), text, bits, d);
            let class = bits & 0x1FFF_FFFF;
            let controller = class == 0x04;
            &&& e.desc == text
            &&& class == 0x40 ==> e.state == Some(CtrlState::BusOff)
            &&& class == 0x100 ==> e.state == Some(CtrlState::ErrorActive)
            &&& controller && (d[1] == 0x04 || d[1] == 0x08) ==> e.state == Some(CtrlState::Warning)
            &&& controller && (d[1] == 0x10 || d[1] == 0x20) ==> e.state == Some(
                CtrlState::ErrorPassive,
            )
            &&& controller && d[1] == 0x40 ==> e.state == Some(CtrlState::ErrorActive)
            &&& e.state is Some ==> class == 0x40 || class == 0x100 || controller && (d[1] == 0x04
                || d[1] == 0x08 || d[1] == 0x10 || d[1] == 0x20 || d[1] == 0x40)
            &&& e.rx_overflow == (controller && (d[1] == 0x01 || d[1] == 0x02))
            &&& bits & 0x200 != 0 ==> e.tec == Some(d[6]) && e.rec == Some(d[7])
            &&& bits & 0x200 == 0 ==> e.tec is None && e.rec is None
        }),
{
    assert(bits % 0x2000_0000 == bits & 0x1FFF_FFFF) by (bit_vector);
    assert(((bits / 0x200) % 2 == 1) == (bits & 0x200 != 0)) by (bit_vector);
}

/// What was received comes out as it came in: the bytes of a data frame, the length of a
/// remote frame, the bit for the faster data phase of a CAN FD frame.
pub proof fn law_received_frames(e: SocketEvent, ts: Real)
    ensures
        e matches SocketEvent::Data { id, ext, data } ==> (data@.len() <= 64 ==> (event_of(e, ts)
            matches EventModel::Frame(f) && {
            &&& f.ts == ts && f.id == id && f.ext == ext && !f.rtr && f.fd == (data@.len() > 8)
            &&& f.len == data@.len() && f.data.take(f.len) == data@
        })),
        e matches SocketEvent::Remote { id, ext, len } ==> (event_of(e, ts) matches EventModel::Frame(f)
            && f.ts == ts && f.id == id && f.ext == ext && f.rtr && !f.fd && f.len == len),
        e matches SocketEvent::Fd { id, ext, data, brs } ==> (data@.len() <= 64 ==> (event_of(e, ts)
            matches EventModel::Frame(f) && {
            &&& f.ts == ts && f.id == id && f.ext == ext && !f.rtr && f.fd && f.brs == brs
            &&& f.len == data@.len() && f.data.take(f.len) == data@
        })),
        (e is Error) == (event_of(e, ts) is Bus),
{
    match e {
        SocketEvent::Data { id, ext, data } => {
            if data@.len() <= 64 {
                let f = data_frame(ts, id, ext, data@);
                assert(f.data.take(f.len) =~= data@);
            }
        },
        SocketEvent::Fd { id, ext, data, brs } => {
            if data@.len() <= 64 {
                let f = data_frame(ts, id, ext, data@);
                assert(f.data.take(f.len) =~= data@);
            }
        },
        _ => {},
    }
}

/// Frames leave the status alone. An error sets what it tells, and what it does not tell
/// stays.
pub proof fn law_status_follows_errors(s: DeviceStatus, e: EventModel)
    ensures
        e is Frame ==> status_after(s, e) == s,
        e matches EventModel::Bus(b) ==> {
            let t = status_after(s, e);
            &&& b.state is Some ==> b.state == Some(t.state)
            &&& b.state is None ==> t.state == s.state
            &&& b.tec is Some ==> t.tec == b.tec
            &&& b.tec is None ==> t.tec == s.tec
            &&& b.rec is Some ==> t.rec == b.rec
            &&& b.rec is None ==> t.rec == s.rec
        },
        status_after(status_after(s, e), e) == status_after(s, e),
{
}

/// Of the interfaces found, each CAN interface is named, and no other.
pub proof fn law_can_interfaces(a: Seq<(Seq<char>, Seq<char>)>, b: Seq<(Seq<char>, Seq<char>)>)
    ensures
        can_names(a + b) == can_names(a) + can_names(b),
        a.len() == 1 && trimmed(a[0].1) == "280"@ ==> can_names(a) == seq![a[0].0],
        a.len() == 1 && trimmed(a[0].1) != "280"@ ==> can_names(a).len() == 0,
    decreases b.len(),
{
    if b.len() == 0 {
        assert(a + b =~= a);
        assert(can_names(a) + can_names(b) =~= can_names(a));
    } else {
        law_can_interfaces(a, b.drop_last());
        assert((a + b).drop_last() =~= a + b.drop_last());
        assert(can_names(a + b) =~= can_names(a) + can_names(b));
    }
    if a.len() == 1 {
        assert(can_names(a.drop_last()) =~= Seq::empty());
        if trimmed(a[0].1) == "280"@ {
            assert(can_names(a) =~= seq![a[0].0]);
        }
    }
}

} // verus!
