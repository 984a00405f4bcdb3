//! Interfaces behind the `can-hal` traits (PCAN, Kvaser).

use vstd::arithmetic::power2::pow2;
use vstd::prelude::*;
use crate::device::{CtrlState, DeviceStatus};
use crate::msg::{data_frame, fd_len, CanMsg, Dir, Frame};
use crate::number::{
    decimal, digit_char, digits, format_uint, lemma_digit_char, lemma_scan_digits, parsed,
    put_decimal, IntError, Real,
};
use crate::text::{put, put_chars, string_of};

verus! {

/// `can_hal::CanId`: an identifier, standard or extended.
#[verifier::external_type_specification]
#[verifier::external_body]
pub struct ExCanId(can_hal::CanId);

/// `can_hal::CanFrame`: a classic frame.
#[verifier::external_type_specification]
#[verifier::external_body]
pub struct ExCanFrame(can_hal::CanFrame);

/// `can_hal::CanFdFrame`: an FD frame.
#[verifier::external_type_specification]
#[verifier::external_body]
pub struct ExCanFdFrame(can_hal::CanFdFrame);

/// What an identifier holds: its number, and whether it is extended.
pub uninterp spec fn id_parts(id: can_hal::CanId) -> (u32, bool);

/// What a classic frame holds: its identifier and its bytes.
pub uninterp spec fn frame_parts(f: can_hal::CanFrame) -> (u32, bool, Seq<u8>);

/// What an FD frame holds: its identifier, its bytes, bit rate switch and error state.
pub uninterp spec fn fd_parts(f: can_hal::CanFdFrame) -> (u32, bool, Seq<u8>, bool, bool);

/// `can_hal::CanId::new_standard`: takes numbers up to 7FF.
#[verifier::external_body]
fn new_standard(id: u16) -> (r: Option<can_hal::CanId>)
    ensures
        r is Some == (id <= 0x7FF),
        r matches Some(i) ==> id_parts(i) == (id as u32, false),
{
    can_hal::CanId::new_standard(id)
}

/// `can_hal::CanId::new_extended`: takes numbers up to 1FFFFFFF.
#[verifier::external_body]
fn new_extended(id: u32) -> (r: Option<can_hal::CanId>)
    ensures
        r is Some == (id <= 0x1FFF_FFFF),
        r matches Some(i) ==> id_parts(i) == (id, true),
{
    can_hal::CanId::new_extended(id)
}

/// `can_hal::CanId::raw`: the number.
#[verifier::external_body]
fn raw(id: &can_hal::CanId) -> (r: u32)
    ensures
        r == id_parts(*id).0,
{
    id.raw()
}

/// `can_hal::CanId::is_extended`: whether the identifier is extended.
#[verifier::external_body]
fn is_extended(id: &can_hal::CanId) -> (r: bool)
    ensures
        r == id_parts(*id).1,
{
    id.is_extended()
}

/// `can_hal::CanFrame::new`: takes up to 8 bytes.
#[verifier::external_body]
fn new_frame(id: can_hal::CanId, data: &[u8]) -> (r: Option<can_hal::CanFrame>)
    ensures
        r is Some == (data@.len() <= 8),
        r matches Some(f) ==> frame_parts(f) == (id_parts(id).0, id_parts(id).1, data@),
{
    can_hal::CanFrame::new(id, data)
}

/// `can_hal::CanFdFrame::new`: takes the lengths that an FD frame can have.
#[verifier::external_body]
fn new_fd_frame(id: can_hal::CanId, data: &[u8], brs: bool, esi: bool) -> (r: Option<
    can_hal::CanFdFrame,
>)
    ensures
        r is Some == fd_len(data@.len() as int),
        r matches Some(f) ==> fd_parts(f) == (id_parts(id).0, id_parts(id).1, data@, brs, esi),
{
    can_hal::CanFdFrame::new(id, data, brs, esi)
}

/// IDs that can be sent.
pub open spec fn valid_id(id: u32, ext: bool) -> bool {
    if ext {
        id <= 0x1FFF_FFFF
    } else {
        id <= 0x7FF
    }
}

/// The message about an ID that cannot be sent.
pub open spec fn invalid_id(id: u32) -> Seq<char> {
    "invalid CAN id "@ + digits(id as int, 16)
}

/// The identifier of a message.
pub fn hal_id(msg: &CanMsg) -> (r: Result<can_hal::CanId, String>)
    ensures
        match r {
            Ok(i) => valid_id(msg.id, msg.ext) && id_parts(i) == (msg.id, msg.ext),
            Err(e) => !valid_id(msg.id, msg.ext) && e@ == invalid_id(msg.id),
        },
{
    let id = if msg.ext {
        new_extended(msg.id)
    } else if msg.id <= 0xFFFF {
        new_standard(msg.id as u16)
    } else {
        None
    };
    match id {
        Some(i) => Ok(i),
        None => {
            let mut out: Vec<char> = Vec::new();
            put(&mut out, "invalid CAN id ");
            let id = format_uint(msg.id as u64, 16);
            put_chars(&mut out, id.as_slice());
            assert(out@ =~= invalid_id(msg.id));
            Err(string_of(out.as_slice()))
        },
    }
}

/// Why a message cannot be sent on a classic channel.
pub open spec fn classic_error(m: Frame) -> Option<Seq<char>> {
    if m.rtr {
        Some("remote frames are not supported by this backend"@)
    } else if m.fd {
        Some("CAN FD frame on a classic channel (enable FD when connecting)"@)
    } else if !valid_id(m.id, m.ext) {
        Some(invalid_id(m.id))
    } else if m.len > 8 {
        Some("invalid classic frame"@)
    } else {
        None
    }
}

/// The classic frame for a message.
pub fn to_classic(msg: &CanMsg) -> (r: Result<can_hal::CanFrame, String>)
    requires
        msg.wf(),
    ensures
        match r {
            Ok(f) => classic_error(msg@) is None && frame_parts(f) == (
                msg.id,
                msg.ext,
                msg.payload(),
            ),
            Err(e) => classic_error(msg@) == Some(e@),
        },
{
    if msg.rtr {
        return Err("remote frames are not supported by this backend".to_string());
    }
    if msg.fd {
        return Err("CAN FD frame on a classic channel (enable FD when connecting)".to_string());
    }
    let id = match hal_id(msg) {
        Ok(i) => i,
        Err(e) => {
            return Err(e);
        },
    };
    match new_frame(id, msg.data()) {
        Some(f) => Ok(f),
        None => Err("invalid classic frame".to_string()),
    }
}

/// Why a message cannot be sent on an FD channel.
pub open spec fn fd_error(m: Frame) -> Option<Seq<char>> {
    if m.rtr {
        Some("remote frames are not supported by this backend"@)
    } else if !valid_id(m.id, m.ext) {
        Some(invalid_id(m.id))
    } else if !fd_len(m.len) {
        Some("invalid FD length "@ + decimal(m.len))
    } else {
        None
    }
}

/// The FD frame for a message. FD channels send FD frames only; classic payloads go out
/// as FD frames without bit rate switch.
pub fn to_fd(msg: &CanMsg) -> (r: Result<can_hal::CanFdFrame, String>)
    requires
        msg.wf(),
    ensures
        match r {
            Ok(f) => fd_error(msg@) is None && fd_parts(f) == (
                msg.id,
                msg.ext,
                msg.payload(),
                msg.brs,
                false,
            ),
            Err(e) => fd_error(msg@) == Some(e@),
        },
{
    if msg.rtr {
        return Err("remote frames are not supported by this backend".to_string());
    }
    let id = match hal_id(msg) {
        Ok(i) => i,
        Err(e) => {
            return Err(e);
        },
    };
    match new_fd_frame(id, msg.data(), msg.brs, false) {
        Some(f) => Ok(f),
        None => {
            let mut out: Vec<char> = Vec::new();
            put(&mut out, "invalid FD length ");
            put_decimal(&mut out, msg.len as u64);
            assert(out@ =~= "invalid FD length "@ + decimal(msg.len as int));
            Err(string_of(out.as_slice()))
        },
    }
}

/// A frame that was received.
pub open spec fn received_frame(
    ts: Real,
    id: (u32, bool),
    data: Seq<u8>,
    fd: bool,
    brs: bool,
) -> Frame {
    Frame { fd, brs, ..data_frame(ts, id.0, id.1, data) }
}

/// A received frame as a message.
pub fn from_parts(ts: Real, id: &can_hal::CanId, data: &[u8], fd: bool, brs: bool) -> (r: CanMsg)
    ensures
        r.wf(),
        r@ == (Frame { fd, brs, ..data_frame(ts, id_parts(*id).0, id_parts(*id).1, data@) }),
        r@ == received_frame(ts, id_parts(*id), data@, fd, brs),
{
    let mut m = CanMsg::new(ts, raw(id), is_extended(id), data);
    m.fd = fd;
    m.brs = brs;
    m
}

/// The state with error counters: an active controller with a counter from 96 on is at
/// the warning level.
pub open spec fn refined(state: CtrlState, counters: Option<(u8, u8)>) -> DeviceStatus {
    match counters {
        Some((t, r)) => DeviceStatus {
            state: if state == CtrlState::ErrorActive && (t >= 96 || r >= 96) {
                CtrlState::Warning
            } else {
                state
            },
            tec: Some(t),
            rec: Some(r),
        },
        None => DeviceStatus { state, tec: None, rec: None },
    }
}

/// The status of a controller from its bus state and its transmit and receive error
/// counters, where it tells them.
pub fn map_status(state: CtrlState, counters: Option<(u8, u8)>) -> (r: DeviceStatus)
    ensures
        r == refined(state, counters),
{
    match counters {
        Some((t, c)) => {
            let s = if state == CtrlState::ErrorActive && (t >= 96 || c >= 96) {
                CtrlState::Warning
            } else {
                state
            };
            DeviceStatus { state: s, tec: Some(t), rec: Some(c) }
        },
        None => DeviceStatus { state, tec: None, rec: None },
    }
}

/// A classic channel.
pub struct Classic<C> {
    pub ch: C,
    pub name: String,
}

impl<C> Classic<C> {
    /// Interface name for log files.
    pub fn log_name(&self) -> (r: String)
        ensures
            r@ == self.name@,
    {
        self.name.clone()
    }
}

/// An FD channel.
pub struct Fd<C> {
    pub ch: C,
    pub name: String,
}

impl<C> Fd<C> {
    /// Interface name for log files.
    pub fn log_name(&self) -> (r: String)
        ensures
            r@ == self.name@,
    {
        self.name.clone()
    }
}

/// The classic bitrates that PCAN knows.
#[derive(Debug, Clone, Copy, PartialEq, Eq, Structural)]
pub enum PcanBitrate {
    Br1M,
    Br800K,
    Br500K,
    Br250K,
    Br125K,
    Br100K,
    Br50K,
    Br20K,
    Br10K,
    Br5K,
}

/// Bits per second of a PCAN bitrate.
pub open spec fn pcan_bits(b: PcanBitrate) -> u32 {
    match b {
        PcanBitrate::Br1M => 1_000_000,
        PcanBitrate::Br800K => 800_000,
        PcanBitrate::Br500K => 500_000,
        PcanBitrate::Br250K => 250_000,
        PcanBitrate::Br125K => 125_000,
        PcanBitrate::Br100K => 100_000,
        PcanBitrate::Br50K => 50_000,
        PcanBitrate::Br20K => 20_000,
        PcanBitrate::Br10K => 10_000,
        PcanBitrate::Br5K => 5_000,
    }
}

/// The PCAN bitrate for bits per second.
pub fn pcan_bitrate(bitrate: u32) -> (r: Result<PcanBitrate, String>)
    ensures
        match r {
            Ok(b) => pcan_bits(b) == bitrate,
            Err(e) => (forall|b: PcanBitrate| #[trigger] pcan_bits(b) != bitrate) && e@
                == "PCAN does not support classic bitrate "@ + decimal(bitrate as int),
        },
{
    match bitrate {
        1_000_000 => Ok(PcanBitrate::Br1M),
        800_000 => Ok(PcanBitrate::Br800K),
        500_000 => Ok(PcanBitrate::Br500K),
        250_000 => Ok(PcanBitrate::Br250K),
        125_000 => Ok(PcanBitrate::Br125K),
        100_000 => Ok(PcanBitrate::Br100K),
        50_000 => Ok(PcanBitrate::Br50K),
        20_000 => Ok(PcanBitrate::Br20K),
        10_000 => Ok(PcanBitrate::Br10K),
        5_000 => Ok(PcanBitrate::Br5K),
        _ => {
            let mut out: Vec<char> = Vec::new();
            put(&mut out, "PCAN does not support classic bitrate ");
            put_decimal(&mut out, bitrate as u64);
            assert(out@ =~= "PCAN does not support classic bitrate "@ + decimal(bitrate as int));
            Err(string_of(out.as_slice()))
        },
    }
}

/// An ID is valid where it fits in 11 bits, or in 29 bits for an extended one; what is said
/// about any other names it in hexadecimal.
pub proof fn law_valid_ids(id: u32, ext: bool)
    ensures
        valid_id(id, ext) == ((id as int) < pow2(if ext {
            29
        } else {
            11
        })),
        parsed(invalid_id(id).skip(15), 16, u32::MAX as int) == Ok::<int, IntError>(id as int),
        invalid_id(id).take(15) == "invalid CAN id "@,
{
    reveal_strlit("invalid CAN id ");
    vstd::arithmetic::power2::lemma2_to64();
    let d = digits(id as int, 16);
    lemma_scan_digits(id as int, 16, u32::MAX as int);
    let v = choose|v: int| 0 <= v < 16 && #[trigger] digits(id as int, 16)[0] == #[trigger] digit_char(v);
    lemma_digit_char(v);
    assert(invalid_id(id).skip(15) =~= d);
    assert(invalid_id(id).take(15) =~= "invalid CAN id "@);
}

/// A classic channel takes the data frames of up to 8 bytes with a valid ID and nothing else;
/// an FD channel takes those and, marked as FD or not, the other lengths of CAN FD.
pub proof fn law_frames_taken(m: Frame)
    ensures
        classic_error(m) is None == (!m.rtr && !m.fd && valid_id(m.id, m.ext) && m.len <= 8),
        fd_error(m) is None == (!m.rtr && valid_id(m.id, m.ext) && fd_len(m.len)),
        classic_error(m) is None && m.len >= 0 ==> fd_error(m) is None,
        m.rtr ==> classic_error(m) == fd_error(m),
        !m.rtr && !m.fd && !valid_id(m.id, m.ext) ==> classic_error(m) == fd_error(m),
        !m.rtr && m.fd ==> classic_error(m) != fd_error(m),
{
    reveal_strlit("CAN FD frame on a classic channel (enable FD when connecting)");
    reveal_strlit("invalid CAN id ");
    reveal_strlit("invalid FD length ");
    let c = "CAN FD frame on a classic channel (enable FD when connecting)"@;
    assert(c[0] == 'C');
    assert(invalid_id(m.id)[0] == 'i');
    assert(("invalid FD length "@ + decimal(m.len))[0] == 'i');
}

/// The counters of a controller are passed on. They turn an active state into a warning from
/// 96 on, and change no other state.
pub proof fn law_counters_refine_the_state(state: CtrlState, t: u8, r: u8)
    ensures
        refined(state, None) == (DeviceStatus { state, tec: None, rec: None }),
        refined(state, Some((t, r))).tec == Some(t),
        refined(state, Some((t, r))).rec == Some(r),
        state != CtrlState::ErrorActive ==> refined(state, Some((t, r))).state == state,
        t < 96 && r < 96 ==> refined(state, Some((t, r))).state == state,
        state == CtrlState::ErrorActive && t >= 96 ==> refined(state, Some((t, r))).state
            == CtrlState::Warning,
        state == CtrlState::ErrorActive && r >= 96 ==> refined(state, Some((t, r))).state
            == CtrlState::Warning,
{
}

/// No two settings mean the same bitrate, and each is one of those of the interface: from
/// 1 Mbit/s down to 5 kbit/s.
pub proof fn law_pcan_bitrates(a: PcanBitrate, b: PcanBitrate)
    ensures
        pcan_bits(a) == pcan_bits(b) ==> a == b,
        5_000 <= pcan_bits(a) <= 1_000_000,
        pcan_bits(PcanBitrate::Br1M) == 1_000_000 && pcan_bits(PcanBitrate::Br800K) == 800_000,
        pcan_bits(PcanBitrate::Br500K) == 500_000 && pcan_bits(PcanBitrate::Br250K) == 250_000,
        pcan_bits(PcanBitrate::Br125K) == 125_000 && pcan_bits(PcanBitrate::Br100K) == 100_000,
        pcan_bits(PcanBitrate::Br50K) == 50_000 && pcan_bits(PcanBitrate::Br20K) == 20_000,
        pcan_bits(PcanBitrate::Br10K) == 10_000 && pcan_bits(PcanBitrate::Br5K) == 5_000,
{
}

/// A frame comes out as it was received: its time, ID, format and bytes, and the marks of CAN
/// FD.
pub proof fn law_received_as_it_came(ts: Real, id: (u32, bool), data: Seq<u8>, fd: bool, brs: bool)
    requires
        data.len() <= 64,
    ensures
        ({
            let m = received_frame(ts, id, data, fd, brs);
            &&& m.ts == ts && m.id == id.0 && m.ext == id.1 && !m.rtr
            &&& m.fd == fd && m.brs == brs && m.dir == Dir::Rx
            &&& m.len == data.len() && m.data.take(m.len) == data
        }),
{
    let m = received_frame(ts, id, data, fd, brs);
    assert(m.data.take(m.len) =~= data);
}

} // verus!
