//! CAN interfaces: what they are, how they are set up and what they report.

use vstd::prelude::*;
use crate::msg::{CanMsg, Frame};
use crate::number::{decimal, lemma_decimal, parsed, put_decimal, IntError, Real};
use crate::text::{chars_of, lower, put, put_chars, string_of, to_lower};

pub mod hal;
pub mod logfile;
pub mod slcan;
pub mod socket;
pub mod virtual_bus;

verus! {

/// State of a CAN controller.
#[derive(Debug, Clone, Copy, PartialEq, Eq, Structural)]
pub enum CtrlState {
    Unknown,
    ErrorActive,
    Warning,
    ErrorPassive,
    BusOff,
}

impl Default for CtrlState {
    fn default() -> (r: Self)
        ensures
            r == CtrlState::Unknown,
    {
        CtrlState::Unknown
    }
}

impl CtrlState {
    pub open spec fn label_text(self) -> Seq<char> {
        match self {
            CtrlState::Unknown => "Unknown"@,
            CtrlState::ErrorActive => "Error Active (OK)"@,
            CtrlState::Warning => "Error Warning"@,
            CtrlState::ErrorPassive => "Error Passive"@,
            CtrlState::BusOff => "BUS OFF"@,
        }
    }

    /// The state in words.
    pub fn label(self) -> (r: &'static str)
        ensures
            r@ == self.label_text(),
    {
        match self {
            CtrlState::Unknown => "Unknown",
            CtrlState::ErrorActive => "Error Active (OK)",
            CtrlState::Warning => "Error Warning",
            CtrlState::ErrorPassive => "Error Passive",
            CtrlState::BusOff => "BUS OFF",
        }
    }
}

/// What a controller says of itself: its state and error counters.
#[derive(Debug, Clone, Copy, PartialEq, Eq, Structural)]
pub struct DeviceStatus {
    pub state: CtrlState,
    pub tec: Option<u8>,
    pub rec: Option<u8>,
}

impl Default for DeviceStatus {
    fn default() -> (r: Self)
        ensures
            r == (DeviceStatus { state: CtrlState::Unknown, tec: None, rec: None }),
    {
        DeviceStatus { state: CtrlState::Unknown, tec: None, rec: None }
    }
}

/// Something noteworthy reported by the controller (error frame, overrun, ...).
#[derive(Debug)]
pub struct BusEvent {
    pub desc: String,
    pub state: Option<CtrlState>,
    pub rx_overflow: bool,
    pub tec: Option<u8>,
    pub rec: Option<u8>,
}

/// What an event says.
pub ghost struct BusEventModel {
    pub desc: Seq<char>,
    pub state: Option<CtrlState>,
    pub rx_overflow: bool,
    pub tec: Option<u8>,
    pub rec: Option<u8>,
}

impl View for BusEvent {
    type V = BusEventModel;

    open spec fn view(&self) -> BusEventModel {
        BusEventModel {
            desc: self.desc@,
            state: self.state,
            rx_overflow: self.rx_overflow,
            tec: self.tec,
            rec: self.rec,
        }
    }
}

impl Clone for BusEvent {
    fn clone(&self) -> (r: Self)
        ensures
            r@ == self@,
    {
        BusEvent {
            desc: self.desc.clone(),
            state: self.state,
            rx_overflow: self.rx_overflow,
            tec: self.tec,
            rec: self.rec,
        }
    }
}

/// An event with nothing but a description.
pub open spec fn plain_event(desc: Seq<char>) -> BusEventModel {
    BusEventModel { desc, state: None, rx_overflow: false, tec: None, rec: None }
}

impl BusEvent {
    /// An event with nothing but a description.
    pub fn new(desc: String) -> (r: Self)
        ensures
            r@ == plain_event(desc@),
    {
        BusEvent { desc, state: None, rx_overflow: false, tec: None, rec: None }
    }
}

/// What a device hands out.
pub enum DevEvent {
    Frame(CanMsg),
    Bus(BusEvent),
}

/// What a device hands out.
pub ghost enum EventModel {
    Frame(Frame),
    Bus(BusEventModel),
}

impl View for DevEvent {
    type V = EventModel;

    open spec fn view(&self) -> EventModel {
        match *self {
            DevEvent::Frame(m) => EventModel::Frame(m@),
            DevEvent::Bus(e) => EventModel::Bus(e@),
        }
    }
}

impl DevEvent {
    /// A frame's length fits its data.
    pub open spec fn wf(self) -> bool {
        match self {
            DevEvent::Frame(m) => m.wf(),
            DevEvent::Bus(_) => true,
        }
    }
}

/// Operating systems, as far as backends differ.
#[derive(Debug, Clone, Copy, PartialEq, Eq, Structural)]
pub enum Platform {
    Linux,
    Windows,
    Other,
}

/// Kinds of interfaces.
#[derive(Debug, Clone, Copy, PartialEq, Eq, Structural)]
pub enum BackendKind {
    Virtual,
    Pcan,
    Kvaser,
    /// On Linux only.
    SocketCan,
    Slcan,
    LogFile,
}

/// The backends of a platform in the order in which they are offered.
pub open spec fn backends(p: Platform) -> Seq<BackendKind> {
    match p {
        Platform::Linux => seq![
            BackendKind::Virtual,
            BackendKind::Pcan,
            BackendKind::Kvaser,
            BackendKind::SocketCan,
            BackendKind::Slcan,
            BackendKind::LogFile,
        ],
        Platform::Windows => seq![
            BackendKind::Virtual,
            BackendKind::Pcan,
            BackendKind::Kvaser,
            BackendKind::Slcan,
            BackendKind::LogFile,
        ],
        Platform::Other => seq![
            BackendKind::Virtual,
            BackendKind::Pcan,
            BackendKind::Slcan,
            BackendKind::LogFile,
        ],
    }
}

impl BackendKind {
    /// The backends that a platform has.
    pub fn all(platform: Platform) -> (r: Vec<BackendKind>)
        ensures
            r@ == backends(platform),
    {
        let mut v: Vec<BackendKind> = Vec::new();
        v.push(BackendKind::Virtual);
        v.push(BackendKind::Pcan);
        if platform != Platform::Other {
            v.push(BackendKind::Kvaser);
        }
        if platform == Platform::Linux {
            v.push(BackendKind::SocketCan);
        }
        v.push(BackendKind::Slcan);
        v.push(BackendKind::LogFile);
        assert(v@ =~= backends(platform));
        v
    }

    pub open spec fn label_text(self) -> Seq<char> {
        match self {
            BackendKind::Virtual => "Virtual (simulated)"@,
            BackendKind::Pcan => "PEAK PCAN"@,
            BackendKind::Kvaser => "Kvaser CANlib"@,
            BackendKind::SocketCan => "SocketCAN"@,
            BackendKind::Slcan => "SLCAN (serial)"@,
            BackendKind::LogFile => "Log file (offline review)"@,
        }
    }

    /// The backend in words.
    pub fn label(self) -> (r: &'static str)
        ensures
            r@ == self.label_text(),
    {
        match self {
            BackendKind::Virtual => "Virtual (simulated)",
            BackendKind::Pcan => "PEAK PCAN",
            BackendKind::Kvaser => "Kvaser CANlib",
            BackendKind::SocketCan => "SocketCAN",
            BackendKind::Slcan => "SLCAN (serial)",
            BackendKind::LogFile => "Log file (offline review)",
        }
    }

    /// Whether the bitrate is set when connecting.
    pub open spec fn takes_bitrate(self) -> bool {
        self == BackendKind::Pcan || self == BackendKind::Kvaser || self == BackendKind::Slcan
    }

    /// Whether the bitrate is set when connecting.
    pub fn has_bitrate(self) -> (r: bool)
        ensures
            r == (self == BackendKind::Pcan || self == BackendKind::Kvaser || self
                == BackendKind::Slcan),
            r == self.takes_bitrate(),
    {
        self == BackendKind::Pcan || self == BackendKind::Kvaser || self == BackendKind::Slcan
    }

    /// Whether the backend can send and receive CAN FD frames.
    pub open spec fn has_fd(self) -> bool {
        self == BackendKind::Pcan || self == BackendKind::Kvaser || self == BackendKind::SocketCan
    }

    /// Whether the backend can send and receive CAN FD frames.
    pub fn supports_fd(self) -> (r: bool)
        ensures
            r == self.has_fd(),
    {
        self == BackendKind::Pcan || self == BackendKind::Kvaser || self == BackendKind::SocketCan
    }
}

/// How a PCAN interface is attached.
#[derive(Debug, Clone, Copy, PartialEq, Eq, Structural)]
pub enum PcanBus {
    Usb,
    Pci,
    Lan,
}

/// How to connect.
#[derive(Debug)]
pub struct ConnectConfig {
    pub kind: BackendKind,
    /// Interface / port name / virtual mode, depending on the backend.
    pub channel: String,
    /// 0-based channel index for PCAN / Kvaser.
    pub index: u32,
    pub pcan_bus: PcanBus,
    pub bitrate: u32,
    pub fd: bool,
    pub data_bitrate: u32,
    pub log_path: Option<String>,
    /// Log replay speed multiplier; 0 = as fast as possible.
    pub log_speed: Real,
}

impl Default for ConnectConfig {
    fn default() -> (r: Self)
        ensures
            r.kind == BackendKind::Virtual,
            r.channel@ == "demo"@,
            r.index == 0,
            r.pcan_bus == PcanBus::Usb,
            r.bitrate == 500_000,
            !r.fd,
            r.data_bitrate == 2_000_000,
            r.log_path is None,
            r.log_speed == crate::symbols::one(),
    {
        ConnectConfig {
            kind: BackendKind::Virtual,
            channel: "demo".to_string(),
            index: 0,
            pcan_bus: PcanBus::Usb,
            bitrate: 500_000,
            fd: false,
            data_bitrate: 2_000_000,
            log_path: None,
            log_speed: Real { bits: 0x3FF0_0000_0000_0000 },
        }
    }
}

impl Clone for ConnectConfig {
    fn clone(&self) -> (r: Self)
        ensures
            r.kind == self.kind,
            r.channel@ == self.channel@,
            r.index == self.index,
            r.pcan_bus == self.pcan_bus,
            r.bitrate == self.bitrate,
            r.fd == self.fd,
            r.data_bitrate == self.data_bitrate,
            crate::symbols::text_view(r.log_path) == crate::symbols::text_view(self.log_path),
            r.log_speed == self.log_speed,
    {
        ConnectConfig {
            kind: self.kind,
            channel: self.channel.clone(),
            index: self.index,
            pcan_bus: self.pcan_bus,
            bitrate: self.bitrate,
            fd: self.fd,
            data_bitrate: self.data_bitrate,
            log_path: crate::symbols::copy_text(&self.log_path),
            log_speed: self.log_speed,
        }
    }
}

/// The ASCII letters and digits of a text, in small letters.
pub open spec fn alphanumeric(s: Seq<char>) -> Seq<char>
    decreases s.len(),
{
    if s.len() == 0 {
        s
    } else {
        let before = alphanumeric(s.drop_last());
        let c = s.last();
        if 'a' <= c <= 'z' || 'A' <= c <= 'Z' || '0' <= c <= '9' {
            before.push(lower(c))
        } else {
            before
        }
    }
}

fn letters_and_digits(s: &[char]) -> (r: Vec<char>)
    ensures
        r@ == alphanumeric(s@),
{
    let mut v: Vec<char> = Vec::new();
    let mut i: usize = 0;
    while i < s.len()
        invariant
            i <= s@.len(),
            v@ == alphanumeric(s@.take(i as int)),
        decreases s@.len() - i,
    {
        let c = s[i];
        assert(s@.take(i + 1).drop_last() =~= s@.take(i as int));
        if ('a' <= c && c <= 'z') || ('A' <= c && c <= 'Z') || ('0' <= c && c <= '9') {
            v.push(to_lower(c));
        }
        i = i + 1;
    }
    assert(s@.take(i as int) =~= s@);
    v
}

/// The interface name that a backend uses in log files. Hardware channels are numbered,
/// serial ports keep their letters and digits, a simulated bus its mode, and a log file
/// its own name, which `channel` is then.
pub open spec fn log_name_of(kind: BackendKind, channel: Seq<char>, index: u32) -> Seq<char> {
    match kind {
        BackendKind::Virtual => "vcan_"@ + channel,
        BackendKind::Pcan => "pcan"@ + decimal(index + 1),
        BackendKind::Kvaser => "kvaser"@ + decimal(index as int),
        BackendKind::SocketCan => channel,
        BackendKind::Slcan => "slcan"@ + alphanumeric(channel),
        BackendKind::LogFile => channel,
    }
}

/// The interface name that a backend uses in log files (e.g. `can0`, `pcan1`).
pub fn log_name(kind: BackendKind, channel: &str, index: u32) -> (r: String)
    ensures
        r@ == log_name_of(kind, channel@, index),
{
    let mut out: Vec<char> = Vec::new();
    match kind {
        BackendKind::Virtual => {
            put(&mut out, "vcan_");
            put(&mut out, channel);
        },
        BackendKind::Pcan => {
            put(&mut out, "pcan");
            put_decimal(&mut out, index as u64 + 1);
        },
        BackendKind::Kvaser => {
            put(&mut out, "kvaser");
            put_decimal(&mut out, index as u64);
        },
        BackendKind::SocketCan => {
            put(&mut out, channel);
        },
        BackendKind::Slcan => {
            put(&mut out, "slcan");
            let c = chars_of(channel);
            let n = letters_and_digits(c.as_slice());
            put_chars(&mut out, n.as_slice());
        },
        BackendKind::LogFile => {
            put(&mut out, channel);
        },
    }
    assert(out@ =~= log_name_of(kind, channel@, index));
    string_of(out.as_slice())
}

/// Every platform offers the simulated bus first, PCAN, serial adapters and log files;
/// SocketCAN is there on Linux alone, Kvaser on Linux and Windows. None is offered twice.
pub proof fn law_offered_backends(p: Platform, i: int, j: int)
    ensures
        backends(p)[0] == BackendKind::Virtual,
        backends(p).contains(BackendKind::Pcan),
        backends(p).contains(BackendKind::Slcan),
        backends(p).last() == BackendKind::LogFile,
        backends(p).contains(BackendKind::SocketCan) == (p == Platform::Linux),
        backends(p).contains(BackendKind::Kvaser) == (p != Platform::Other),
        0 <= i < j < backends(p).len() ==> backends(p)[i] != backends(p)[j],
{
    let b = backends(p);
    assert(b[1] == BackendKind::Pcan);
    assert(b[b.len() - 2] == BackendKind::Slcan);
    if p != Platform::Other {
        assert(b[2] == BackendKind::Kvaser);
    }
    if p == Platform::Linux {
        assert(b[3] == BackendKind::SocketCan);
    }
}

/// The simulated bus and log files take no bitrate and no CAN FD. SocketCAN, whose bitrate is
/// set outside, takes FD frames only; serial adapters take a bitrate only; the others both.
pub proof fn law_settings_of_backends(k: BackendKind)
    ensures
        k == BackendKind::Virtual || k == BackendKind::LogFile ==> !k.takes_bitrate() && !k.has_fd(),
        k == BackendKind::SocketCan ==> !k.takes_bitrate() && k.has_fd(),
        k == BackendKind::Slcan ==> k.takes_bitrate() && !k.has_fd(),
        k == BackendKind::Pcan || k == BackendKind::Kvaser ==> k.takes_bitrate() && k.has_fd(),
{
}

/// What is shown of a controller's state and of a backend tells them all apart.
pub proof fn law_labels_differ(a: CtrlState, b: CtrlState, k: BackendKind, l: BackendKind)
    ensures
        a.label_text() == b.label_text() ==> a == b,
        k.label_text() == l.label_text() ==> k == l,
        CtrlState::ErrorActive.label_text() == "Error Active (OK)"@,
        CtrlState::BusOff.label_text() == "BUS OFF"@,
        CtrlState::ErrorPassive.label_text() == "Error Passive"@,
        CtrlState::Warning.label_text() == "Error Warning"@,
        CtrlState::Unknown.label_text() == "Unknown"@,
{
    reveal_strlit("Unknown");
    reveal_strlit("Error Active (OK)");
    reveal_strlit("Error Warning");
    reveal_strlit("Error Passive");
    reveal_strlit("BUS OFF");
    reveal_strlit("Virtual (simulated)");
    reveal_strlit("PEAK PCAN");
    reveal_strlit("Kvaser CANlib");
    reveal_strlit("SocketCAN");
    reveal_strlit("SLCAN (serial)");
    reveal_strlit("Log file (offline review)");
    let s = a.label_text();
    assert(a == CtrlState::Unknown <==> s[0] == 'U');
    assert(a == CtrlState::ErrorActive <==> s[6] == 'A');
    assert(a == CtrlState::Warning <==> s[6] == 'W');
    assert(a == CtrlState::ErrorPassive <==> s[6] == 'P');
    assert(a == CtrlState::BusOff <==> s[0] == 'B');
    let t = k.label_text();
    assert(k == BackendKind::Virtual <==> t[0] == 'V');
    assert(k == BackendKind::Pcan <==> t[0] == 'P');
    assert(k == BackendKind::Kvaser <==> t[0] == 'K');
    assert(k == BackendKind::SocketCan <==> t[1] == 'o' && t[0] == 'S');
    assert(k == BackendKind::Slcan <==> t[1] == 'L');
    assert(k == BackendKind::LogFile <==> t[0] == 'L');
}

/// Of a text the letters, made small, and the digits are kept in their order, and nothing
/// else.
pub proof fn law_letters_and_digits(a: Seq<char>, b: Seq<char>)
    ensures
        alphanumeric(a + b) == alphanumeric(a) + alphanumeric(b),
        a.len() == 1 && ('a' <= a[0] <= 'z' || '0' <= a[0] <= '9') ==> alphanumeric(a) == a,
        a.len() == 1 && 'A' <= a[0] <= 'Z' ==> alphanumeric(a).len() == 1 && alphanumeric(a)[0] as int
            == a[0] as int + 32,
        a.len() == 1 && !('a' <= a[0] <= 'z') && !('A' <= a[0] <= 'Z') && !('0' <= a[0] <= '9')
            ==> alphanumeric(a).len() == 0,
    decreases b.len(),
{
    if b.len() == 0 {
        assert(a + b =~= a);
        assert(alphanumeric(a) + alphanumeric(b) =~= alphanumeric(a));
    } else {
        law_letters_and_digits(a, b.drop_last());
        assert((a + b).drop_last() =~= a + b.drop_last());
        assert(alphanumeric(a + b) =~= alphanumeric(a) + alphanumeric(b));
    }
    if a.len() == 1 {
        assert(a.drop_last().len() == 0);
        assert(alphanumeric(a.drop_last()) =~= Seq::empty());
        if 'a' <= a[0] <= 'z' || '0' <= a[0] <= '9' {
            assert(alphanumeric(a) =~= a);
        }
    }
}

/// The name of an interface in a log shows its kind and its channel: PCAN channels count from
/// 1, Kvaser channels from 0, the number reading back in both; an interface of the system and
/// a log file go by their own name.
pub proof fn law_names_in_logs(channel: Seq<char>, index: u32)
    ensures
        parsed(log_name_of(BackendKind::Pcan, channel, index).skip(4), 10, 0x1_0000_0000) == Ok::<
            int,
            IntError,
        >(index + 1),
        parsed(log_name_of(BackendKind::Kvaser, channel, index).skip(6), 10, 0x1_0000_0000) == Ok::<
            int,
            IntError,
        >(index as int),
        log_name_of(BackendKind::Pcan, channel, index).take(4) == "pcan"@,
        log_name_of(BackendKind::Kvaser, channel, index).take(6) == "kvaser"@,
        log_name_of(BackendKind::SocketCan, channel, index) == channel,
        log_name_of(BackendKind::LogFile, channel, index) == channel,
        log_name_of(BackendKind::Virtual, channel, index).skip(5) == channel,
        log_name_of(BackendKind::Virtual, channel, index).take(5) == "vcan_"@,
        log_name_of(BackendKind::Slcan, channel, index).skip(5) == alphanumeric(channel),
        log_name_of(BackendKind::Slcan, channel, index).take(5) == "slcan"@,
{
    reveal_strlit("pcan");
    reveal_strlit("kvaser");
    reveal_strlit("vcan_");
    reveal_strlit("slcan");
    lemma_decimal(index + 1, 0x1_0000_0000);
    lemma_decimal(index as int, 0x1_0000_0000);
    assert(("pcan"@ + decimal(index + 1)).skip(4) =~= decimal(index + 1));
    assert(("pcan"@ + decimal(index + 1)).take(4) =~= "pcan"@);
    assert(("kvaser"@ + decimal(index as int)).skip(6) =~= decimal(index as int));
    assert(("kvaser"@ + decimal(index as int)).take(6) =~= "kvaser"@);
    assert(("vcan_"@ + channel).skip(5) =~= channel);
    assert(("vcan_"@ + channel).take(5) =~= "vcan_"@);
    assert(("slcan"@ + alphanumeric(channel)).skip(5) =~= alphanumeric(channel));
    assert(("slcan"@ + alphanumeric(channel)).take(5) =~= "slcan"@);
}

/// An event that only has a text says nothing about the controller and of no lost frames.
pub proof fn law_plain_events(desc: Seq<char>)
    ensures
        ({
            let e = plain_event(desc);
            &&& e.desc == desc && e.state is None && !e.rx_overflow
            &&& e.tec is None && e.rec is None
        }),
{
}

} // verus!
