//! Core data model: message events, palette colors, log levels, statistics
//! counters and ban durations.

use vstd::prelude::*;

verus! {

/// The fixed six-color palette used to render nicknames.
#[derive(Clone, Copy, Debug, PartialEq, Eq, Hash, Structural)]
pub enum Color {
    Red,
    Green,
    Yellow,
    Blue,
    Magenta,
    Cyan,
}

impl Color {
    /// The ANSI foreground code of this color.
    pub open spec fn spec_ansi(self) -> u8 {
        match self {
            Color::Red => 31,
            Color::Green => 32,
            Color::Yellow => 33,
            Color::Blue => 34,
            Color::Magenta => 35,
            Color::Cyan => 36,
        }
    }

    /// The palette occupies exactly the ANSI codes 31 through 36.
    pub fn to_ansi(self) -> (code: u8)
        ensures
            code == self.spec_ansi(),
            31 <= code <= 36,
    {
        match self {
            Color::Red => 31,
            Color::Green => 32,
            Color::Yellow => 33,
            Color::Blue => 34,
            Color::Magenta => 35,
            Color::Cyan => 36,
        }
    }

    /// The palette color with the given index, taken cyclically.
    pub fn from_index(i: u32) -> (c: Color)
        ensures
            c.spec_ansi() == 31 + (i % 6),
    {
        match i % 6 {
            0 => Color::Red,
            1 => Color::Green,
            2 => Color::Yellow,
            3 => Color::Blue,
            4 => Color::Magenta,
            _ => Color::Cyan,
        }
    }
}

/// Join or leave announcement, visible to every connected chat client.
#[derive(Clone, Copy, Debug, PartialEq, Eq, Structural)]
pub enum NoticeKind {
    Joined,
    Left,
}

/// Severity of an operator-log record.
#[derive(Clone, Copy, Debug, PartialEq, Eq, Structural)]
pub enum LogLevel {
    Info,
    Warning,
    Error,
}

/// Moderation action recorded on the operator log.
#[derive(Clone, Debug, PartialEq, Eq)]
pub enum AdminAction {
    Ban { ip: u128, reason: String },
    TempBan { ip: u128, duration_ms: u64 },
    Unban { ip: u128 },
    Kick { nickname: String, ip: u128 },
}

/// A chat line, broadcast to every connected chat client.
#[derive(Clone, Debug)]
pub struct ChatMessage {
    pub timestamp_ms: u64,
    pub nickname: String,
    pub text: String,
    pub color: Color,
    pub ip: u128,
}

/// A join/leave notice, broadcast to every connected chat client.
#[derive(Clone, Debug)]
pub struct NoticeMessage {
    pub timestamp_ms: u64,
    pub kind: NoticeKind,
    pub nickname: String,
    pub ip: u128,
}

/// An operator-only log record; it never reaches a chat client.
#[derive(Clone, Debug)]
pub struct SystemLog {
    pub timestamp_ms: u64,
    pub level: LogLevel,
    pub message: String,
    pub ip: Option<u128>,
    pub action: Option<AdminAction>,
}

/// An event on the broadcast fan-out.  `System` records are carried by the
/// operator channel alone; the fan-out never holds one (see the registry's
/// invariant).
#[derive(Clone, Debug)]
pub enum MessageEvent {
    Chat(ChatMessage),
    Notice(NoticeMessage),
    System(SystemLog),
}

impl MessageEvent {
    /// True exactly of operator-only records.
    pub open spec fn is_system(self) -> bool {
        self is System
    }
}

/// Monotonic server statistics.
#[derive(Clone, Copy, Debug, PartialEq, Eq, Structural)]
pub struct Stats {
    pub total_messages: u64,
    pub total_connections: u64,
    pub total_kicks: u64,
    pub total_bans: u64,
}

impl Stats {
    pub fn new() -> (s: Stats)
        ensures
            s.total_messages == 0,
            s.total_connections == 0,
            s.total_kicks == 0,
            s.total_bans == 0,
    {
        Stats { total_messages: 0, total_connections: 0, total_kicks: 0, total_bans: 0 }
    }
}

/// Requested length of a ban.
#[derive(Clone, Copy, Debug, PartialEq, Eq, Structural)]
pub enum BanDuration {
    Permanent,
    Minutes(u64),
    Hours(u64),
    Days(u64),
}

impl BanDuration {
    /// The length in seconds, `None` for a permanent ban.  The mathematical
    /// product, saturated at `u64::MAX`.
    pub open spec fn spec_seconds(self) -> Option<u64> {
        match self {
            BanDuration::Permanent => None,
            BanDuration::Minutes(m) => Some(sat_u64(m * 60)),
            BanDuration::Hours(h) => Some(sat_u64(h * 3600)),
            BanDuration::Days(d) => Some(sat_u64(d * 86400)),
        }
    }

    /// Convert to a length in seconds; `None` means permanent.
    pub fn to_duration(self) -> (r: Option<u64>)
        ensures
            r == self.spec_seconds(),
            (r is None) <==> (self is Permanent),
    {
        match self {
            BanDuration::Permanent => None,
            BanDuration::Minutes(m) => Some(mul_sat(m, 60)),
            BanDuration::Hours(h) => Some(mul_sat(h, 3600)),
            BanDuration::Days(d) => Some(mul_sat(d, 86400)),
        }
    }
}

/// `v` clipped to the `u64` range.
pub open spec fn sat_u64(v: int) -> u64 {
    if v > u64::MAX { u64::MAX } else { v as u64 }
}

/// Saturating product of two `u64` values.
pub fn mul_sat(a: u64, b: u64) -> (r: u64)
    ensures
        r == sat_u64(a * b),
{
    if b == 0 {
        assert(a * b == 0);
        0
    } else if a <= u64::MAX / b {
        assert(a * b <= (u64::MAX / b) * b <= u64::MAX) by (nonlinear_arith)
            requires a <= u64::MAX / b && b > 0;
        a * b
    } else {
        assert(a * b > u64::MAX) by (nonlinear_arith)
            requires a > u64::MAX / b && b > 0;
        u64::MAX
    }
}

/// Reason a message was refused by validation.
#[derive(Clone, Copy, Debug, PartialEq, Eq, Structural)]
pub enum ValidationError {
    Empty,
    TooLong(usize),
    CombiningMarks,
    RepeatedChars,
}

/// The error taxonomy of the library.
#[derive(Clone, Debug, PartialEq, Eq)]
pub enum ChatError {
    Banned(String),
    RateLimited,
    Flooding,
    Validation(ValidationError),
    ServerFull(usize),
    TooManyConnections(usize),
    GeoIpRejected(String),
    ChallengeFailed,
    SshTransport(String),
    Io(String),
    Other(String),
}

} // verus!
