//! A verified core for a multi-user SSH chat server.
//!
//! The library holds the connection-admission pipeline (ban list, geo filter,
//! threat lists, progressive delays), the per-client rate and flood limiters,
//! the client registry with its broadcast fan-out, the per-session line
//! editor, and the operator command parser.  Instants are carried as
//! milliseconds since an epoch, IP addresses as 128-bit codes (IPv4 addresses
//! in their IPv6-mapped form), and client identifiers as 128-bit values, so
//! that every rule can be stated and proved over plain values.

pub mod admission;
pub mod autobahn;
pub mod ban;
pub mod config;
pub mod console;
pub mod entropy;
pub mod geoip;
pub mod hub;
pub mod jsontext;
pub mod ip;
pub mod rate;
pub mod session;
pub mod threats;
pub mod text;
pub mod types;

pub use autobahn::AutoBahn;
pub use ban::BanManager;
pub use config::Config;
pub use geoip::GeoIpFilter;
pub use hub::ChatServer;
pub use rate::RateLimiter;
pub use threats::ThreatListManager;
pub use types::BanDuration;
pub use types::ChatError;
pub use types::ChatMessage;
pub use types::Color;
pub use types::LogLevel;
pub use types::MessageEvent;
pub use types::NoticeKind;
pub use types::NoticeMessage;
pub use types::SystemLog;
pub use types::ValidationError;
