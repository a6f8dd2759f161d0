//! Configuration model.  Rates are whole messages per second, the delay
//! multiplier is carried in thousandths, and paths are plain strings; the
//! binary's loader converts its file format into these values.

use vstd::prelude::*;

verus! {

#[derive(Clone, Debug)]
pub struct ServerConfig {
    pub host: String,
    pub port: u16,
    pub host_key_path: String,
    pub max_clients: usize,
}

#[derive(Clone, Copy, Debug, PartialEq, Eq, Structural)]
pub struct LimitsConfig {
    pub message_truncate_length: usize,
    pub message_max_length: usize,
    pub nickname_truncate_length: usize,
    pub nickname_max_length: usize,
    pub max_message_history: usize,
}

#[derive(Clone, Copy, Debug, PartialEq, Eq, Structural)]
pub struct RateLimitConfig {
    pub messages_per_second: u32,
    pub burst_capacity: u32,
}

#[derive(Clone, Copy, Debug, PartialEq, Eq, Structural)]
pub struct FloodConfig {
    pub window_seconds: u64,
    pub max_messages_in_window: usize,
    pub max_connections_per_ip: usize,
}

#[derive(Clone, Debug)]
pub struct BanConfig {
    pub auto_ban_after_violations: u8,
    pub temp_ban_duration_minutes: u64,
    pub permanent_ban_threshold: u8,
    pub ban_list_path: String,
}

#[derive(Clone, Copy, Debug, PartialEq, Eq, Structural)]
pub struct AutoBahnConfig {
    pub enabled: bool,
    pub delay_on_first_violation: u64,
    pub delay_on_second_violation: u64,
    pub delay_on_third_violation: u64,
    pub delay_on_fourth_violation: u64,
    pub challenge_after_violations: u8,
    pub challenge_timeout_seconds: u64,
    pub connection_delay_base_ms: u64,
    pub connection_delay_multiplier_milli: u64,
    pub connection_delay_max_ms: u64,
}

#[derive(Clone, Copy, Debug, PartialEq, Eq, Structural)]
pub enum GeoIpMode {
    Blacklist,
    Whitelist,
}

#[derive(Clone, Debug)]
pub struct GeoIpConfig {
    pub enabled: bool,
    pub database_path: String,
    pub mode: GeoIpMode,
    pub blocked_countries: Vec<String>,
    pub allowed_countries: Vec<String>,
    pub rejection_message: String,
}

#[derive(Clone, Copy, Debug, PartialEq, Eq, Structural)]
pub enum ThreatAction {
    Block,
    LogOnly,
}

#[derive(Clone, Copy, Debug, PartialEq, Eq, Structural)]
pub enum ThreatListFormat {
    Ip,
    Cidr,
    Json,
}

#[derive(Clone, Debug)]
pub struct ThreatListSource {
    pub name: String,
    pub url: String,
    pub format: ThreatListFormat,
    pub enabled: bool,
    pub headers: Vec<(String, String)>,
    pub params: Vec<(String, String)>,
}

#[derive(Clone, Debug)]
pub struct ThreatListsConfig {
    pub enabled: bool,
    pub update_interval_hours: u64,
    pub cache_dir: String,
    pub action: ThreatAction,
    pub sources: Vec<ThreatListSource>,
}

#[derive(Clone, Copy, Debug, PartialEq, Eq, Structural)]
pub struct TuiConfig {
    pub refresh_rate_fps: u8,
    pub max_log_lines: usize,
    pub show_ip_addresses: bool,
}

#[derive(Clone, Debug)]
pub struct Config {
    pub server: ServerConfig,
    pub limits: LimitsConfig,
    pub rate_limit: RateLimitConfig,
    pub flood: FloodConfig,
    pub bans: BanConfig,
    pub autobahn: AutoBahnConfig,
    pub geoip: GeoIpConfig,
    pub threat_lists: ThreatListsConfig,
    pub tui: TuiConfig,
}

} // verus!
