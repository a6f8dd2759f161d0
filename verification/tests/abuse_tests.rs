use ssh_chat::autobahn::AutoBahn;
use ssh_chat::ban::BanManager;
use ssh_chat::config::AutoBahnConfig;
use ssh_chat::config::FloodConfig;
use ssh_chat::config::RateLimitConfig;
use ssh_chat::config::ThreatAction;
use ssh_chat::config::ThreatListFormat;
use ssh_chat::config::ThreatListsConfig;
use ssh_chat::ip::parse_ip_str;
use ssh_chat::jsontext::from_json;
use ssh_chat::jsontext::to_json;
use ssh_chat::rate::RateLimiter;
use ssh_chat::threats::ThreatListManager;
use ssh_chat::threats::ThreatVerdict;

fn create_test_config() -> AutoBahnConfig {
    AutoBahnConfig {
        enabled: true,
        delay_on_first_violation: 100,
        delay_on_second_violation: 500,
        delay_on_third_violation: 2000,
        delay_on_fourth_violation: 5000,
        challenge_after_violations: 3,
        challenge_timeout_seconds: 30,
        connection_delay_base_ms: 100,
        connection_delay_multiplier_milli: 2000,
        connection_delay_max_ms: 60000,
    }
}

fn ip4(s: &str) -> u128 {
    parse_ip_str(s).unwrap()
}

#[test]
fn test_violation_tracking() {
    let config = create_test_config();
    let mut autobahn = AutoBahn::new(config);
    let ip = ip4("1.2.3.4");

    assert_eq!(autobahn.get_violation_count(ip), 0);

    autobahn.record_violation(ip, 1_000);
    assert_eq!(autobahn.get_violation_count(ip), 1);

    autobahn.record_violation(ip, 2_000);
    assert_eq!(autobahn.get_violation_count(ip), 2);
}

#[test]
fn test_clear_violations() {
    let config = create_test_config();
    let mut autobahn = AutoBahn::new(config);
    let ip = ip4("1.2.3.4");

    autobahn.record_violation(ip, 1_000);
    assert_eq!(autobahn.get_violation_count(ip), 1);

    autobahn.clear_violations(ip);
    assert_eq!(autobahn.get_violation_count(ip), 0);
}

#[test]
fn test_connection_delay_calculation() {
    let config = create_test_config();
    let autobahn = AutoBahn::new(config);

    assert_eq!(autobahn.calculate_connection_delay(0), 0);
    assert_eq!(autobahn.calculate_connection_delay(1), 0);
    assert_eq!(autobahn.calculate_connection_delay(2), 200);
    assert_eq!(autobahn.calculate_connection_delay(3), 400);
    assert_eq!(autobahn.calculate_connection_delay(4), 800);
}

#[test]
fn test_disabled_autobahn() {
    let mut config = create_test_config();
    config.enabled = false;
    let mut autobahn = AutoBahn::new(config);
    let ip = ip4("1.2.3.4");

    autobahn.record_violation(ip, 1_000);
    assert_eq!(autobahn.get_violation_count(ip), 0);
}

#[test]
fn test_permanent_ban() {
    let mut manager = BanManager::new_empty();
    let ip = ip4("192.168.1.1");

    manager.ban_permanent(ip, "test ban".to_string(), 1_000);

    assert!(manager.is_banned(ip, 5_000));
    assert_eq!(manager.ban_count(5_000), 1);

    let entry = manager.check_ban(ip, 5_000).unwrap();
    assert_eq!(entry.reason, "test ban");
    assert!(entry.expires_at_ms.is_none());
}

#[test]
fn test_temporary_ban() {
    let mut manager = BanManager::new_empty();
    let ip = ip4("192.168.1.2");

    manager.ban_temporary(ip, 3600 * 1000, "temp ban".to_string(), 1_000);

    assert!(manager.is_banned(ip, 2_000));

    let entry = manager.check_ban(ip, 2_000).unwrap();
    assert_eq!(entry.reason, "temp ban");
    assert!(entry.expires_at_ms.is_some());
}

#[test]
fn test_unban() {
    let mut manager = BanManager::new_empty();
    let ip = ip4("192.168.1.3");

    manager.ban_permanent(ip, "test".to_string(), 1_000);
    assert!(manager.is_banned(ip, 1_000));

    let removed = manager.unban(ip);
    assert!(removed);
    assert!(!manager.is_banned(ip, 1_000));
}

#[test]
fn test_persistence() {
    let ip = ip4("192.168.1.4");

    // One store writes its file...
    let saved = {
        let mut manager = BanManager::new_empty();
        manager.ban_permanent(ip, "persist test".to_string(), 1_000);
        to_json(&manager)
    };

    // ...and a fresh store reads it back.
    {
        let manager = from_json(saved.as_str()).unwrap();
        assert!(manager.is_banned(ip, 2_000));
        let entry = manager.check_ban(ip, 2_000).unwrap();
        assert_eq!(entry.reason, "persist test");
    }
}

#[test]
fn test_expired_ban_cleanup() {
    let mut manager = BanManager::new_empty();
    let ip = ip4("192.168.1.5");

    // A ban that lapsed one second before the check.
    manager.ban_temporary(ip, 9_000, "expired".to_string(), 0);

    assert!(!manager.is_banned(ip, 10_000));

    manager.cleanup_expired(10_000);
    assert_eq!(manager.ban_count(10_000), 0);
    assert_eq!(manager.entry_count(), 0);
}

fn create_test_configs() -> (RateLimitConfig, FloodConfig) {
    let rate_config = RateLimitConfig { messages_per_second: 2, burst_capacity: 5 };

    let flood_config =
        FloodConfig { window_seconds: 10, max_messages_in_window: 20, max_connections_per_ip: 3 };

    (rate_config, flood_config)
}

#[test]
fn test_register_client() {
    let (rate_config, flood_config) = create_test_configs();
    let mut limiter = RateLimiter::new(rate_config, flood_config);

    let client_id = uuid::Uuid::new_v4().as_u128();
    let ip = ip4("127.0.0.1");

    assert!(limiter.register_client(client_id, ip).is_ok());
    assert_eq!(limiter.get_connection_count(ip), 1);
}

#[test]
fn test_connection_limit() {
    let (rate_config, flood_config) = create_test_configs();
    let mut limiter = RateLimiter::new(rate_config, flood_config);

    let ip = ip4("127.0.0.1");

    for _ in 0..3 {
        let client_id = uuid::Uuid::new_v4().as_u128();
        assert!(limiter.register_client(client_id, ip).is_ok());
    }

    let client_id = uuid::Uuid::new_v4().as_u128();
    assert!(limiter.register_client(client_id, ip).is_err());
}

#[test]
fn test_unregister_client() {
    let (rate_config, flood_config) = create_test_configs();
    let mut limiter = RateLimiter::new(rate_config, flood_config);

    let client_id = uuid::Uuid::new_v4().as_u128();
    let ip = ip4("127.0.0.1");

    limiter.register_client(client_id, ip).unwrap();
    assert_eq!(limiter.get_connection_count(ip), 1);

    limiter.unregister_client(client_id, ip);
    assert_eq!(limiter.get_connection_count(ip), 0);
}

#[test]
fn test_rate_limit() {
    let (rate_config, flood_config) = create_test_configs();
    let mut limiter = RateLimiter::new(rate_config, flood_config);

    let client_id = uuid::Uuid::new_v4().as_u128();
    let ip = ip4("127.0.0.1");

    limiter.register_client(client_id, ip).unwrap();

    // Within the burst: all at one instant.
    for _ in 0..5 {
        assert!(limiter.check_rate_limit(client_id, 50_000).is_ok());
    }

    assert!(limiter.check_rate_limit(client_id, 50_000).is_err());
}

#[test]
fn test_rate_limit_refills() {
    let (rate_config, flood_config) = create_test_configs();
    let mut limiter = RateLimiter::new(rate_config, flood_config);

    let client_id = uuid::Uuid::new_v4().as_u128();
    let ip = ip4("127.0.0.1");
    limiter.register_client(client_id, ip).unwrap();

    for _ in 0..5 {
        assert!(limiter.check_rate_limit(client_id, 50_000).is_ok());
    }
    assert!(limiter.check_rate_limit(client_id, 50_000).is_err());

    // Two messages per second: half a second buys one token back.
    assert!(limiter.check_rate_limit(client_id, 50_500).is_ok());
    assert!(limiter.check_rate_limit(client_id, 50_500).is_err());
}

#[test]
fn test_flood_detection() {
    let (rate_config, mut flood_config) = create_test_configs();
    flood_config.max_messages_in_window = 3;
    let mut limiter = RateLimiter::new(rate_config, flood_config);

    let client_id = uuid::Uuid::new_v4().as_u128();
    let ip = ip4("127.0.0.1");

    limiter.register_client(client_id, ip).unwrap();

    for _ in 0..3 {
        assert!(limiter.check_flood(client_id, 1_000).is_ok());
    }

    assert!(limiter.check_flood(client_id, 1_000).is_err());
}

#[test]
fn test_flood_window_slides() {
    let (rate_config, mut flood_config) = create_test_configs();
    flood_config.max_messages_in_window = 3;
    let mut limiter = RateLimiter::new(rate_config, flood_config);

    let client_id = uuid::Uuid::new_v4().as_u128();
    let ip = ip4("127.0.0.1");
    limiter.register_client(client_id, ip).unwrap();

    for _ in 0..3 {
        assert!(limiter.check_flood(client_id, 1_000).is_ok());
    }
    assert!(limiter.check_flood(client_id, 1_000).is_err());

    // Eleven seconds later every stamp has aged out of the ten-second window.
    assert!(limiter.check_flood(client_id, 12_001).is_ok());
}

#[test]
fn test_threat_manager_disabled() {
    let config = ThreatListsConfig {
        enabled: false,
        update_interval_hours: 24,
        cache_dir: "cache".to_string(),
        action: ThreatAction::Block,
        sources: vec![],
    };

    let manager = ThreatListManager::new(config);
    let ip = ip4("1.2.3.4");
    assert_eq!(manager.check_ip(ip), ThreatVerdict::Clear);
}

fn enabled_threat_config() -> ThreatListsConfig {
    ThreatListsConfig {
        enabled: true,
        update_interval_hours: 24,
        cache_dir: "cache".to_string(),
        action: ThreatAction::Block,
        sources: vec![],
    }
}

#[test]
fn test_parse_ip_list() {
    let manager = ThreatListManager::new(enabled_threat_config());
    let content = "# Comment\n1.2.3.4\n5.6.7.8\n\n; Another comment\n9.10.11.12";
    let (ips, cidrs) = manager.parse_list(content, ThreatListFormat::Ip).unwrap();

    assert_eq!(ips.len(), 3);
    assert_eq!(cidrs.len(), 0);
}

#[test]
fn test_parse_cidr_list() {
    let manager = ThreatListManager::new(enabled_threat_config());
    let content = "1.2.3.0/24 ; SBL123\n5.6.7.0/24 ; SBL456";
    let (ips, cidrs) = manager.parse_list(content, ThreatListFormat::Cidr).unwrap();

    assert_eq!(ips.len(), 0);
    assert_eq!(cidrs.len(), 2);
}

#[test]
fn test_parse_json_list() {
    let manager = ThreatListManager::new(enabled_threat_config());
    let content = "[\"1.2.3.4\", \"not an address\", \"5.6.7.8\"]";
    let (ips, cidrs) = manager.parse_list(content, ThreatListFormat::Json).unwrap();
    assert_eq!(ips.len(), 2);
    assert_eq!(cidrs.len(), 0);

    let (none, _) = manager.parse_list("not json", ThreatListFormat::Json).unwrap();
    assert_eq!(none.len(), 0);
}

#[test]
fn test_threat_match_and_cidr() {
    let mut manager = ThreatListManager::new(enabled_threat_config());
    let body = "9.9.9.9\n";
    let (ips, _) = manager.parse_list(body, ThreatListFormat::Ip).unwrap();
    let (_, cidrs) = manager.parse_list("10.0.0.0/8 ; feed\n", ThreatListFormat::Cidr).unwrap();
    manager.replace_lists(ips, cidrs);

    assert_eq!(manager.check_ip(ip4("9.9.9.9")), ThreatVerdict::Matched { block: true });
    assert_eq!(manager.check_ip(ip4("10.200.30.40")), ThreatVerdict::Matched { block: true });
    assert_eq!(manager.check_ip(ip4("11.0.0.1")), ThreatVerdict::Clear);
}

#[test]
fn test_autobahn_challenge_gate() {
    let config = create_test_config();
    let mut autobahn = AutoBahn::new(config);
    let ip = ip4("6.7.8.9");

    autobahn.record_violation(ip, 0);
    autobahn.record_violation(ip, 1);
    autobahn.record_violation(ip, 2);

    match autobahn.check_connection(ip, 10) {
        ssh_chat::autobahn::ConnectionCheck::Challenge { violation_count } => {
            assert_eq!(violation_count, 3);
        }
        other => panic!("expected a challenge, got {:?}", other),
    }
}

#[test]
fn test_autobahn_cleanup_old_records() {
    let config = create_test_config();
    let mut autobahn = AutoBahn::new(config);
    let ip = ip4("6.7.8.10");

    autobahn.record_violation(ip, 1_000);
    autobahn.cleanup_old_records(500, 10_000);
    assert_eq!(autobahn.get_violation_count(ip), 0);
}
