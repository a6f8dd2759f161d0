use ssh_chat::admission::admission_check;
use ssh_chat::admission::AdmissionDecision;
use ssh_chat::autobahn::AutoBahn;
use ssh_chat::ban::BanManager;
use ssh_chat::config::AutoBahnConfig;
use ssh_chat::config::GeoIpConfig;
use ssh_chat::config::GeoIpMode;
use ssh_chat::config::ThreatAction;
use ssh_chat::config::ThreatListsConfig;
use ssh_chat::console::parse_command;
use ssh_chat::console::parse_duration;
use ssh_chat::console::Command;
use ssh_chat::console::ConsoleState;
use ssh_chat::console::KeyInput;
use ssh_chat::console::NormalKeyOutcome;
use ssh_chat::geoip::GeoIpFilter;
use ssh_chat::ip::format_ip;
use ssh_chat::ip::parse_cidr;
use ssh_chat::ip::parse_ip_str;
use ssh_chat::jsontext::from_json;
use ssh_chat::jsontext::to_json;
use ssh_chat::threats::ThreatListManager;
use ssh_chat::types::BanDuration;

#[test]
fn test_parse_duration() {
    assert!(matches!(parse_duration("permanent"), Ok(BanDuration::Permanent)));
    assert!(matches!(parse_duration("perm"), Ok(BanDuration::Permanent)));
    assert!(matches!(parse_duration("30m"), Ok(BanDuration::Minutes(30))));
    assert!(matches!(parse_duration("2h"), Ok(BanDuration::Hours(2))));
    assert!(matches!(parse_duration("7d"), Ok(BanDuration::Days(7))));
    assert!(parse_duration("invalid").is_err());
    assert!(parse_duration("30x").is_err());
}

#[test]
fn test_parse_duration_case() {
    assert!(matches!(parse_duration("PERM"), Ok(BanDuration::Permanent)));
    assert!(matches!(parse_duration("Permanent"), Ok(BanDuration::Permanent)));
    assert!(parse_duration("30M").is_err());
    assert!(parse_duration("m").is_err());
    assert!(parse_duration("").is_err());
}

#[test]
fn test_parse_command_grammar() {
    match parse_command("kick alice too many words").unwrap() {
        Command::Kick { target, reason } => {
            assert_eq!(target, "alice");
            assert_eq!(reason.unwrap(), "too many words");
        }
        _ => panic!("expected a kick"),
    }

    match parse_command("/ban 1.2.3.4 30m spam and such").unwrap() {
        Command::Ban { target, duration, reason } => {
            assert_eq!(target, "1.2.3.4");
            assert!(matches!(duration, BanDuration::Minutes(30)));
            assert_eq!(reason.unwrap(), "spam and such");
        }
        _ => panic!("expected a ban"),
    }

    match parse_command("  unban   10.0.0.1  ").unwrap() {
        Command::Unban { ip } => assert_eq!(ip, "10.0.0.1"),
        _ => panic!("expected an unban"),
    }

    assert!(parse_command("").is_err());
    assert!(parse_command("kick").is_err());
    assert!(parse_command("ban bob").is_err());
    assert!(parse_command("ban bob forever").is_err());
    assert!(parse_command("shout hello").is_err());
}

#[test]
fn test_console_state_machine() {
    let mut st = ConsoleState::new();
    assert_eq!(st.handle_normal_input(KeyInput::Char('x')), NormalKeyOutcome::Stay);
    assert_eq!(st.handle_normal_input(KeyInput::Char('q')), NormalKeyOutcome::Quit);
    assert_eq!(st.handle_normal_input(KeyInput::CtrlC), NormalKeyOutcome::Quit);
    assert_eq!(st.handle_normal_input(KeyInput::Char(':')), NormalKeyOutcome::EnterCommandMode);
    assert!(st.command_mode);

    for c in "kick alice".chars() {
        assert!(st.handle_command_input(KeyInput::Char(c)).is_none());
    }
    assert!(st.handle_command_input(KeyInput::Backspace).is_none());
    assert!(st.handle_command_input(KeyInput::Char('e')).is_none());
    let submitted = st.handle_command_input(KeyInput::Enter).unwrap();
    assert_eq!(submitted, "kick alice");
    assert!(!st.command_mode);

    // The history serves the line back.
    st.handle_normal_input(KeyInput::Char(':'));
    assert!(st.handle_command_input(KeyInput::Up).is_none());
    assert_eq!(st.command_buffer, "kick alice");
    assert!(st.handle_command_input(KeyInput::Down).is_none());
    assert_eq!(st.command_buffer, "");
    assert!(st.handle_command_input(KeyInput::Esc).is_none());
    assert!(!st.command_mode);

    // A blank line submits nothing.
    st.handle_normal_input(KeyInput::Char(':'));
    st.handle_command_input(KeyInput::Char(' '));
    assert!(st.handle_command_input(KeyInput::Enter).is_none());
}

#[test]
fn test_ip_text_round_trips() {
    for text in ["1.2.3.4", "0.0.0.0", "255.255.255.255", "192.168.1.100"] {
        let code = parse_ip_str(text).unwrap();
        assert_eq!(format_ip(code), *text);
    }
    for text in ["0:0:0:0:0:0:0:1", "2001:db8:0:0:0:0:0:1", "fe80:0:0:0:0:0:0:9"] {
        let code = parse_ip_str(text).unwrap();
        assert_eq!(format_ip(code), *text);
    }
    // Uppercase and padded groups read, and render canonically.
    let padded = parse_ip_str("2001:0DB8:0000:0000:0000:0000:0000:0001").unwrap();
    assert_eq!(format_ip(padded), "2001:db8:0:0:0:0:0:1");

    assert!(parse_ip_str("256.1.1.1").is_none());
    assert!(parse_ip_str("01.2.3.4").is_none());
    assert!(parse_ip_str("1.2.3").is_none());
    assert!(parse_ip_str("nonsense").is_none());
    assert!(parse_ip_str("1:2:3").is_none());
}

#[test]
fn test_compressed_ipv6_forms() {
    // A compressed address names the same code as its full form.
    assert_eq!(parse_ip_str("::1"), parse_ip_str("0:0:0:0:0:0:0:1"));
    assert_eq!(parse_ip_str("2001:db8::1"), parse_ip_str("2001:db8:0:0:0:0:0:1"));
    assert_eq!(parse_ip_str("1::2"), parse_ip_str("1:0:0:0:0:0:0:2"));
    assert_eq!(parse_ip_str("1:2:3:4:5:6:7::"), parse_ip_str("1:2:3:4:5:6:7:0"));
    assert_eq!(parse_ip_str("::"), parse_ip_str("0:0:0:0:0:0:0:0"));
    // Rendering is always the canonical full form.
    assert_eq!(format_ip(parse_ip_str("2001:db8::1").unwrap()), "2001:db8:0:0:0:0:0:1");

    assert!(parse_ip_str("1::2::3").is_none());
    assert!(parse_ip_str(":::").is_none());
    assert!(parse_ip_str("1:2:3:4:5:6:7:8::").is_none());
    assert!(parse_ip_str("::12345").is_none());
}

#[test]
fn test_cidr_membership() {
    let net = {
        let s = "10.0.0.0/8";
        parse_cidr(s, 0, s.len()).unwrap()
    };
    assert!(net.contains(parse_ip_str("10.1.2.3").unwrap()));
    assert!(!net.contains(parse_ip_str("11.0.0.1").unwrap()));
    assert!(!net.contains(parse_ip_str("0:0:0:0:0:0:0:1").unwrap()));

    let v6net = {
        let s = "2001:db8:0:0:0:0:0:0/32";
        parse_cidr(s, 0, s.len()).unwrap()
    };
    assert!(v6net.contains(parse_ip_str("2001:db8:1:2:3:4:5:6").unwrap()));
    assert!(!v6net.contains(parse_ip_str("2001:db9:0:0:0:0:0:1").unwrap()));

    let bare = {
        let s = "9.9.9.9";
        parse_cidr(s, 0, s.len()).unwrap()
    };
    assert!(bare.contains(parse_ip_str("9.9.9.9").unwrap()));
    assert!(!bare.contains(parse_ip_str("9.9.9.8").unwrap()));

    let s = "10.0.0.0/33";
    assert!(parse_cidr(s, 0, s.len()).is_none());
}

#[test]
fn test_ban_file_round_trip() {
    let a = parse_ip_str("10.0.0.1").unwrap();
    let b = parse_ip_str("2001:db8:0:0:0:0:0:7").unwrap();
    let mut m = BanManager::new_empty();
    m.ban_permanent(a, "said \"ha\\ha\"".to_string(), 5_000);
    m.ban_temporary(b, 60_000, "probe\n".to_string(), 6_000);

    let text = to_json(&m);
    let back = from_json(text.as_str()).unwrap();

    assert!(back.is_banned(a, 1_000_000_000));
    assert!(back.is_banned(b, 7_000));
    assert!(!back.is_banned(b, 66_001));
    let ea = back.check_ban(a, 0).unwrap();
    assert_eq!(ea.reason, "said \"ha\\ha\"");
    assert_eq!(ea.banned_at_ms, 5_000);
    let eb = back.check_ban(b, 7_000).unwrap();
    assert_eq!(eb.reason, "probe\n");
    assert_eq!(eb.expires_at_ms, Some(66_000));

    assert!(from_json("{}").is_err());
    assert!(from_json("").is_err());
    let empty = to_json(&BanManager::new_empty());
    assert_eq!(from_json(empty.as_str()).unwrap().entry_count(), 0);
}

fn test_autobahn_config(enabled: bool) -> AutoBahnConfig {
    AutoBahnConfig {
        enabled,
        delay_on_first_violation: 100,
        delay_on_second_violation: 500,
        delay_on_third_violation: 2000,
        delay_on_fourth_violation: 5000,
        challenge_after_violations: 3,
        challenge_timeout_seconds: 30,
        connection_delay_base_ms: 100,
        connection_delay_multiplier_milli: 2000,
        connection_delay_max_ms: 60000,
    }
}

#[test]
fn test_admission_order() {
    let mut bans = BanManager::new_empty();
    let banned_ip = parse_ip_str("198.51.100.1").unwrap();
    bans.ban_permanent(banned_ip, "gone".to_string(), 0);

    let geo = GeoIpFilter::new(GeoIpConfig {
        enabled: true,
        database_path: "countries.mmdb".to_string(),
        mode: GeoIpMode::Blacklist,
        blocked_countries: vec!["XX".to_string()],
        allowed_countries: vec![],
        rejection_message: "not from here".to_string(),
    });
    let threats = ThreatListManager::new(ThreatListsConfig {
        enabled: false,
        update_interval_hours: 24,
        cache_dir: "cache".to_string(),
        action: ThreatAction::Block,
        sources: vec![],
    });
    let mut ab = AutoBahn::new(test_autobahn_config(false));

    // A banned address is refused whatever else holds.
    let d = admission_check(&bans, &geo, Some("US"), &threats, &mut ab, banned_ip, 1);
    assert!(matches!(d, AdmissionDecision::Reject { .. }));

    // A blocked country is refused.
    let clean_ip = parse_ip_str("198.51.100.2").unwrap();
    let d = admission_check(&bans, &geo, Some("XX"), &threats, &mut ab, clean_ip, 2);
    assert!(matches!(d, AdmissionDecision::Reject { .. }));

    // Everything clean proceeds at once with the throttler off.
    let d = admission_check(&bans, &geo, Some("US"), &threats, &mut ab, clean_ip, 3);
    assert!(matches!(
        d,
        AdmissionDecision::Proceed { initial_delay_ms: 0, step_delay_ms: 0 }
    ));
}

#[test]
fn test_geoip_disabled() {
    let config = GeoIpConfig {
        enabled: false,
        database_path: "nonexistent.mmdb".to_string(),
        mode: GeoIpMode::Blacklist,
        blocked_countries: vec!["CN".to_string()],
        allowed_countries: vec![],
        rejection_message: "Blocked".to_string(),
    };

    let filter = GeoIpFilter::new(config);
    assert!(filter.check_ip(None).is_ok());
    assert!(filter.check_ip(Some("CN")).is_ok());
}

#[test]
fn test_geoip_modes() {
    let black = GeoIpFilter::new(GeoIpConfig {
        enabled: true,
        database_path: "countries.mmdb".to_string(),
        mode: GeoIpMode::Blacklist,
        blocked_countries: vec!["CN".to_string()],
        allowed_countries: vec![],
        rejection_message: "Blocked".to_string(),
    });
    assert!(black.check_ip(Some("US")).is_ok());
    assert_eq!(black.check_ip(Some("CN")).unwrap_err(), "Blocked");
    assert!(black.check_ip(None).is_err());

    let white = GeoIpFilter::new(GeoIpConfig {
        enabled: true,
        database_path: "countries.mmdb".to_string(),
        mode: GeoIpMode::Whitelist,
        blocked_countries: vec![],
        allowed_countries: vec!["US".to_string(), "CA".to_string()],
        rejection_message: "Blocked".to_string(),
    });
    assert!(white.check_ip(Some("CA")).is_ok());
    assert_eq!(white.check_ip(Some("FR")).unwrap_err(), "Blocked");
}

#[test]
fn test_delay_saturates_at_max() {
    let ab = AutoBahn::new(test_autobahn_config(true));
    // 100 * 2^(attempts-1) crosses 60000 at the eleventh attempt.
    assert_eq!(ab.calculate_connection_delay(11), 60000);
    assert_eq!(ab.calculate_connection_delay(30), 60000);
}
