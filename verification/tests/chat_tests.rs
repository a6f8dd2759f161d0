use ssh_chat::ban::BanManager;
use ssh_chat::hub::ChatServer;
use ssh_chat::ip::parse_ip_str;
use ssh_chat::session::format_event;
use ssh_chat::session::welcome_banner;
use ssh_chat::types::BanDuration;
use ssh_chat::types::Color;
use ssh_chat::types::LogLevel;
use ssh_chat::types::MessageEvent;
use ssh_chat::types::NoticeKind;

fn create_test_server() -> ChatServer {
    ChatServer::new(100, BanManager::new_empty())
}

fn ip4(s: &str) -> u128 {
    parse_ip_str(s).unwrap()
}

#[test]
fn test_add_client() {
    let mut server = create_test_server();
    let ip = ip4("127.0.0.1");

    let result = server.add_client("testuser".to_string(), ip, 1_000);
    assert!(result.is_ok());
    assert_eq!(server.client_count(), 1);
}

#[test]
fn test_duplicate_nickname() {
    let mut server = create_test_server();
    let ip = ip4("127.0.0.1");

    server.add_client("testuser".to_string(), ip, 1_000).unwrap();
    let result = server.add_client("testuser".to_string(), ip, 2_000);
    assert!(result.is_err());
}

#[test]
fn test_remove_client() {
    let mut server = create_test_server();
    let ip = ip4("127.0.0.1");

    let (client_id, _) = server.add_client("testuser".to_string(), ip, 1_000).unwrap();
    assert_eq!(server.client_count(), 1);

    server.remove_client(client_id, 2_000);
    assert_eq!(server.client_count(), 0);
}

#[test]
fn test_message_routing() {
    let mut server = create_test_server();
    let ip = ip4("127.0.0.1");
    let (client_id, _) = server.add_client("testuser".to_string(), ip, 1_000).unwrap();

    server.broadcast_chat(client_id, "Hello World".to_string(), 2_000).unwrap();

    let events = server.take_fanout();
    match events.last().unwrap() {
        MessageEvent::Chat(chat) => {
            assert_eq!(chat.text, "Hello World");
            assert_eq!(chat.nickname, "testuser");
        }
        _ => panic!("Expected Chat message"),
    }
}

#[test]
fn test_kick_client() {
    let mut server = create_test_server();
    let ip = ip4("127.0.0.1");
    let _ = server.add_client("testuser".to_string(), ip, 1_000).unwrap();

    assert_eq!(server.client_count(), 1);

    let result = server.kick_client("testuser", Some("test kick".to_string()), 2_000);
    assert!(result.is_ok());
    assert_eq!(server.client_count(), 0);

    let stats = server.get_stats();
    assert_eq!(stats.total_kicks, 1);
}

#[test]
fn test_ban_client() {
    let mut server = create_test_server();
    let ip = ip4("192.168.1.100");
    let _ = server.add_client("testuser".to_string(), ip, 1_000).unwrap();

    assert_eq!(server.client_count(), 1);

    let result =
        server.ban_client("testuser", BanDuration::Permanent, Some("test ban".to_string()), 2_000);
    assert!(result.is_ok());
    assert_eq!(server.client_count(), 0);

    let stats = server.get_stats();
    assert_eq!(stats.total_bans, 1);

    assert!(server.ban_manager().is_banned(ip, 3_000));
}

#[test]
fn test_ban_cascades_all_clients_of_ip() {
    let mut server = create_test_server();
    let shared = ip4("192.168.1.50");
    let other = ip4("192.168.1.51");
    server.add_client("alice".to_string(), shared, 1_000).unwrap();
    server.add_client("bob".to_string(), shared, 1_100).unwrap();
    server.add_client("carol".to_string(), other, 1_200).unwrap();

    server.ban_client("192.168.1.50", BanDuration::Permanent, None, 2_000).unwrap();

    assert_eq!(server.client_count(), 1);
    assert!(server.get_client_by_nickname("carol").is_some());
    assert!(server.get_client_by_nickname("alice").is_none());
    assert!(server.ban_manager().is_banned(shared, 9_999_999));
}

#[test]
fn test_ban_by_bare_ip_without_client() {
    let mut server = create_test_server();
    let ip = ip4("203.0.113.9");
    server.ban_client("203.0.113.9", BanDuration::Minutes(30), Some("scan".to_string()), 0)
        .unwrap();
    assert!(server.ban_manager().is_banned(ip, 1_000));
    // Thirty minutes on: the ban has lapsed.
    assert!(!server.ban_manager().is_banned(ip, 30 * 60 * 1000 + 1));
}

#[test]
fn test_unban_client() {
    let mut server = create_test_server();
    let ip = ip4("203.0.113.10");
    server.ban_client("203.0.113.10", BanDuration::Permanent, None, 0).unwrap();
    assert!(server.ban_manager().is_banned(ip, 1));

    assert!(server.unban_client("203.0.113.10", 2).is_ok());
    assert!(!server.ban_manager().is_banned(ip, 3));
    assert!(server.unban_client("203.0.113.10", 4).is_err());
    assert!(server.unban_client("not an address", 5).is_err());
}

#[test]
fn test_server_full() {
    let mut server = ChatServer::new(1, BanManager::new_empty());
    let ip = ip4("127.0.0.1");
    server.add_client("a".to_string(), ip, 0).unwrap();
    let r = server.add_client("b".to_string(), ip, 1);
    assert!(r.is_err());
}

#[test]
fn test_operator_log_stays_off_fanout() {
    let mut server = create_test_server();
    let ip = ip4("127.0.0.1");
    let (id, _) = server.add_client("alice".to_string(), ip, 0).unwrap();
    server.log_system(LogLevel::Warning, "observed".to_string(), Some(ip), 1);
    server.broadcast_chat(id, "hi".to_string(), 2).unwrap();

    let fanout = server.take_fanout();
    assert!(fanout.iter().all(|e| !matches!(e, MessageEvent::System(_))));
    // The fan-out renderer drops nothing that reaches it here.
    assert!(fanout.iter().all(|e| format_event(e).is_some()));

    let oplog = server.take_oplog();
    assert!(oplog.iter().any(|l| l.message == "observed"));
}

#[test]
fn test_format_event_rendering() {
    let chat = MessageEvent::Chat(ssh_chat::types::ChatMessage {
        timestamp_ms: 0,
        nickname: "alice".to_string(),
        text: "hi".to_string(),
        color: Color::Red,
        ip: ip4("127.0.0.1"),
    });
    assert_eq!(format_event(&chat).unwrap(), "\r\n\x1b[31m[alice]\x1b[0m hi\r\n");

    let notice = MessageEvent::Notice(ssh_chat::types::NoticeMessage {
        timestamp_ms: 0,
        kind: NoticeKind::Left,
        nickname: "bob".to_string(),
        ip: ip4("127.0.0.1"),
    });
    assert_eq!(format_event(&notice).unwrap(), "\r\n\x1b[90m* bob left\x1b[0m\r\n");

    let sys = MessageEvent::System(ssh_chat::types::SystemLog {
        timestamp_ms: 0,
        level: LogLevel::Info,
        message: "quiet".to_string(),
        ip: None,
        action: None,
    });
    assert!(format_event(&sys).is_none());
}

#[test]
fn test_welcome_banner_text() {
    assert_eq!(welcome_banner("alice"), "\r\n\x1b[1;32mWelcome to SSH Chat, alice!\x1b[0m\r\n");
}

#[test]
fn test_line_editor() {
    let mut server = create_test_server();
    let ip = ip4("127.0.0.1");
    let (id, _) = server.add_client("alice".to_string(), ip, 0).unwrap();
    let _ = server.take_fanout();

    let mut buf = String::new();
    let effects = ssh_chat::session::handle_data(&mut server, &mut buf, id, "hi\x08ey  \r", 1);
    // Three echoes, one erase, and the newline echo.
    assert!(effects.len() >= 4);

    let fanout = server.take_fanout();
    match fanout.last().unwrap() {
        MessageEvent::Chat(m) => assert_eq!(m.text, "hey"),
        _ => panic!("expected the submitted line"),
    }
}

#[test]
fn test_line_editor_ctrl_c() {
    let mut server = create_test_server();
    let ip = ip4("127.0.0.1");
    let (id, _) = server.add_client("alice".to_string(), ip, 0).unwrap();
    let _ = server.take_fanout();

    let mut buf = String::new();
    let effects = ssh_chat::session::handle_data(&mut server, &mut buf, id, "a\x03zzz", 1);
    assert!(matches!(effects.last().unwrap(), ssh_chat::session::SessionEffect::Close));
    // Nothing was submitted.
    assert!(server.take_fanout().is_empty());
}

#[test]
fn test_color_codes() {
    assert_eq!(Color::Red.to_ansi(), 31);
    assert_eq!(Color::Green.to_ansi(), 32);
    assert_eq!(Color::Yellow.to_ansi(), 33);
    assert_eq!(Color::Blue.to_ansi(), 34);
    assert_eq!(Color::Magenta.to_ansi(), 35);
    assert_eq!(Color::Cyan.to_ansi(), 36);
    let c = Color::random();
    let code = c.to_ansi();
    assert!((31..=36).contains(&code));
}

#[test]
fn test_ban_duration_to_duration() {
    assert_eq!(BanDuration::Permanent.to_duration(), None);
    assert_eq!(BanDuration::Minutes(30).to_duration(), Some(1800));
    assert_eq!(BanDuration::Hours(2).to_duration(), Some(7200));
    assert_eq!(BanDuration::Days(7).to_duration(), Some(604800));
}

#[test]
fn test_kick_by_address_and_identifier() {
    let mut server = create_test_server();
    let ip = ip4("10.9.8.7");
    let (id, _) = server.add_client("dana".to_string(), ip, 0).unwrap();

    // The hyphenated identifier names the client directly.
    let id_text = format!(
        "{:08x}-{:04x}-{:04x}-{:04x}-{:012x}",
        (id >> 96) as u32,
        ((id >> 80) & 0xffff) as u16,
        ((id >> 64) & 0xffff) as u16,
        ((id >> 48) & 0xffff) as u16,
        id & 0xffff_ffff_ffff
    );
    assert!(server.kick_client(&id_text, None, 1).is_ok());
    assert_eq!(server.client_count(), 0);

    // A literal address names whoever connects from it.
    server.add_client("erin".to_string(), ip, 2).unwrap();
    assert!(server.kick_client("10.9.8.7", None, 3).is_ok());
    assert_eq!(server.client_count(), 0);

    // An address nobody connects from resolves to no one, even when a
    // client's nickname spells that address.
    server.add_client("10.9.8.9".to_string(), ip, 4).unwrap();
    assert!(server.kick_client("10.9.8.9", None, 5).is_err());
    assert_eq!(server.client_count(), 1);
}

#[test]
fn test_handle_data_ignores_other_controls() {
    let mut server = create_test_server();
    let ip = ip4("127.0.0.1");
    let (id, _) = server.add_client("alice".to_string(), ip, 0).unwrap();
    let _ = server.take_fanout();

    let mut buf = String::new();
    // Bell and escape are dropped; the printable text survives.
    let _ = ssh_chat::session::handle_data(&mut server, &mut buf, id, "a\x07b\x1bc\r", 1);
    let fanout = server.take_fanout();
    match fanout.last().unwrap() {
        MessageEvent::Chat(m) => assert_eq!(m.text, "abc"),
        _ => panic!("expected the submitted line"),
    }
}
