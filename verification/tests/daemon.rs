use kairos::address::{AddrMap, IpAddr};
use kairos::clock::ClockError;
use kairos::daemon::capture::{
    after_capture, next_step, CaptureCounts, Captured, LoopStep, Reaction,
};
use kairos::daemon::config::{
    default_count, default_log, default_open_secs, default_skew, default_ssh_port, default_window,
    path_to_read, redacted_user, resolve_user, validate, Config, ConfigError, Contents, RawConfig, RawUser, User,
};
use kairos::daemon::firewall::{close_rule, ipv4_text, open_rule, set_for};
use kairos::daemon::knock::{KnockResult, KnockTracker};
use kairos::daemon::packet::parse_udp;
use kairos::daemon::store::ReplayStore;
use kairos::{current_window, derive_sequence, SecretKey};

fn inline_user(name: &str, secret: &str) -> RawUser {
    RawUser {
        name: name.into(),
        secret: Some(secret.into()),
        secret_file: None,
        secret_credential: None,
    }
}

fn file_user(name: &str, path: &str) -> RawUser {
    RawUser {
        name: name.into(),
        secret: None,
        secret_file: Some(path.into()),
        secret_credential: None,
    }
}

fn credential_user(name: &str, credential: &str) -> RawUser {
    RawUser {
        name: name.into(),
        secret: None,
        secret_file: None,
        secret_credential: Some(credential.into()),
    }
}

fn raw(users: Vec<RawUser>) -> RawConfig {
    RawConfig {
        window_secs: default_window(),
        knock_count: default_count(),
        skew: default_skew(),
        open_secs: default_open_secs(),
        interface: "eth0".into(),
        ssh_port: default_ssh_port(),
        log_filter: default_log(),
        replay_db: Some("/var/lib/kairosd/replay.db".into()),
        users,
    }
}

fn refusal(raw: RawConfig) -> ConfigError {
    let contents = raw.users.iter().map(|_| Contents::NotNeeded).collect();
    match Config::from_raw(raw, contents) {
        Ok(_) => panic!("accepted"),
        Err(e) => e,
    }
}

#[test]
fn config_is_accepted_whole() {
    let users = vec![
        inline_user("alice", "0011223344556677"),
        file_user("bob", "/run/secrets/bob"),
        credential_user("carol", "carol-key"),
    ];
    let contents = vec![
        Contents::NotNeeded,
        Contents::Text(" bob's passphrase\n"),
        Contents::Text("ffffffffffffffffffffffffffffffff"),
    ];
    let config = match Config::from_raw(raw(users), contents) {
        Ok(config) => config,
        Err(e) => panic!("{}", e.message()),
    };
    assert_eq!(config.window_secs, 30);
    assert_eq!(config.knock_count, 4);
    assert_eq!(config.skew, 1);
    assert_eq!(config.open_secs, 60);
    assert_eq!(config.interface, "eth0");
    assert_eq!(config.ssh_port, 22);
    assert_eq!(config.log_filter, "info");
    assert_eq!(config.replay_db, Some("/var/lib/kairosd/replay.db".to_string()));
    assert_eq!(config.users.len(), 3);
    assert_eq!(config.users[0].name, "alice");
    assert_eq!(config.users[0].secret.as_bytes(), &[0x00, 0x11, 0x22, 0x33, 0x44, 0x55, 0x66, 0x77]);
    assert!(config.users[0].has_short_secret());
    assert_eq!(config.users[1].secret.as_bytes(), b"bob's passphrase");
    assert!(!config.users[1].has_short_secret());
    assert_eq!(config.users[2].secret.as_bytes(), &[0xff; 16]);
    assert!(!config.users[2].has_short_secret());
}

#[test]
fn config_is_refused_for_its_numbers() {
    let mut c = raw(vec![inline_user("alice", "long enough")]);
    c.window_secs = 0;
    assert_eq!(refusal(c).message(), "window_secs must be positive");
    let mut c = raw(vec![inline_user("alice", "long enough")]);
    c.knock_count = 1;
    assert_eq!(refusal(c).message(), "knock_count must be at least 2");
    let mut c = raw(vec![inline_user("alice", "long enough")]);
    c.knock_count = 17;
    assert_eq!(refusal(c).message(), "knock_count exceeds MAX_KNOCK_COUNT (16)");
    for count in [2, 16] {
        let mut c = raw(vec![inline_user("alice", "long enough")]);
        c.knock_count = count;
        assert!(validate(&c).is_ok());
    }
}

#[test]
fn config_is_refused_for_its_users() {
    assert_eq!(refusal(raw(vec![])).message(), "no users defined in config");
    let twice = vec![
        inline_user("alice", "long enough"),
        inline_user("bob", "long enough"),
        inline_user("bob", "short"),
        inline_user("alice", "long enough"),
    ];
    assert_eq!(refusal(raw(twice)).message(), "duplicate user name 'bob'");
}

#[test]
fn first_refused_user_counts() {
    let users = vec![
        inline_user("alice", "long enough"),
        file_user("bob", "/missing"),
        inline_user("carol", "short"),
    ];
    let e = refusal(raw(users));
    assert_eq!(e, ConfigError::UnreadableFile { user: "bob".into(), path: "/missing".into() });
    assert_eq!(e.message(), "user 'bob': reading secret_file '/missing'");
}

#[test]
fn users_need_exactly_one_secret() {
    let none = RawUser { name: "eve".into(), secret: None, secret_file: None, secret_credential: None };
    assert_eq!(path_to_read(&none), None);
    assert_eq!(
        refusal(raw(vec![none])).message(),
        "user 'eve': one of 'secret', 'secret_file', or 'secret_credential' is required"
    );
    let two = RawUser {
        name: "eve".into(),
        secret: Some("long enough".into()),
        secret_file: Some("/x".into()),
        secret_credential: None,
    };
    assert_eq!(path_to_read(&two), None);
    assert_eq!(
        refusal(raw(vec![two])).message(),
        "user 'eve': only one of 'secret', 'secret_file', or 'secret_credential' may be set"
    );
}

#[test]
fn short_secrets_are_refused() {
    assert_eq!(
        refusal(raw(vec![inline_user("eve", "six666")])).message(),
        "user 'eve': secret is only 6 bytes (minimum 7)"
    );
    assert_eq!(
        refusal(raw(vec![inline_user("eve", "four")])).message(),
        "user 'eve': secret is only 4 bytes (minimum 7)"
    );
    // Twelve digits are six bytes.
    assert_eq!(
        refusal(raw(vec![inline_user("eve", "0123456789ab")])).message(),
        "user 'eve': secret is only 6 bytes (minimum 7)"
    );
    assert!(resolve_user(inline_user("eve", "seven77"), Contents::NotNeeded).is_ok());
    let runner = resolve_user(inline_user("ci-runner", "68756e74657232"), Contents::NotNeeded);
    let runner = runner.ok().unwrap();
    assert_eq!(runner.secret.as_bytes(), b"hunter2");
    assert!(runner.has_short_secret());
}

#[test]
fn credentials_have_their_place() {
    let path = "/run/credentials/kairosd.service/alice-key";
    assert_eq!(path_to_read(&credential_user("alice", "alice-key")), Some(path.to_string()));
    assert_eq!(path_to_read(&credential_user("alice", "/abs")), Some("/abs".to_string()));
    assert_eq!(path_to_read(&file_user("alice", "a/b")), Some("a/b".to_string()));
    assert_eq!(path_to_read(&inline_user("alice", "x")), None);
    let e = match resolve_user(credential_user("alice", "alice-key"), Contents::Unreadable) {
        Ok(_) => panic!("accepted"),
        Err(e) => e,
    };
    assert_eq!(
        e.message(),
        "user 'alice': reading systemd credential 'alice-key' from \
         '/run/credentials/kairosd.service/alice-key'"
    );
}

#[test]
fn shown_user_hides_the_secret() {
    let user = User { name: "a\"b".into(), secret: SecretKey::from_bytes(b"secret".to_vec()) };
    assert_eq!(user.debug_text(), "User { name: \"a\\\"b\", secret: SecretKey([redacted]) }");
    assert_eq!(redacted_user("\"a\""), "User { name: \"a\", secret: SecretKey([redacted]) }");
}

fn ethernet(ethertype: u16, payload: &[u8]) -> Vec<u8> {
    let mut frame = vec![0u8; 12];
    frame.extend_from_slice(&ethertype.to_be_bytes());
    frame.extend_from_slice(payload);
    frame
}

fn udp(port: u16) -> Vec<u8> {
    let mut datagram = vec![0x12, 0x34];
    datagram.extend_from_slice(&port.to_be_bytes());
    datagram.extend_from_slice(&[0, 9, 0, 0, 0]);
    datagram
}

fn ipv4(header_words: u8, total: u16, protocol: u8, payload: &[u8]) -> Vec<u8> {
    let mut packet = vec![0x40 | header_words, 0];
    packet.extend_from_slice(&total.to_be_bytes());
    packet.extend_from_slice(&[0, 0, 0, 0, 64, protocol, 0, 0]);
    packet.extend_from_slice(&[10, 0, 0, 1, 10, 0, 0, 2]);
    packet.resize(20.max(header_words as usize * 4), 0);
    packet.extend_from_slice(payload);
    packet
}

fn ipv6(length: u16, next: u8, payload: &[u8]) -> Vec<u8> {
    let mut packet = vec![0x60, 0, 0, 0];
    packet.extend_from_slice(&length.to_be_bytes());
    packet.extend_from_slice(&[next, 64]);
    packet.extend_from_slice(&[0xfe, 0x80, 0, 0, 0, 0, 0, 0, 0, 0, 0, 0, 0, 0, 0, 0x17]);
    packet.extend_from_slice(&[0; 16]);
    packet.extend_from_slice(payload);
    packet
}

#[test]
fn udp_over_ipv4_is_read() {
    let expected = Some((IpAddr::V4(0x0a00_0001), 40000));
    assert_eq!(parse_udp(&ethernet(0x0800, &ipv4(5, 29, 17, &udp(40000)))), expected);
    // With options.
    assert_eq!(parse_udp(&ethernet(0x0800, &ipv4(7, 37, 17, &udp(40000)))), expected);
    // A header length below the fixed header counts as that.
    assert_eq!(parse_udp(&ethernet(0x0800, &ipv4(0, 29, 17, &udp(40000)))), expected);
}

#[test]
fn udp_over_ipv6_is_read() {
    let source = 0xfe80_0000_0000_0000_0000_0000_0000_0017;
    assert_eq!(
        parse_udp(&ethernet(0x86dd, &ipv6(9, 17, &udp(1024)))),
        Some((IpAddr::V6(source), 1024))
    );
    assert_eq!(parse_udp(&ethernet(0x86dd, &ipv6(9, 6, &udp(1024)))), None);
    assert_eq!(parse_udp(&ethernet(0x86dd, &ipv6(7, 17, &udp(1024)))), None);
}

#[test]
fn other_frames_are_passed_over() {
    assert_eq!(parse_udp(&[]), None);
    assert_eq!(parse_udp(&[0; 13]), None);
    assert_eq!(parse_udp(&ethernet(0x0806, &ipv4(5, 29, 17, &udp(1)))), None);
    assert_eq!(parse_udp(&ethernet(0x0800, &ipv4(5, 29, 6, &udp(1)))), None);
    assert_eq!(parse_udp(&ethernet(0x0800, &ipv4(5, 29, 17, &[0; 7]))), None);
    assert_eq!(parse_udp(&ethernet(0x0800, &ipv4(5, 27, 17, &udp(1)))), None);
    assert_eq!(parse_udp(&ethernet(0x0800, &[0x45; 19])), None);
    assert_eq!(parse_udp(&ethernet(0x86dd, &[0x60; 39])), None);
}

#[test]
fn first_bytes_of_a_frame_suffice() {
    let mut payload = udp(5555);
    payload.extend_from_slice(&[0xaa; 200]);
    let frame = ethernet(0x0800, &ipv4(15, 269, 17, &payload));
    assert_eq!(parse_udp(&frame), Some((IpAddr::V4(0x0a00_0001), 5555)));
    assert_eq!(parse_udp(&frame[..82]), parse_udp(&frame));
    assert_eq!(parse_udp(&frame[..81]), None);
}

#[test]
fn rules_name_set_and_timeout() {
    let v4 = IpAddr::V4(0x0a00_0001);
    let v6 = IpAddr::V6(1);
    assert_eq!(set_for(&v4), "kairos_allowed_v4");
    assert_eq!(set_for(&v6), "kairos_allowed_v6");
    assert_eq!(
        open_rule(&v4, "", 60),
        "add element inet kairos kairos_allowed_v4 { 10.0.0.1 timeout 60s }"
    );
    assert_eq!(
        open_rule(&v6, "::1", 3600),
        "add element inet kairos kairos_allowed_v6 { ::1 timeout 3600s }"
    );
    assert_eq!(
        close_rule(&v4, ""),
        "delete element inet kairos kairos_allowed_v4 { 10.0.0.1 }"
    );
    assert_eq!(
        close_rule(&v6, "::1"),
        "delete element inet kairos kairos_allowed_v6 { ::1 }"
    );
}

#[test]
fn ipv4_addresses_are_written_with_dots() {
    assert_eq!(ipv4_text(0), "0.0.0.0");
    assert_eq!(ipv4_text(0xffff_ffff), "255.255.255.255");
    assert_eq!(ipv4_text(0xc0a8_010a), "192.168.1.10");
    assert_eq!(ipv4_text(0x0100_0001), "1.0.0.1");
    // Alike but for the dots.
    assert_ne!(ipv4_text(0x0c01_0101), ipv4_text(0x0115_0101));
}

#[test]
fn only_a_failed_capture_ends_the_loop() {
    assert!(after_capture(Captured::Frame));
    assert!(after_capture(Captured::Timeout));
    assert!(!after_capture(Captured::Failure));
}

#[test]
fn shutdown_comes_before_reload() {
    assert_eq!(next_step(true, true), LoopStep::Stop);
    assert_eq!(next_step(true, false), LoopStep::Stop);
    assert_eq!(next_step(false, true), LoopStep::RefuseReload);
    assert_eq!(next_step(false, false), LoopStep::Capture);
}

fn config() -> Config {
    let users = vec![inline_user("alice", "capture-secret")];
    match Config::from_raw(raw(users), vec![Contents::NotNeeded]) {
        Ok(config) => config,
        Err(e) => panic!("{}", e.message()),
    }
}

#[test]
fn reactions_fit_results() {
    let config = config();
    let mut counts = CaptureCounts::new();
    assert_eq!(
        counts.react(KnockResult::Partial { user: "alice".into(), progress: 2, total: 4 }, &config),
        Reaction::Progress { user: "alice".into(), progress: 2, total: 4 }
    );
    assert_eq!(
        counts.react(KnockResult::Complete { user: "alice".into() }, &config),
        Reaction::OpenFirewall { user: "alice".into(), secs: 60 }
    );
    assert_eq!(counts.react(KnockResult::Unrelated, &config), Reaction::Ignore);
    assert_eq!(counts.refused, 0);
    for i in 1..=200u64 {
        assert_eq!(
            counts.react(KnockResult::Mismatch, &config),
            Reaction::Denied { alert: i == 100 || i == 200 }
        );
    }
    assert_eq!(counts.refused, 200);
}

#[test]
fn frames_are_counted() {
    let mut counts = CaptureCounts::new();
    assert!(counts.metrics_are_due());
    let frame = ethernet(0x0800, &ipv4(5, 29, 17, &udp(40000)));
    assert_eq!(counts.take_frame(&frame), Some((IpAddr::V4(0x0a00_0001), 40000)));
    assert_eq!(counts.packets, 1);
    assert_eq!(counts.take_frame(&frame[..20]), None);
    assert_eq!(counts.packets, 1);
    assert!(!counts.metrics_are_due());
    counts.packets = 20_000;
    assert!(counts.metrics_are_due());
}

#[test]
fn knock_of_the_present_window_opens_the_firewall() {
    let config = config();
    let mut counts = CaptureCounts::new();
    let mut tracker = KnockTracker::new();
    let mut store = ReplayStore::in_memory(config.window_secs);
    let src = IpAddr::V4(9);
    let window = current_window(config.window_secs).unwrap();
    let ports = derive_sequence(b"capture-secret", window, config.knock_count);
    let mut last = Reaction::Ignore;
    for port in ports {
        last = counts.handle_packet(&mut tracker, src, port, &config, &mut store).unwrap();
    }
    assert_eq!(last, Reaction::OpenFirewall { user: "alice".into(), secs: 60 });
    assert!(store.is_used("alice", window).unwrap());
}

#[test]
fn addresses_of_both_families_are_kept_apart() {
    let mut map: AddrMap<u8> = AddrMap::new();
    map.insert(IpAddr::V4(1), 4);
    map.insert(IpAddr::V6(1), 6);
    assert_eq!(map.len(), 2);
    assert_eq!(map.get(IpAddr::V4(1)), Some(&4));
    assert_eq!(map.get(IpAddr::V6(1)), Some(&6));
    let mut keys = map.keys();
    keys.sort_by_key(|k| matches!(k, IpAddr::V6(_)));
    assert_eq!(keys, vec![IpAddr::V4(1), IpAddr::V6(1)]);
    assert_eq!(map.remove(IpAddr::V4(1)), Some(4));
    assert_eq!(map.remove(IpAddr::V4(1)), None);
    assert_eq!(map.get(IpAddr::V6(1)), Some(&6));
}

#[test]
fn packets_are_handled_at_given_times() {
    let config = config();
    let mut counts = CaptureCounts::new();
    let mut tracker = KnockTracker::new();
    let mut store = ReplayStore::in_memory(config.window_secs);
    let src = IpAddr::V4(9);
    let failed = Err(ClockError::BeforeEpoch);
    // The client's clock is one window behind.
    let ports = derive_sequence(b"capture-secret", 99, config.knock_count);
    assert_eq!(
        counts.handle_packet_at(&mut tracker, src, ports[0], &config, &mut store, failed, 0, Ok(0)),
        Err(ClockError::BeforeEpoch)
    );
    assert!(!tracker.is_tracking(src));
    let mut last = Ok(Reaction::Ignore);
    for port in &ports {
        let time = Ok(100 * 30);
        last = counts
            .handle_packet_at(&mut tracker, src, *port, &config, &mut store, time, 0, time);
    }
    assert_eq!(last, Ok(Reaction::OpenFirewall { user: "alice".into(), secs: 60 }));
    for port in &ports {
        let time = Ok(100 * 30 + 29);
        last = counts
            .handle_packet_at(&mut tracker, src, *port, &config, &mut store, time, 1, failed);
    }
    assert_eq!(last, Ok(Reaction::Denied { alert: false }));
    assert_eq!(counts.refused, 1);
}
