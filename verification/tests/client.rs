use kairos::address::IpAddr;
use kairos::client::command::{knock_request, KnockArgs, KnockRequest};
use kairos::client::config::{
    config_dir, config_dir_under, config_path, config_path_under, default_count, default_window,
    expand_tilde_in, expand_tilde_pub, host_secret_file, permission_warning, resolve_host,
    secrets_dir, secrets_dir_under, HostMap, RawConfig, RawDefaults, RawHostConfig,
};
use kairos::client::error::ClientError;
use kairos::client::init::{
    add_report, add_with, check_host_not_exists, generate_secret, host_entry, init_report,
    init_with, plan_add, plan_init, secret_of,
};
use kairos::client::knock::{
    plan_knock, plan_knock_at, plan_knock_in, prepare_knock, prepare_knock_at,
};
use kairos::clock::ClockError;
use kairos::paths::{join, join_text};
use kairos::{current_window, decode_secret, derive_sequence, SecretKey};

fn config_with(name: &str, host: RawHostConfig) -> RawConfig {
    let mut hosts = HostMap::new();
    hosts.insert(name.to_string(), host);
    RawConfig { defaults: RawDefaults { window_secs: 30, knock_count: 4 }, hosts }
}

fn host(secret_file: &str, window_secs: Option<u64>, knock_count: Option<usize>) -> RawHostConfig {
    RawHostConfig {
        hostname: "example.com".into(),
        secret_file: secret_file.into(),
        window_secs,
        knock_count,
    }
}

/// Reads a configuration as the program does.
fn parse(text: &str) -> RawConfig {
    let table: toml::Table = toml::from_str(text).unwrap();
    let number = |t: Option<&toml::Value>, key: &str| {
        t.and_then(|t| t.get(key)).map(|v| v.as_integer().unwrap())
    };
    let defaults = table.get("defaults");
    let mut hosts = HostMap::new();
    if let Some(list) = table.get("hosts").and_then(|h| h.as_table()) {
        for (name, h) in list {
            let entry = RawHostConfig {
                hostname: h["hostname"].as_str().unwrap().into(),
                secret_file: h["secret_file"].as_str().unwrap().into(),
                window_secs: number(Some(h), "window_secs").map(|n| n as u64),
                knock_count: number(Some(h), "knock_count").map(|n| n as usize),
            };
            hosts.insert(name.clone(), entry);
        }
    }
    RawConfig {
        defaults: RawDefaults {
            window_secs: number(defaults, "window_secs").map_or(default_window(), |n| n as u64),
            knock_count: number(defaults, "knock_count").map_or(default_count(), |n| n as usize),
        },
        hosts,
    }
}

fn key() -> SecretKey {
    SecretKey::from_bytes(b"a key".to_vec())
}

#[test]
fn parse_minimal_config() {
    let toml = r#"
[defaults]
window_secs = 30
knock_count = 4

[hosts.myserver]
hostname    = "example.com"
secret_file = "/tmp/test.key"
"#;
    let cfg = parse(toml);
    assert_eq!(cfg.defaults.window_secs, 30);
    assert_eq!(cfg.defaults.knock_count, 4);
    assert!(cfg.hosts.contains_key("myserver"));
    assert_eq!(cfg.hosts.get("myserver").unwrap().hostname, "example.com");
}

#[test]
fn parse_empty_config() {
    let cfg = parse("");
    assert_eq!(cfg.defaults.window_secs, kairos::DEFAULT_WINDOW_SECS);
    assert_eq!(cfg.defaults.knock_count, kairos::DEFAULT_KNOCK_COUNT);
    assert!(cfg.hosts.is_empty());
}

#[test]
fn host_overrides_defaults() {
    let toml = r#"
[defaults]
window_secs = 30
knock_count = 4

[hosts.myserver]
hostname    = "example.com"
secret_file = "/tmp/test.key"
knock_count = 6
"#;
    let cfg = parse(toml);
    assert_eq!(cfg.hosts.get("myserver").unwrap().knock_count, Some(6));
    assert_eq!(cfg.hosts.get("myserver").unwrap().window_secs, None);
}

#[test]
fn expand_tilde_works() {
    let expanded = expand_tilde_pub("~/foo/bar");
    assert!(!expanded.starts_with(b"~"));
}

#[test]
fn expand_tilde_no_tilde() {
    let expanded = expand_tilde_pub("/absolute/path");
    assert_eq!(expanded, b"/absolute/path");
}

#[test]
fn resolve_host_applies_overrides() {
    let toml = r#"
[defaults]
window_secs = 30
knock_count = 4

[hosts.myserver]
hostname    = "example.com"
secret_file = "/tmp/nonexistent.key"
knock_count = 6
"#;
    let cfg = parse(toml);
    // The secret could not be loaded: the error is about that, not the overrides.
    let err = match resolve_host(&cfg, "myserver", Some(60), Some(8), None) {
        Ok(_) => panic!("resolved"),
        Err(e) => e.message(),
    };
    assert!(err.contains("secret"), "unexpected error: {err}");
    assert_eq!(err, "loading secret for host 'myserver'");
    let host = resolve_host(&cfg, "myserver", Some(60), Some(8), Some(key())).ok().unwrap();
    assert_eq!((host.window_secs, host.knock_count), (60, 8));
}

#[test]
fn resolve_host_missing() {
    let cfg = parse("");
    let err = match resolve_host(&cfg, "nonexistent", None, None, Some(key())) {
        Ok(_) => panic!("resolved"),
        Err(e) => e.message(),
    };
    assert!(err.contains("not found"));
    assert_eq!(err, "host 'nonexistent' not found in config");
}

#[test]
fn host_comes_before_defaults() {
    let cfg = config_with("a", host("/k", Some(15), None));
    let resolved = resolve_host(&cfg, "a", None, None, Some(key())).ok().unwrap();
    assert_eq!(resolved.hostname, "example.com");
    assert_eq!(resolved.secret.as_bytes(), b"a key");
    assert_eq!((resolved.window_secs, resolved.knock_count), (15, 4));
    assert_eq!(host_secret_file(&cfg, "a"), Ok("/k".to_string()));
    assert_eq!(
        host_secret_file(&cfg, "b"),
        Err(ClientError::HostNotFound { name: "b".into() })
    );
    assert_eq!((default_window(), default_count()), (30, 4));
    let defaults = RawDefaults::default();
    assert_eq!((defaults.window_secs, defaults.knock_count), (30, 4));
}

#[test]
fn hosts_are_kept_by_name() {
    let mut hosts = HostMap::new();
    assert!(hosts.is_empty());
    hosts.insert("a".into(), host("/1", None, None));
    hosts.insert("b".into(), host("/2", None, None));
    hosts.insert("a".into(), host("/3", None, None));
    assert!(!hosts.is_empty());
    assert_eq!(hosts.get("a").unwrap().secret_file, "/3");
    assert_eq!(hosts.get("b").unwrap().secret_file, "/2");
    assert!(hosts.get("c").is_none());
}

#[test]
fn paths_are_joined() {
    assert_eq!(join(b"/home/a", b"x/y"), b"/home/a/x/y");
    assert_eq!(join(b"/home/a/", b"x"), b"/home/a/x");
    assert_eq!(join(b"/home/a", b"/etc"), b"/etc");
    assert_eq!(join(b"", b"x"), b"x");
    assert_eq!(join(b"/a", b""), b"/a/");
    assert_eq!(join_text("/a", "b"), "/a/b");
    assert_eq!(join_text("/a/", "b"), "/a/b");
    assert_eq!(join_text("/a", "/b"), "/b");
    assert_eq!(join_text("", "b"), "b");
}

#[test]
fn tilde_stands_for_home() {
    let home = || Some(b"/home/a".to_vec());
    assert_eq!(expand_tilde_in("~/x", home()), b"/home/a/x");
    assert_eq!(expand_tilde_in("~/", home()), b"/home/a/");
    assert_eq!(expand_tilde_in("~//etc", home()), b"/etc");
    assert_eq!(expand_tilde_in("~", home()), b"/home/a");
    assert_eq!(expand_tilde_in("~", None), b"~");
    assert_eq!(expand_tilde_in("", home()), b"");
    assert_eq!(expand_tilde_in("~b/x", home()), b"~b/x");
    assert_eq!(expand_tilde_in("x/~/y", home()), b"x/~/y");
    assert_eq!(expand_tilde_in("~/x", None), b"~/x");
    assert_eq!(expand_tilde_in("~/\u{fc}", home()), "/home/a/\u{fc}".as_bytes());
}

#[test]
fn config_is_looked_for_in_order() {
    let base = || Some(b"/home/a/.config".to_vec());
    let given = || Some(b"/given.toml".to_vec());
    let env = || Some("/env.toml".to_string());
    assert_eq!(config_path_under(given(), env(), base()), b"/given.toml");
    assert_eq!(config_path_under(None, env(), base()), b"/env.toml");
    assert_eq!(config_path_under(None, None, base()), b"/home/a/.config/kairos/config.toml");
    assert_eq!(config_path_under(None, None, None), b"~/.config/kairos/config.toml");
    assert_eq!(config_path(given(), env()), b"/given.toml");
    assert_eq!(config_path(None, env()), b"/env.toml");
    assert!(config_path(None, None).ends_with(b"/kairos/config.toml"));
}

#[test]
fn directories_are_under_the_config_directory() {
    assert_eq!(config_dir_under(Some(b"/c".to_vec())), b"/c/kairos");
    assert_eq!(config_dir_under(None), b"~/.config/kairos");
    assert_eq!(secrets_dir_under(Some(b"/c".to_vec())), b"/c/kairos/secrets");
    assert!(config_dir().ends_with(b"/kairos"));
    assert!(secrets_dir().ends_with(b"/kairos/secrets"));
}

#[test]
fn open_permissions_are_warned_about() {
    assert_eq!(permission_warning("/k", 0o100600), None);
    assert_eq!(permission_warning("/k", 0o700), None);
    assert_eq!(
        permission_warning("/k", 0o100644),
        Some("warning: secret file /k has group/world permissions (mode 0644)".to_string())
    );
    assert_eq!(
        permission_warning("/k", 0o4601),
        Some("warning: secret file /k has group/world permissions (mode 0601)".to_string())
    );
}

#[test]
fn entry_leaves_defaults_out() {
    assert_eq!(
        host_entry("a", "h.example", "/k", 4, 30),
        "\n[hosts.a]\nhostname    = \"h.example\"\nsecret_file = \"/k\"\n"
    );
    assert_eq!(
        host_entry("a", "h.example", "/k", 6, 60),
        "\n[hosts.a]\nhostname    = \"h.example\"\nsecret_file = \"/k\"\nknock_count = 6\nwindow_secs = 60\n"
    );
}

#[test]
fn new_secret_is_random_hex() {
    let a = generate_secret().unwrap();
    let b = generate_secret().unwrap();
    assert_eq!(a.len(), 64);
    assert_ne!(a, b);
    assert!(a.bytes().all(|c| c.is_ascii_digit() || (b'a'..=b'f').contains(&c)));
    let bytes = decode_secret(&a).unwrap();
    assert_eq!(bytes.len(), 32);
    let again: String = bytes.iter().map(|b| format!("{b:02x}")).collect();
    assert_eq!(again, a);
}

#[test]
fn drawn_secret_is_written_in_hex() {
    assert_eq!(secret_of(Ok(vec![0x00, 0xff, 0x3c])), Ok("00ff3c".to_string()));
    assert_eq!(secret_of(Ok(vec![])), Ok(String::new()));
    assert_eq!(
        secret_of(Err("no entropy".into())),
        Err(ClientError::NoRandomness { detail: "no entropy".into() })
    );
}

#[test]
fn init_plan_is_complete() {
    let base = Some(b"/c".to_vec());
    let plan = init_with("box", "h.example", 4, 60, b"/c.toml", base, "00ff".into());
    assert_eq!(plan.secret_path, b"/c/kairos/secrets/box.key");
    assert_eq!(plan.secret, "00ff");
    assert_eq!(
        plan.entry,
        "\n[hosts.box]\nhostname    = \"h.example\"\nsecret_file = \"/c/kairos/secrets/box.key\"\nwindow_secs = 60\n"
    );
    let lines = [
        "Secret saved to /c/kairos/secrets/box.key",
        "Host added to /c.toml",
        "",
        "--- Server setup ---",
        "Copy the secret to the server and add to kairosd config:",
        "",
        "  [[users]]",
        "  name        = \"box\"",
        "  secret_file = \"/path/to/box.key\"",
        "",
        "Secret (hex):",
        "  00ff",
        "",
        "--- SSH config ---",
        "Add to ~/.ssh/config:",
        "",
        "  Match host box exec \"kairos knock box\"",
        "      Hostname h.example",
        "",
    ];
    assert_eq!(plan.report, lines.join("\n"));
}

#[test]
fn add_plan_trims_the_secret() {
    let base = Some(b"/c".to_vec());
    let plan = add_with("box", "h.example", "  my phrase\n", 4, 30, b"/c.toml", base);
    assert_eq!(plan.secret_path, b"/c/kairos/secrets/box.key");
    assert_eq!(plan.secret, "my phrase");
    assert_eq!(decode_secret(&plan.secret), decode_secret("  my phrase\n"));
    let lines = [
        "Secret copied to /c/kairos/secrets/box.key",
        "Host added to /c.toml",
        "",
        "--- SSH config ---",
        "Add to ~/.ssh/config:",
        "",
        "  Match host box exec \"kairos knock box\"",
        "      Hostname h.example",
        "",
    ];
    assert_eq!(plan.report, lines.join("\n"));
}

#[test]
fn paths_that_are_no_text_are_shown_with_replacements() {
    let base = Some(b"/c\xff".to_vec());
    let plan = add_with("box", "h", "s", 4, 30, b"/\xfe.toml", base);
    assert_eq!(plan.secret_path, b"/c\xff/kairos/secrets/box.key");
    assert!(plan.report.starts_with(
        "Secret copied to /c\u{fffd}/kairos/secrets/box.key\nHost added to /\u{fffd}.toml\n"
    ));
}

#[test]
fn known_hosts_are_not_added_again() {
    let cfg = config_with("box", host("/k", None, None));
    let known = Err(ClientError::HostExists { name: "box".into() });
    assert_eq!(check_host_not_exists("box", Some(&cfg)), known);
    assert_eq!(check_host_not_exists("other", Some(&cfg)), Ok(()));
    assert_eq!(check_host_not_exists("box", None), Ok(()));
    let e = match plan_init("box", "h", 4, 30, b"/c.toml", Some(&cfg)) {
        Ok(_) => panic!("planned"),
        Err(e) => e,
    };
    assert_eq!(e.message(), "host 'box' already exists in config");
    assert!(plan_add("box", "h", "s", 4, 30, b"/c.toml", Some(&cfg)).is_err());
    let plan = plan_init("new", "h", 4, 30, b"/c.toml", Some(&cfg)).ok().unwrap();
    assert!(plan.secret_path.ends_with(b"/kairos/secrets/new.key"));
    assert!(plan.report.contains(&plan.secret));
    let plan = plan_add("new", "h", " s ", 4, 30, b"/c.toml", None).ok().unwrap();
    assert_eq!(plan.secret, "s");
}

fn args(host: Option<&str>, addr: Option<&str>, file: Option<&str>) -> KnockArgs {
    KnockArgs {
        host: host.map(String::from),
        host_addr: addr.map(String::from),
        secret_file: file.map(String::from),
        window_secs: None,
        knock_count: None,
    }
}

#[test]
fn knock_needs_a_host_or_an_address_with_a_secret() {
    assert_eq!(
        knock_request(args(Some("box"), None, None)),
        Ok(KnockRequest::Configured {
            name: "box".into(),
            window_override: None,
            count_override: None
        })
    );
    assert_eq!(
        knock_request(args(None, Some("1.2.3.4"), Some("/k"))),
        Ok(KnockRequest::Bare {
            addr: "1.2.3.4".into(),
            secret_file: "/k".into(),
            window_secs: 30,
            knock_count: 4
        })
    );
    let mut given = args(None, Some("1.2.3.4"), Some("/k"));
    given.window_secs = Some(10);
    given.knock_count = Some(3);
    assert_eq!(
        knock_request(given),
        Ok(KnockRequest::Bare {
            addr: "1.2.3.4".into(),
            secret_file: "/k".into(),
            window_secs: 10,
            knock_count: 3
        })
    );
    for (h, a, f) in [
        (None, None, None),
        (Some("box"), Some("1.2.3.4"), None),
        (Some("box"), None, Some("/k")),
        (Some("box"), Some("1.2.3.4"), Some("/k")),
        (None, Some("1.2.3.4"), None),
        (None, None, Some("/k")),
    ] {
        let e = knock_request(args(h, a, f)).unwrap_err();
        assert_eq!(e, ClientError::Usage);
        assert_eq!(
            e.message(),
            "usage: kairos knock <HOST>  or  kairos knock --host-addr <ADDR> --secret-file <PATH>"
        );
    }
}

#[test]
fn remaining_errors_have_messages() {
    assert_eq!(
        ClientError::ConfigNotFound { path: "/c.toml".into() }.message(),
        "config file not found: /c.toml\nUse 'kairos init' to create one, or use bare mode with \
         --host-addr and --secret-file."
    );
    assert_eq!(
        ClientError::NoRandomness { detail: "none".into() }.message(),
        "generating random secret: none"
    );
    assert_eq!(ClientError::WindowNotPositive.message(), "window_secs must be positive");
    assert_eq!(
        ClientError::TooManyKnocks { count: 17 }.message(),
        "count 17 exceeds MAX_KNOCK_COUNT (16)"
    );
    assert_eq!(
        ClientError::ClockBeforeEpoch.message(),
        "system clock is before the Unix epoch"
    );
}

#[test]
fn knock_that_cannot_be_planned_is_refused() {
    let key = SecretKey::from_bytes(b"hunter2".to_vec());
    let addr = IpAddr::V4(1);
    assert_eq!(prepare_knock(&addr, &key, 0, 4).err(), Some(ClientError::WindowNotPositive));
    assert_eq!(prepare_knock(&addr, &key, 0, 17).err(), Some(ClientError::WindowNotPositive));
    let too_many = Some(ClientError::TooManyKnocks { count: 17 });
    assert_eq!(prepare_knock(&addr, &key, 30, 17).err(), too_many);
    assert_eq!(prepare_knock_at(&addr, &key, 30, 17, Ok(0)).err(), too_many);
    let failing = Err(ClockError::BeforeEpoch);
    assert_eq!(
        prepare_knock_at(&addr, &key, 30, 4, failing).err(),
        Some(ClientError::ClockBeforeEpoch)
    );
    let plan = prepare_knock_at(&addr, &key, 30, 4, Ok(99_999 * 30)).unwrap();
    assert_eq!(plan.bind, "0.0.0.0:0");
    assert_eq!(plan.ports, vec![54312, 33364, 37441, 55533]);
    let before = current_window(30).unwrap();
    let plan = prepare_knock(&addr, &key, 30, 4).unwrap();
    let after = current_window(30).unwrap();
    assert!((before..=after).any(|w| derive_sequence(b"hunter2", w, 4) == plan.ports));
}

#[test]
fn knock_is_planned_for_family_and_window() {
    let key = SecretKey::from_bytes(b"hunter2".to_vec());
    let plan = plan_knock_in(&IpAddr::V4(1), &key, 99_999, 4);
    assert_eq!(plan.bind, "0.0.0.0:0");
    assert_eq!(plan.ports, vec![54312, 33364, 37441, 55533]);
    assert_eq!(plan_knock_in(&IpAddr::V6(1), &key, 1, 2).bind, "[::]:0");
    let plan = plan_knock_at(&IpAddr::V4(1), &key, 30, 4, Ok(99_999 * 30 + 29)).unwrap();
    assert_eq!(plan.ports, vec![54312, 33364, 37441, 55533]);
    let failed = plan_knock_at(&IpAddr::V4(1), &key, 30, 4, Err(ClockError::BeforeEpoch));
    assert_eq!(failed.err(), Some(ClockError::BeforeEpoch));
    let before = current_window(30).unwrap();
    let plan = plan_knock(&IpAddr::V4(1), &key, 30, 4).unwrap();
    let after = current_window(30).unwrap();
    assert!((before..=after).any(|w| derive_sequence(b"hunter2", w, 4) == plan.ports));
}

#[test]
fn entry_is_read_back() {
    let cfg = parse(&host_entry("box", "h.example", "/k", 6, 60));
    let host = resolve_host(&cfg, "box", None, None, Some(key())).ok().unwrap();
    assert_eq!(host.hostname, "h.example");
    assert_eq!((host.window_secs, host.knock_count), (60, 6));
    assert_eq!(host_secret_file(&cfg, "box"), Ok("/k".to_string()));
    let cfg = parse(&host_entry("box", "h.example", "/k", 4, 30));
    let host = resolve_host(&cfg, "box", None, None, Some(key())).ok().unwrap();
    assert_eq!((host.window_secs, host.knock_count), (30, 4));
}

#[test]
fn reports_are_written_out() {
    assert_eq!(
        add_report("b", "h", "/k", "/c"),
        "Secret copied to /k\nHost added to /c\n\n--- SSH config ---\nAdd to ~/.ssh/config:\n\n  \
         Match host b exec \"kairos knock b\"\n      Hostname h\n"
    );
    assert!(init_report("b", "h", "/k", "/c", "00").starts_with("Secret saved to /k\nHost added"));
    assert!(init_report("b", "h", "/k", "/c", "00").ends_with("exec \"kairos knock b\"\n      Hostname h\n"));
}
