use kairos::clock::{window_at, window_for, windows_around, windows_for, ClockError};
use kairos::hexcode::{is_hex, HexError};
use kairos::sequence::digest_ports;
use kairos::text::{decimal_text, octal4_text};
use kairos::{
    current_window, decode_secret, derive_sequence, windows_with_skew, SecretKey,
    DEFAULT_KNOCK_COUNT, DEFAULT_WINDOW_SECS, MAX_KNOCK_COUNT, PORT_MIN,
};

#[test]
fn sequence_is_deterministic() {
    let a = derive_sequence(b"hunter2", 99_999, 4);
    let b = derive_sequence(b"hunter2", 99_999, 4);
    assert_eq!(a, b);
}

#[test]
fn different_windows_produce_different_sequences() {
    let a = derive_sequence(b"secret", 1000, 4);
    let b = derive_sequence(b"secret", 1001, 4);
    assert_ne!(a, b);
}

#[test]
fn different_secrets_produce_different_sequences() {
    let a = derive_sequence(b"alice-secret", 42, 4);
    let b = derive_sequence(b"bob-secret", 42, 4);
    assert_ne!(a, b);
}

#[test]
fn all_ports_in_unprivileged_range() {
    for window in 0..50 {
        for port in derive_sequence(b"range-test", window, MAX_KNOCK_COUNT) {
            assert!(port >= PORT_MIN, "port {port} below PORT_MIN");
            assert!(port <= 65535);
        }
    }
}

#[test]
fn windows_with_skew_spans_correct_range() {
    let skew = 2u64;
    let windows: Vec<u64> = windows_with_skew(30, skew).unwrap();
    assert_eq!(windows.len(), 2 * skew as usize + 1);
}

#[test]
fn hex_decoding() {
    let raw = decode_secret("deadbeef").unwrap();
    assert_eq!(raw, vec![0xde, 0xad, 0xbe, 0xef]);
}

#[test]
fn passphrase_decoding() {
    let raw = decode_secret("  my secret phrase  ").unwrap();
    assert_eq!(raw, b"my secret phrase");
}

#[test]
fn secret_key_debug_is_redacted() {
    let k = SecretKey::from_bytes(vec![0xde, 0xad]);
    assert_eq!(k.debug_text(), "SecretKey([redacted])");
}

#[test]
fn secret_key_derives_same_sequence() {
    let key = SecretKey::from_bytes(b"test-key".to_vec());
    let direct = derive_sequence(b"test-key", 42, 4);
    let via_key = derive_sequence(key.as_bytes(), 42, 4);
    assert_eq!(direct, via_key);
}

#[test]
fn sequence_has_known_ports() {
    assert_eq!(derive_sequence(b"hunter2", 99_999, 4), vec![54312, 33364, 37441, 55533]);
    assert_eq!(derive_sequence(b"", 0, 2), vec![63349, 7178]);
    assert_eq!(derive_sequence(&[b'k'; 100], u64::MAX, 3), vec![30861, 35888, 37132]);
    assert_eq!(
        derive_sequence(b"range-test", 0, 16),
        vec![
            18453, 63952, 55621, 52062, 22550, 2477, 26013, 36645, 55475, 32087, 6949, 8879, 18843,
            38686, 3592, 33423
        ]
    );
}

#[test]
fn shorter_sequence_is_prefix_of_longer() {
    let long = derive_sequence(b"prefix", 7, 16);
    for count in 0..16 {
        assert_eq!(derive_sequence(b"prefix", 7, count), long[..count].to_vec());
    }
}

#[test]
fn ports_wrap_at_end_of_range() {
    assert_eq!(digest_ports(&[0x00, 0x00], 1), vec![1024]);
    assert_eq!(digest_ports(&[0xfb, 0xff], 1), vec![65535]);
    assert_eq!(digest_ports(&[0xfc, 0x00], 1), vec![1024]);
    assert_eq!(digest_ports(&[0xff, 0xff], 1), vec![1024 + 1023]);
    assert_eq!(digest_ports(&[0x01, 0x02, 0x03], 5), vec![1024 + 0x102]);
    assert_eq!(digest_ports(&[], 3), Vec::<u16>::new());
}

#[test]
fn defaults_are_those_of_common_deployments() {
    assert_eq!(DEFAULT_WINDOW_SECS, 30);
    assert_eq!(DEFAULT_KNOCK_COUNT, 4);
    assert_eq!(MAX_KNOCK_COUNT, 16);
}

#[test]
fn windows_are_counted_from_the_epoch() {
    assert_eq!(window_at(0, 30), 0);
    assert_eq!(window_at(29, 30), 0);
    assert_eq!(window_at(30, 30), 1);
    assert_eq!(window_at(u64::MAX, 1), u64::MAX);
}

#[test]
fn windows_stop_at_ends_of_range() {
    assert_eq!(windows_around(10, 2), vec![8, 9, 10, 11, 12]);
    assert_eq!(windows_around(10, 0), vec![10]);
    assert_eq!(windows_around(1, 3), vec![0, 1, 2, 3, 4]);
    assert_eq!(windows_around(u64::MAX, 2), vec![u64::MAX - 2, u64::MAX - 1, u64::MAX]);
}

#[test]
fn clocks_within_skew_tolerate_each_other() {
    let (a, b) = (1_000_000u64, 1_000_030u64);
    assert!(windows_around(window_at(a, 30), 1).contains(&window_at(b, 30)));
    assert!(windows_around(window_at(b, 30), 1).contains(&window_at(a, 30)));
}

#[test]
fn current_window_is_this_century() {
    let window = current_window(30).unwrap();
    assert!(window > 946_684_800 / 30);
    let around = windows_with_skew(30, 1).unwrap();
    assert!(around.contains(&window) || around.contains(&(window + 1)));
    assert_eq!(around[2], around[0] + 2);
}

#[test]
fn hex_is_read_in_either_case() {
    assert_eq!(decode_secret("DEADbeef").unwrap(), vec![0xde, 0xad, 0xbe, 0xef]);
    assert_eq!(decode_secret("\t00ff \n").unwrap(), vec![0x00, 0xff]);
    assert_eq!(decode_secret("").unwrap(), Vec::<u8>::new());
}

#[test]
fn what_is_no_hex_is_a_passphrase() {
    assert_eq!(decode_secret("abc").unwrap(), b"abc");
    assert_eq!(decode_secret("hunter2").unwrap(), b"hunter2");
    assert_eq!(decode_secret("\u{2003}gr\u{fc}n\u{3000}").unwrap(), "gr\u{fc}n".as_bytes());
    assert!(is_hex("0123456789abcdefABCDEF"));
    assert!(!is_hex("0x12"));
    assert!(!is_hex("\u{ff10}"));
}

#[test]
fn from_hex_names_what_is_wrong() {
    assert_eq!(SecretKey::from_hex(" deadbeef ").unwrap().as_bytes(), &[0xde, 0xad, 0xbe, 0xef]);
    assert!(matches!(SecretKey::from_hex("abc"), Err(HexError::OddLength)));
    assert!(matches!(
        SecretKey::from_hex("12g4"),
        Err(HexError::InvalidHexCharacter { c: 'g', index: 2 })
    ));
}

#[test]
fn keys_are_cloned_whole() {
    let key = SecretKey::from_hex_or_passphrase("a passphrase").unwrap();
    assert_eq!(key.clone().as_bytes(), b"a passphrase");
}

#[test]
fn numbers_are_written_in_decimal_and_octal() {
    assert_eq!(decimal_text(0), "0");
    assert_eq!(decimal_text(9), "9");
    assert_eq!(decimal_text(10), "10");
    assert_eq!(decimal_text(u64::MAX), "18446744073709551615");
    assert_eq!(octal4_text(0o644), "0644");
    assert_eq!(octal4_text(0o7777), "7777");
}

#[test]
fn windows_are_known_where_the_time_is() {
    assert_eq!(window_for(Ok(95), 30), Ok(3));
    assert_eq!(windows_for(Ok(95), 30, 1), Ok(vec![2, 3, 4]));
    assert_eq!(window_for(Err(ClockError::BeforeEpoch), 30), Err(ClockError::BeforeEpoch));
    assert_eq!(windows_for(Err(ClockError::BeforeEpoch), 30, 1), Err(ClockError::BeforeEpoch));
}
