use kairos::address::IpAddr;
use kairos::client::knock::plan_knock_in;
use kairos::clock::{window_at, windows_around, ClockError};
use kairos::daemon::config::{Config, User};
use kairos::daemon::knock::{KnockResult, KnockStep, KnockTracker};
use kairos::daemon::model::{
    MAX_TRACKED_IPS, PARTIAL_TIMEOUT, RATE_LIMIT_MAX, RATE_LIMIT_WINDOW,
};
use kairos::daemon::store::{prune_cutoff, stands, ReplayStore, StoreError};
use kairos::{derive_sequence, SecretKey};

const SECOND: u128 = 1_000_000_000;

fn make_config(secret: &[u8], count: usize) -> Config {
    Config {
        window_secs: 30,
        knock_count: count,
        skew: 1,
        open_secs: 60,
        interface: "eth0".into(),
        ssh_port: 22,
        log_filter: "info".into(),
        replay_db: None,
        users: vec![User { name: "alice".into(), secret: SecretKey::from_bytes(secret.to_vec()) }],
    }
}

fn src() -> IpAddr {
    IpAddr::V4(0x0a00_0001)
}

fn partial(user: &str, progress: usize, total: usize) -> KnockStep {
    KnockStep::Settled(KnockResult::Partial { user: user.into(), progress, total })
}

fn unrelated() -> KnockStep {
    KnockStep::Settled(KnockResult::Unrelated)
}

/// A port that no sequence of `config` for `windows` holds.
fn other_port(secret: &[u8], windows: &[u64], count: usize) -> u16 {
    let taken: Vec<u16> =
        windows.iter().flat_map(|w| derive_sequence(secret, *w, count)).collect();
    (1024..).find(|p| !taken.contains(p)).unwrap()
}

#[test]
fn full_sequence_yields_complete() {
    let secret = b"test-secret-kairos";
    let window = 42u64;
    let count = 4;
    let config = make_config(secret, count);
    let seq = derive_sequence(secret, window, count);
    let windows = vec![window];
    let mut tracker = KnockTracker::new();
    let mut store = ReplayStore::in_memory(30);

    for (i, &port) in seq.iter().enumerate() {
        let result = tracker.process(src(), port, &windows, &config, &mut store).unwrap();
        if i < count - 1 {
            assert!(matches!(result, KnockResult::Partial { .. }));
        } else {
            assert_eq!(result, KnockResult::Complete { user: "alice".into() });
        }
    }
}

#[test]
fn wrong_port_resets_state() {
    let secret = b"reset-test";
    let window = 10u64;
    let count = 4;
    let config = make_config(secret, count);
    let seq = derive_sequence(secret, window, count);
    let windows = vec![window];
    let mut tracker = KnockTracker::new();
    let mut store = ReplayStore::in_memory(30);

    let _ = tracker.process(src(), seq[0], &windows, &config, &mut store);
    let result = tracker.process(src(), 9999, &windows, &config, &mut store).unwrap();
    assert_eq!(result, KnockResult::Unrelated);
    assert!(!tracker.is_tracking(src()));
}

#[test]
fn replay_is_rejected() {
    let secret = b"replay-test";
    let window = 77u64;
    let count = 4;
    let config = make_config(secret, count);
    let seq = derive_sequence(secret, window, count);
    let windows = vec![window];
    let mut tracker = KnockTracker::new();
    let mut store = ReplayStore::in_memory(30);

    for &port in &seq {
        let _ = tracker.process(src(), port, &windows, &config, &mut store);
    }

    // Attempt replay from a different source IP: 10.0.0.2.
    let src2 = IpAddr::V4(0x0a00_0002);
    for (i, &port) in seq.iter().enumerate() {
        let result = tracker.process(src2, port, &windows, &config, &mut store).unwrap();
        if i == count - 1 {
            assert_eq!(result, KnockResult::Mismatch, "replay must be rejected");
        }
    }
}

#[test]
fn memory_store_basic() {
    let mut store = ReplayStore::in_memory(30);
    assert!(!store.is_used("alice", 100).unwrap());
    store.mark_used("alice", 100).unwrap();
    assert!(store.is_used("alice", 100).unwrap());
    assert!(!store.is_used("alice", 101).unwrap());
    assert!(!store.is_used("bob", 100).unwrap());
}

#[test]
fn different_users_are_independent() {
    let mut store = ReplayStore::in_memory(30);
    store.mark_used("alice", 99).unwrap();
    assert!(!store.is_used("bob", 99).unwrap());
}

#[test]
fn uses_are_forgotten_after_three_windows() {
    assert_eq!(prune_cutoff(1000, 30), 910);
    assert_eq!(prune_cutoff(90, 30), 0);
    assert_eq!(prune_cutoff(89, 30), 0);
    // Windows so long that three of them hardly fit, or do not.
    assert_eq!(prune_cutoff(u64::MAX, u64::MAX / 3), 0);
    assert_eq!(prune_cutoff(u64::MAX, u64::MAX / 3 - 1), 3);
    assert_eq!(prune_cutoff(u64::MAX, u64::MAX), 0);
    let mut store = ReplayStore::in_memory(30);
    store.mark_used_at("alice", 1, 1000);
    store.mark_used_at("bob", 1, 1090);
    assert!(store.is_used("alice", 1).unwrap());
    store.mark_used_at("carol", 1, 1091);
    assert!(!store.is_used("alice", 1).unwrap());
    assert!(store.is_used("bob", 1).unwrap());
    assert!(store.is_used("carol", 1).unwrap());
}

#[test]
fn marking_again_moves_the_time() {
    let mut store = ReplayStore::in_memory(30);
    store.mark_used_at("alice", 1, 1000);
    store.mark_used_at("alice", 1, 1080);
    store.mark_used_at("bob", 1, 1120);
    assert!(store.is_used("alice", 1).unwrap());
}

#[test]
fn progress_is_reported_with_each_knock() {
    let secret = b"progress-test";
    let config = make_config(secret, 3);
    let seq = derive_sequence(secret, 5, 3);
    let mut tracker = KnockTracker::new();
    assert_eq!(tracker.step_at(src(), seq[0], &[5], &config, 0), partial("alice", 1, 3));
    assert!(tracker.is_tracking(src()));
    assert_eq!(tracker.step_at(src(), seq[1], &[5], &config, 1), partial("alice", 2, 3));
    assert_eq!(
        tracker.step_at(src(), seq[2], &[5], &config, 2),
        KnockStep::ReplayCheck { user: "alice".into(), window: 5 }
    );
    assert!(!tracker.is_tracking(src()));
    assert_eq!(
        tracker.finish("alice".into(), Ok(false), Ok(())),
        KnockResult::Complete { user: "alice".into() }
    );
    assert_eq!(tracker.metrics().auth_success, 1);
}

#[test]
fn store_failure_denies() {
    assert!(stands(&Ok(false)));
    assert!(!stands(&Ok(true)));
    assert!(!stands(&Err(StoreError::Backend)));
    let mut tracker = KnockTracker::new();
    let failed = Err(StoreError::Backend);
    assert_eq!(
        tracker.finish("alice".into(), Err(StoreError::Backend), Ok(())),
        KnockResult::Mismatch
    );
    assert_eq!(tracker.finish("alice".into(), Ok(true), Ok(())), KnockResult::Mismatch);
    // The window was not used before, but could not be marked.
    assert_eq!(tracker.finish("alice".into(), Ok(false), failed), KnockResult::Mismatch);
    assert_eq!(tracker.metrics().replay_blocked, 3);
    assert_eq!(tracker.metrics().auth_success, 0);
}

#[test]
fn slow_sequence_expires() {
    let secret = b"expiry-test";
    let config = make_config(secret, 2);
    let seq = derive_sequence(secret, 5, 2);
    let mut tracker = KnockTracker::new();
    tracker.step_at(src(), seq[0], &[5], &config, 0);
    // Just in time.
    assert_eq!(
        tracker.step_at(src(), seq[1], &[5], &config, PARTIAL_TIMEOUT),
        KnockStep::ReplayCheck { user: "alice".into(), window: 5 }
    );
    tracker.step_at(src(), seq[0], &[5], &config, 0);
    // Too late, and no first knock.
    assert_eq!(tracker.step_at(src(), seq[1], &[5], &config, PARTIAL_TIMEOUT + 1), unrelated());
    assert!(!tracker.is_tracking(src()));
    assert_eq!(tracker.metrics().mismatches, 0);
}

#[test]
fn wrong_port_may_be_a_first_knock() {
    let secret = b"restart-test";
    let config = make_config(secret, 3);
    let seq = derive_sequence(secret, 8, 3);
    let mut tracker = KnockTracker::new();
    tracker.step_at(src(), seq[0], &[8], &config, 0);
    tracker.step_at(src(), seq[1], &[8], &config, 1);
    assert_eq!(tracker.step_at(src(), seq[0], &[8], &config, 2), partial("alice", 1, 3));
    assert_eq!(tracker.metrics().mismatches, 1);
}

#[test]
fn single_knock_sequence_asks_the_store() {
    let secret = b"single-test";
    let config = make_config(secret, 1);
    let seq = derive_sequence(secret, 8, 1);
    let mut tracker = KnockTracker::new();
    let mut store = ReplayStore::in_memory(30);
    assert_eq!(
        tracker.process(src(), seq[0], &[8], &config, &mut store),
        Ok(KnockResult::Complete { user: "alice".into() })
    );
    assert_eq!(
        tracker.process(src(), seq[0], &[8], &config, &mut store),
        Ok(KnockResult::Mismatch)
    );
    assert_eq!(tracker.metrics().replay_blocked, 1);
}

#[test]
fn sources_do_not_mix() {
    let secret = b"mixing-test";
    let config = make_config(secret, 2);
    let seq = derive_sequence(secret, 3, 2);
    let v6 = IpAddr::V6(0x0a00_0001);
    let mut tracker = KnockTracker::new();
    assert_eq!(tracker.step_at(src(), seq[0], &[3], &config, 0), partial("alice", 1, 2));
    assert_eq!(tracker.step_at(v6, seq[0], &[3], &config, 1), partial("alice", 1, 2));
    assert_eq!(
        tracker.step_at(src(), seq[1], &[3], &config, 2),
        KnockStep::ReplayCheck { user: "alice".into(), window: 3 }
    );
    assert!(!tracker.is_tracking(src()));
    assert!(tracker.is_tracking(v6));
}

#[test]
fn first_knocks_are_rate_limited() {
    let secret = b"limit-test";
    let config = make_config(secret, 4);
    let seq = derive_sequence(secret, 1, 4);
    let wrong = other_port(secret, &[1], 4);
    let mut tracker = KnockTracker::new();
    for i in 0..RATE_LIMIT_MAX {
        let now = i as u128 * SECOND;
        assert_eq!(tracker.step_at(src(), seq[0], &[1], &config, now), partial("alice", 1, 4));
        assert_eq!(tracker.step_at(src(), wrong, &[1], &config, now), unrelated());
    }
    let last = RATE_LIMIT_WINDOW - 1;
    assert_eq!(tracker.step_at(src(), seq[0], &[1], &config, last), unrelated());
    assert_eq!(tracker.metrics().rate_limited, 1);
    // Another source is not limited.
    let other = IpAddr::V4(7);
    assert_eq!(tracker.step_at(other, seq[0], &[1], &config, last), partial("alice", 1, 4));
    // Nor is the first one once its window has passed.
    assert_eq!(
        tracker.step_at(src(), seq[0], &[1], &config, RATE_LIMIT_WINDOW),
        partial("alice", 1, 4)
    );
}

#[test]
fn table_follows_the_windows() {
    let secret = b"table-test";
    let config = make_config(secret, 4);
    let old = derive_sequence(secret, 1, 4);
    let new = derive_sequence(secret, 2, 4);
    let mut tracker = KnockTracker::new();
    assert_eq!(tracker.step_at(IpAddr::V4(1), old[0], &[1], &config, 0), partial("alice", 1, 4));
    assert_eq!(tracker.step_at(IpAddr::V4(2), new[0], &[1], &config, 0), unrelated());
    assert_eq!(tracker.step_at(IpAddr::V4(2), new[0], &[2], &config, 0), partial("alice", 1, 4));
    assert_eq!(tracker.step_at(IpAddr::V4(3), old[0], &[2], &config, 0), unrelated());
    // What was started goes on though its window is no longer tolerated.
    assert_eq!(tracker.step_at(IpAddr::V4(1), old[1], &[2], &config, 0), partial("alice", 2, 4));
}

#[test]
fn oldest_source_leaves_at_capacity() {
    let secret = b"capacity-test";
    let config = make_config(secret, 2);
    let seq = derive_sequence(secret, 1, 2);
    let mut tracker = KnockTracker::new();
    for i in 0..MAX_TRACKED_IPS {
        tracker.step_at(IpAddr::V4(i as u32), seq[0], &[1], &config, i as u128);
    }
    let newcomer = IpAddr::V6(1);
    tracker.step_at(newcomer, seq[0], &[1], &config, MAX_TRACKED_IPS as u128);
    assert!(tracker.is_tracking(newcomer));
    assert!(!tracker.is_tracking(IpAddr::V4(0)));
    assert!(tracker.is_tracking(IpAddr::V4(1)));
}

#[test]
fn sweep_drops_expired_sources() {
    let secret = b"sweep-test";
    let config = make_config(secret, 2);
    let seq = derive_sequence(secret, 1, 2);
    let wrong = other_port(secret, &[1], 2);
    let mut tracker = KnockTracker::new();
    tracker.step_at(src(), seq[0], &[1], &config, 0);
    let later = PARTIAL_TIMEOUT + 1;
    for _ in 1..255 {
        tracker.step_at(IpAddr::V4(5), wrong, &[1], &config, later);
    }
    assert!(tracker.is_tracking(src()));
    tracker.step_at(IpAddr::V4(5), wrong, &[1], &config, later);
    assert!(!tracker.is_tracking(src()));
}

#[test]
fn first_of_several_candidates_is_taken() {
    let secret = b"shared-secret";
    let mut config = make_config(secret, 4);
    config
        .users
        .push(User { name: "bob".into(), secret: SecretKey::from_bytes(secret.to_vec()) });
    let seq = derive_sequence(secret, 1, 4);
    let mut tracker = KnockTracker::new();
    assert_eq!(tracker.step_at(src(), seq[0], &[1], &config, 0), partial("alice", 1, 4));
}

/// Alice and Bob, with a window for each in which their sequences begin with one port and
/// have no other in common.
fn shared_first_port() -> (Config, u64, u64) {
    let (alice, bob) = (b"alice's secret", b"bob's secret");
    let mut config = make_config(alice, 4);
    config.users.push(User { name: "bob".into(), secret: SecretKey::from_bytes(bob.to_vec()) });
    let of_bob: Vec<Vec<u16>> = (0..2000).map(|w| derive_sequence(bob, w, 4)).collect();
    for a in 0..2000u64 {
        let sa = derive_sequence(alice, a, 4);
        for (b, sb) in of_bob.iter().enumerate() {
            let differ = (1..4).all(|i| !sb.contains(&sa[i]) && !sa.contains(&sb[i]));
            if sa[0] == sb[0] && differ && a != b as u64 {
                return (config, a, b as u64);
            }
        }
    }
    panic!("no shared port");
}

#[test]
fn shared_first_port_lets_each_user_in() {
    let (config, a, b) = shared_first_port();
    let windows = [a, b];
    let sa = derive_sequence(b"alice's secret", a, 4);
    let sb = derive_sequence(b"bob's secret", b, 4);
    let mut tracker = KnockTracker::new();
    let mut store = ReplayStore::in_memory(30);
    let mut knock = |tracker: &mut KnockTracker, port: u16| {
        tracker.process(src(), port, &windows, &config, &mut store).unwrap()
    };
    let partial = |user: &str, progress: usize| KnockResult::Partial {
        user: user.into(),
        progress,
        total: 4,
    };
    // The first of those that are left is named.
    assert_eq!(knock(&mut tracker, sb[0]), partial("alice", 1));
    assert_eq!(knock(&mut tracker, sb[1]), partial("bob", 2));
    assert_eq!(knock(&mut tracker, sb[2]), partial("bob", 3));
    assert_eq!(knock(&mut tracker, sb[3]), KnockResult::Complete { user: "bob".into() });
    assert_eq!(knock(&mut tracker, sa[0]), partial("alice", 1));
    assert_eq!(knock(&mut tracker, sa[1]), partial("alice", 2));
    assert_eq!(knock(&mut tracker, sa[2]), partial("alice", 3));
    assert_eq!(knock(&mut tracker, sa[3]), KnockResult::Complete { user: "alice".into() });
    assert_eq!(tracker.metrics().auth_success, 2);
    assert_eq!(tracker.metrics().mismatches, 0);
}

#[test]
fn no_candidate_left_resets() {
    let (config, a, b) = shared_first_port();
    let sa = derive_sequence(b"alice's secret", a, 4);
    let sb = derive_sequence(b"bob's secret", b, 4);
    let mut tracker = KnockTracker::new();
    assert_eq!(tracker.step_at(src(), sa[0], &[a, b], &config, 0), partial("alice", 1, 4));
    assert_eq!(tracker.step_at(src(), sb[1], &[a, b], &config, 0), partial("bob", 2, 4));
    // Alice's sequence has been given up by now.
    assert_eq!(tracker.step_at(src(), sa[1], &[a, b], &config, 0), unrelated());
    assert!(!tracker.is_tracking(src()));
    assert_eq!(tracker.metrics().mismatches, 1);
}

#[test]
fn nth_first_knock_of_a_window_is_limited() {
    let secret = b"nth-knock";
    let config = make_config(secret, 4);
    let seq = derive_sequence(secret, 1, 4);
    let wrong = other_port(secret, &[1], 4);
    let mut tracker = KnockTracker::new();
    // Two windows, the second begun by the first knock after the first has passed.
    for start in [3 * SECOND, 3 * SECOND + RATE_LIMIT_WINDOW] {
        for n in 1..=15u32 {
            let now = start + n as u128 - 1;
            let step = tracker.step_at(src(), seq[0], &[1], &config, now);
            if n > RATE_LIMIT_MAX {
                assert_eq!(step, unrelated());
            } else {
                assert_eq!(step, partial("alice", 1, 4));
            }
            tracker.step_at(src(), wrong, &[1], &config, now);
            // The knocks of others do not count.
            tracker.step_at(IpAddr::V4(1000 + n), seq[0], &[1], &config, now);
        }
    }
    assert_eq!(tracker.metrics().rate_limited, 10);
}

#[test]
fn eleventh_call_of_a_window_is_over_the_limit() {
    let mut tracker = KnockTracker::new();
    let start = 5 * SECOND;
    for n in 1..=12u32 {
        assert_eq!(tracker.is_rate_limited(src(), start + n as u128 - 1), n > 10);
        assert!(!tracker.is_rate_limited(IpAddr::V4(500 + n), start));
    }
    assert!(tracker.is_rate_limited(src(), start + RATE_LIMIT_WINDOW - 1));
    assert!(!tracker.is_rate_limited(src(), start + RATE_LIMIT_WINDOW));
    assert!(!tracker.is_rate_limited(IpAddr::V4(501), start + 1));
}

#[test]
fn replay_is_refused_across_a_window_boundary() {
    let secret = b"boundary-test";
    let config = make_config(secret, 2);
    let mut tracker = KnockTracker::new();
    let mut store = ReplayStore::in_memory(30);
    let seq = derive_sequence(secret, 10, 2);
    // Seen in the last second of a window, marked in the first of the next one.
    let windows = windows_around(window_at(329, 30), 1);
    assert_eq!(
        tracker.process_at(src(), seq[0], &windows, &config, &mut store, 0, Ok(329)),
        Ok(KnockResult::Partial { user: "alice".into(), progress: 1, total: 2 })
    );
    assert_eq!(
        tracker.process_at(src(), seq[1], &windows, &config, &mut store, 1, Ok(330)),
        Ok(KnockResult::Complete { user: "alice".into() })
    );
    for seen in [330u64, 345, 359] {
        let windows = windows_around(window_at(seen, 30), 1);
        let (now, then) = (seen as u128 * SECOND, Ok(seen));
        let first = tracker.process_at(src(), seq[0], &windows, &config, &mut store, now, then);
        assert!(matches!(first, Ok(KnockResult::Partial { .. })));
        assert_eq!(
            tracker.process_at(src(), seq[1], &windows, &config, &mut store, now, Ok(seen + 1)),
            Ok(KnockResult::Mismatch)
        );
    }
}

#[test]
fn other_sources_change_no_result() {
    let secret = b"alone-test";
    let config = make_config(secret, 3);
    let seq = derive_sequence(secret, 4, 3);
    let wrong = other_port(secret, &[4], 3);
    let ports = [seq[0], seq[1], wrong, seq[0], seq[1], seq[2], seq[0], seq[1], seq[2], seq[1]];
    let run = |crowd: u32| {
        let mut tracker = KnockTracker::new();
        let mut store = ReplayStore::in_memory(30);
        let mut results = Vec::new();
        for (i, port) in ports.iter().enumerate() {
            let now = i as u128 * SECOND;
            for n in 0..crowd {
                let other = IpAddr::V4(2000 + n);
                let port = if n % 2 == 0 { seq[0] } else { wrong };
                let step = tracker.step_at(other, port, &[4], &config, now);
                assert!(!matches!(step, KnockStep::ReplayCheck { .. }));
            }
            results.push(
                tracker
                    .process_at(src(), *port, &[4], &config, &mut store, now, Ok(120))
                    .unwrap(),
            );
        }
        results
    };
    let alone = run(0);
    assert_eq!(alone[5], KnockResult::Complete { user: "alice".into() });
    assert_eq!(alone[8], KnockResult::Mismatch);
    assert_eq!(alone, run(300));
}

#[test]
fn packet_taken_in_parts_is_processed_as_a_whole() {
    let secret = b"parts-test";
    let config = make_config(secret, 2);
    let seq = derive_sequence(secret, 9, 2);
    let (mut whole, mut parts) = (KnockTracker::new(), KnockTracker::new());
    let (mut used, mut marks) = (ReplayStore::in_memory(30), ReplayStore::in_memory(30));
    for (i, port) in [seq[0], seq[1], seq[0], seq[1], seq[1]].iter().enumerate() {
        let now = i as u128 * SECOND;
        let expected = whole.process_at(src(), *port, &[9], &config, &mut used, now, Ok(270));
        let result = match parts.step_at(src(), *port, &[9], &config, now) {
            KnockStep::Settled(result) => result,
            KnockStep::ReplayCheck { user, window } => {
                let answer = marks.is_used(&user, window);
                if stands(&answer) {
                    marks.mark_used_at(&user, window, 270);
                }
                parts.finish(user, answer, Ok(()))
            }
        };
        assert_eq!(Ok(result), expected);
    }
    assert_eq!(parts.metrics().auth_success, 1);
    assert_eq!(parts.metrics().replay_blocked, 1);
}

#[test]
fn new_tracker_has_room_and_counts_nothing() {
    let tracker = KnockTracker::new();
    assert!(tracker.has_room_for(src()));
    assert!(!tracker.is_tracking(src()));
    let metrics = tracker.metrics();
    assert_eq!(metrics.auth_success, 0);
    assert_eq!(metrics.replay_blocked, 0);
    assert_eq!(metrics.rate_limited, 0);
    assert_eq!(metrics.mismatches, 0);
}

#[test]
fn whole_sequence_completes_between_other_packets() {
    let secret = b"interleaved";
    let config = make_config(secret, 4);
    let seq = derive_sequence(secret, 6, 4);
    let wrong = other_port(secret, &[5, 6, 7], 4);
    let mut tracker = KnockTracker::new();
    for (i, port) in seq.iter().enumerate() {
        for n in 0..100u32 {
            tracker.step_at(IpAddr::V4(1000 + n), wrong, &[5, 6, 7], &config, i as u128 * SECOND);
        }
        let step = tracker.step_at(src(), *port, &[5, 6, 7], &config, i as u128 * SECOND);
        if i < 3 {
            assert_eq!(step, partial("alice", i + 1, 4));
        } else {
            assert_eq!(step, KnockStep::ReplayCheck { user: "alice".into(), window: 6 });
        }
    }
}

#[test]
fn incomplete_sequences_never_complete() {
    let secret = b"incomplete";
    let config = make_config(secret, 4);
    let seq = derive_sequence(secret, 6, 4);
    for left_out in 0..4 {
        let mut tracker = KnockTracker::new();
        let mut store = ReplayStore::in_memory(30);
        for (i, port) in seq.iter().enumerate() {
            if i != left_out {
                let result = tracker.process(src(), *port, &[6], &config, &mut store).unwrap();
                assert!(!matches!(result, KnockResult::Complete { .. }));
            }
        }
    }
    let mut tracker = KnockTracker::new();
    let mut store = ReplayStore::in_memory(30);
    for i in [1, 0, 2, 3] {
        let result = tracker.process(src(), seq[i], &[6], &config, &mut store).unwrap();
        assert!(!matches!(result, KnockResult::Complete { .. }));
    }
}

#[test]
fn windows_of_forgotten_uses_are_past() {
    let (window_secs, skew, used_at) = (30u64, 1u64, 1_000_000u64);
    let used: Vec<u64> = windows_around(window_at(used_at, window_secs), skew);
    let forgotten_at = used_at + 3 * window_secs + 1;
    assert!(used_at < prune_cutoff(forgotten_at, window_secs));
    assert!(used_at >= prune_cutoff(forgotten_at - 1, window_secs));
    for window in used {
        assert!(!windows_around(window_at(forgotten_at, window_secs), skew).contains(&window));
    }
}

#[test]
fn metrics_count_outcomes() {
    let secret = b"metrics-test";
    let config = make_config(secret, 2);
    let seq = derive_sequence(secret, 1, 2);
    let mut tracker = KnockTracker::new();
    let mut store = ReplayStore::in_memory(30);
    for n in 0..3 {
        for port in &seq {
            tracker.process(IpAddr::V4(n), *port, &[1], &config, &mut store).unwrap();
        }
    }
    assert_eq!(tracker.metrics().auth_success, 1);
    assert_eq!(tracker.metrics().replay_blocked, 2);
    assert_eq!(tracker.metrics().mismatches, 0);
}

#[test]
fn daemon_waits_for_what_client_sends() {
    let secret = b"agreement";
    let config = make_config(secret, 4);
    let key = SecretKey::from_bytes(secret.to_vec());
    let sent = 1_000_000u64;
    for seen in [sent - 30, sent, sent + 30] {
        let plan = plan_knock_in(&src(), &key, window_at(sent, 30), 4);
        let windows = windows_around(window_at(seen, 30), config.skew);
        let mut tracker = KnockTracker::new();
        let mut last = unrelated();
        for port in plan.ports {
            last = tracker.step_at(src(), port, &windows, &config, 0);
        }
        let window = window_at(sent, 30);
        assert_eq!(last, KnockStep::ReplayCheck { user: "alice".into(), window });
    }
}

#[test]
fn time_of_day_is_needed_only_to_mark_a_use() {
    let secret = b"clock-test";
    let config = make_config(secret, 2);
    let seq = derive_sequence(secret, 4, 2);
    let failed = Err(ClockError::BeforeEpoch);
    let mut tracker = KnockTracker::new();
    let mut store = ReplayStore::in_memory(30);
    assert_eq!(
        tracker.process_at(src(), seq[0], &[4], &config, &mut store, 0, failed),
        Ok(KnockResult::Partial { user: "alice".into(), progress: 1, total: 2 })
    );
    assert_eq!(
        tracker.process_at(src(), seq[1], &[4], &config, &mut store, 1, failed),
        Err(ClockError::BeforeEpoch)
    );
    assert!(!store.is_used("alice", 4).unwrap());
    assert_eq!(tracker.metrics().auth_success, 0);
    tracker.process_at(src(), seq[0], &[4], &config, &mut store, 2, failed).unwrap();
    assert_eq!(
        tracker.process_at(src(), seq[1], &[4], &config, &mut store, 3, Ok(120)),
        Ok(KnockResult::Complete { user: "alice".into() })
    );
    assert!(store.is_used("alice", 4).unwrap());
    tracker.process_at(src(), seq[0], &[4], &config, &mut store, 4, failed).unwrap();
    assert_eq!(
        tracker.process_at(src(), seq[1], &[4], &config, &mut store, 5, failed),
        Ok(KnockResult::Mismatch)
    );
}
