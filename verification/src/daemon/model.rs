//! What the knock state machine does, as a relation between its states.

use vstd::prelude::*;

use crate::address::IpAddr;
use crate::clock::ClockError;
use crate::daemon::config::KnockRules;
use crate::daemon::store::{self, StoreError, UsedWindows};
use crate::sequence::{self, MAX_KNOCK_COUNT};

verus! {

/// How long a started sequence may wait for its next knock, in nanoseconds.
pub const PARTIAL_TIMEOUT: u128 = 10_000_000_000;

/// Most source addresses with a started sequence at a time.
pub const MAX_TRACKED_IPS: usize = 10_000;

/// After how many packets expired entries are swept out.
pub const SWEEP_INTERVAL: u64 = 256;

/// Most first knocks of one source address in a rate-limit window.
pub const RATE_LIMIT_MAX: u32 = 10;

/// Length of a rate-limit window, in nanoseconds.
pub const RATE_LIMIT_WINDOW: u128 = 60_000_000_000;

/// A sequence that a source may be knocking, with the user and window that it is of.
#[verifier::ext_equal]
pub struct Match {
    pub user: Seq<char>,
    pub window: u64,
    pub sequence: Seq<u16>,
}

/// What a source has started: the first `next_index` ports of all of `matches` have been
/// knocked.
#[verifier::ext_equal]
pub struct Progress {
    pub matches: Seq<Match>,
    pub next_index: nat,
    pub last_knock: u128,
}

impl Progress {
    /// Whether there is something to wait for: sequences of one length, not yet knocked to
    /// the end.
    pub open spec fn wf(self) -> bool {
        &&& self.matches.len() > 0
        &&& 1 <= self.next_index < self.matches[0].sequence.len()
        &&& forall|i: int|
            0 <= i < self.matches.len() ==> (#[trigger] self.matches[i]).sequence.len()
                == self.matches[0].sequence.len()
    }
}

/// A sequence that some user may knock in some window.
#[verifier::ext_equal]
pub struct Candidate {
    pub user_index: nat,
    pub window: u64,
    pub sequence: Seq<u16>,
}

/// The candidates for given windows, by their first port.
#[verifier::ext_equal]
pub struct Table {
    pub windows: Seq<u64>,
    pub by_port: Map<u16, Seq<Candidate>>,
}

/// How often each outcome has come up.
#[verifier::ext_equal]
pub struct Counts {
    pub auth_success: nat,
    pub replay_blocked: nat,
    pub rate_limited: nat,
    pub mismatches: nat,
}

/// The state of a tracker.
#[verifier::ext_equal]
pub struct TrackerState {
    pub started: Map<IpAddr, Progress>,
    pub packets: nat,
    /// For a source: its first knocks in the rate-limit window, and when that began.
    pub limits: Map<IpAddr, (u32, u128)>,
    pub table: Option<Table>,
    pub counts: Counts,
}

/// What became of a packet.
#[verifier::ext_equal]
pub enum Outcome {
    Partial { user: Seq<char>, progress: nat, total: nat },
    Complete { user: Seq<char> },
    Mismatch,
    Unrelated,
}

/// What became of a packet before the replay store was asked.
#[verifier::ext_equal]
pub enum Verdict {
    Settled(Outcome),
    ReplayCheck { user: Seq<char>, window: u64 },
}

/// The candidates of the user with index `user`, in the order of `windows`.
pub open spec fn user_candidates(rules: KnockRules, user: int, windows: Seq<u64>) -> Seq<
    Candidate,
> {
    Seq::new(
        windows.len(),
        |j: int|
            Candidate {
                user_index: user as nat,
                window: windows[j],
                sequence: sequence::knock_sequence(
                    rules.users[user].secret,
                    windows[j],
                    rules.knock_count,
                ),
            },
    )
}

/// The candidates of the first `n` users, user by user.
pub open spec fn candidates(rules: KnockRules, n: nat, windows: Seq<u64>) -> Seq<Candidate>
    decreases n,
{
    if n == 0 {
        seq![]
    } else {
        candidates(rules, (n - 1) as nat, windows) + user_candidates(rules, n - 1, windows)
    }
}

/// Those of `all` whose first port is `port`, in the same order.
pub open spec fn on_port(all: Seq<Candidate>, port: u16) -> Seq<Candidate>
    decreases all.len(),
{
    if all.len() == 0 {
        seq![]
    } else if all.last().sequence[0] == port {
        on_port(all.drop_last(), port).push(all.last())
    } else {
        on_port(all.drop_last(), port)
    }
}

/// Candidates by their first port.
pub open spec fn grouped(all: Seq<Candidate>) -> Map<u16, Seq<Candidate>> {
    Map::new(|p: u16| on_port(all, p).len() > 0, |p: u16| on_port(all, p))
}

/// The table for the windows `windows`.
pub open spec fn table_for(rules: KnockRules, windows: Seq<u64>) -> Table {
    Table { windows, by_port: grouped(candidates(rules, rules.users.len(), windows)) }
}

/// Whether the sequences for `windows` can be derived.
pub open spec fn derivable(rules: KnockRules, windows: Seq<u64>) -> bool {
    rules.users.len() == 0 || windows.len() == 0 || 1 <= rules.knock_count <= MAX_KNOCK_COUNT
}

impl Table {
    /// The candidates that a first knock on `port` starts.
    pub open spec fn on(self, port: u16) -> Seq<Candidate> {
        if self.by_port.contains_key(port) {
            self.by_port[port]
        } else {
            seq![]
        }
    }

    /// Whether all candidates for a port have ports, and equally many.
    pub open spec fn wf(self) -> bool {
        forall|p: u16, i: int|
            0 <= i < self.on(p).len() ==> 0 < (#[trigger] self.on(p)[i]).sequence.len()
                == self.on(p)[0].sequence.len()
    }

    /// Whether all candidates are of the first `n` users.
    pub open spec fn within(self, n: nat) -> bool {
        forall|p: u16, i: int|
            0 <= i < self.on(p).len() ==> (#[trigger] self.on(p)[i]).user_index < n
    }
}

/// Candidates with the names of their users.
pub open spec fn named(list: Seq<Candidate>, rules: KnockRules) -> Seq<Match> {
    Seq::new(
        list.len(),
        |i: int|
            Match {
                user: rules.users[list[i].user_index as int].name,
                window: list[i].window,
                sequence: list[i].sequence,
            },
    )
}

/// Those of `matches` whose port at `index` is `port`, in the same order.
pub open spec fn keeping(matches: Seq<Match>, index: nat, port: u16) -> Seq<Match>
    decreases matches.len(),
{
    if matches.len() == 0 {
        seq![]
    } else if matches.last().sequence[index as int] == port {
        keeping(matches.drop_last(), index, port).push(matches.last())
    } else {
        keeping(matches.drop_last(), index, port)
    }
}

/// Whether a started sequence has waited too long for its next knock.
pub open spec fn is_expired(progress: Progress, now: u128) -> bool {
    now - progress.last_knock > PARTIAL_TIMEOUT
}

/// The started sequences that have not expired.
pub open spec fn unexpired(started: Map<IpAddr, Progress>, now: u128) -> Map<IpAddr, Progress> {
    Map::new(
        |a: IpAddr| started.contains_key(a) && !is_expired(started[a], now),
        |a: IpAddr| started[a],
    )
}

/// The rate-limit entries whose window has not yet passed.
pub open spec fn current_limits(limits: Map<IpAddr, (u32, u128)>, now: u128) -> Map<
    IpAddr,
    (u32, u128),
> {
    Map::new(
        |a: IpAddr| limits.contains_key(a) && now - limits[a].1 < RATE_LIMIT_WINDOW,
        |a: IpAddr| limits[a],
    )
}

/// Whether no tracked source has waited longer than `addr`.
pub open spec fn is_oldest(started: Map<IpAddr, Progress>, addr: IpAddr) -> bool {
    &&& started.contains_key(addr)
    &&& forall|b: IpAddr| #[trigger]
        started.contains_key(b) ==> started[addr].last_knock <= started[b].last_knock
}

/// At capacity an oldest source leaves, below it none does.
pub open spec fn made_room(before: Map<IpAddr, Progress>, after: Map<IpAddr, Progress>) -> bool {
    if before.len() >= MAX_TRACKED_IPS {
        exists|a: IpAddr| #[trigger] is_oldest(before, a) && after == before.remove(a)
    } else {
        after == before
    }
}

/// Counting a packet: each `SWEEP_INTERVAL`-th one sweeps out what has expired.
pub open spec fn counted(before: TrackerState, after: TrackerState, now: u128) -> bool {
    &&& after.packets == before.packets + 1
    &&& after.table == before.table
    &&& after.counts == before.counts
    &&& if after.packets % SWEEP_INTERVAL as nat == 0 {
        &&& made_room(unexpired(before.started, now), after.started)
        &&& after.limits == current_limits(before.limits, now)
    } else {
        &&& after.started == before.started
        &&& after.limits == before.limits
    }
}

/// The started sequences without that of `src`, if it has expired.
pub open spec fn without_stale(
    started: Map<IpAddr, Progress>,
    src: IpAddr,
    now: u128,
) -> Map<IpAddr, Progress> {
    if started.contains_key(src) && is_expired(started[src], now) {
        started.remove(src)
    } else {
        started
    }
}

/// Those of the sequences that a source has started for which it has now knocked `port`.
pub open spec fn left_by(progress: Progress, port: u16) -> Seq<Match> {
    keeping(progress.matches, progress.next_index, port)
}

/// A packet on a port that a started sequence of `src` waits for. Those that wait for
/// another port are given up; the first one left is named.
pub open spec fn continued(
    before: TrackerState,
    after: TrackerState,
    verdict: Verdict,
    src: IpAddr,
    port: u16,
    now: u128,
) -> bool {
    let left = left_by(before.started[src], port);
    let known = before.started[src].next_index + 1;
    if known == left[0].sequence.len() {
        &&& after == TrackerState { started: before.started.remove(src), ..before }
        &&& verdict == Verdict::ReplayCheck { user: left[0].user, window: left[0].window }
    } else {
        let next = Progress { matches: left, next_index: known, last_knock: now };
        &&& after == TrackerState { started: before.started.insert(src, next), ..before }
        &&& verdict == Verdict::Settled(
            Outcome::Partial {
                user: left[0].user,
                progress: known,
                total: left[0].sequence.len(),
            },
        )
    }
}

/// The rate-limit entry of `src` after one more first knock: a new window begins where
/// there is none yet or the last one has passed.
pub open spec fn attempt(limits: Map<IpAddr, (u32, u128)>, src: IpAddr, now: u128) -> (u32, u128) {
    if limits.contains_key(src) && now - limits[src].1 < RATE_LIMIT_WINDOW {
        ((limits[src].0 + 1) as u32, limits[src].1)
    } else {
        (1, now)
    }
}

/// The table in use for `windows`: a new one where there is none yet or it is for other
/// windows.
pub open spec fn table_in_use(
    table: Option<Table>,
    rules: KnockRules,
    windows: Seq<u64>,
) -> Table {
    match table {
        Some(t) if t.windows == windows => t,
        _ => table_for(rules, windows),
    }
}

/// A packet of a source without a started sequence: it may be a first knock, which starts
/// all sequences that begin with its port. The first of them is named.
pub open spec fn opened(
    before: TrackerState,
    after: TrackerState,
    verdict: Verdict,
    src: IpAddr,
    port: u16,
    windows: Seq<u64>,
    rules: KnockRules,
    now: u128,
) -> bool {
    let table = table_in_use(before.table, rules, windows);
    let matches = named(table.on(port), rules);
    let entry = attempt(before.limits, src, now);
    let limited = TrackerState {
        table: Some(table),
        limits: before.limits.insert(src, entry),
        ..before
    };
    if matches.len() == 0 {
        &&& after == TrackerState { table: Some(table), ..before }
        &&& verdict == Verdict::Settled(Outcome::Unrelated)
    } else if entry.0 > RATE_LIMIT_MAX {
        let counts = Counts { rate_limited: before.counts.rate_limited + 1, ..before.counts };
        &&& after == TrackerState { counts, ..limited }
        &&& verdict == Verdict::Settled(Outcome::Unrelated)
    } else if matches[0].sequence.len() == 1 {
        &&& after == limited
        &&& verdict == Verdict::ReplayCheck { user: matches[0].user, window: matches[0].window }
    } else {
        let first = Progress { matches, next_index: 1, last_knock: now };
        &&& exists|room: Map<IpAddr, Progress>| #[trigger]
            made_room(before.started, room) && after == (TrackerState {
                started: room.insert(src, first),
                ..limited
            })
        &&& verdict == Verdict::Settled(
            Outcome::Partial { user: matches[0].user, progress: 1, total: rules.knock_count },
        )
    }
}

/// A packet from `src` on `port`, once counted.
pub open spec fn advanced(
    before: TrackerState,
    after: TrackerState,
    verdict: Verdict,
    src: IpAddr,
    port: u16,
    windows: Seq<u64>,
    rules: KnockRules,
    now: u128,
) -> bool {
    let started = without_stale(before.started, src, now);
    let live = TrackerState { started, ..before };
    if !started.contains_key(src) {
        opened(live, after, verdict, src, port, windows, rules, now)
    } else if left_by(started[src], port).len() > 0 {
        continued(live, after, verdict, src, port, now)
    } else {
        let reset = TrackerState {
            started: started.remove(src),
            counts: Counts { mismatches: before.counts.mismatches + 1, ..before.counts },
            ..before
        };
        opened(reset, after, verdict, src, port, windows, rules, now)
    }
}

/// A packet from `src` on `port`, up to where the replay store is asked.
pub open spec fn stepped(
    before: TrackerState,
    after: TrackerState,
    verdict: Verdict,
    src: IpAddr,
    port: u16,
    windows: Seq<u64>,
    rules: KnockRules,
    now: u128,
) -> bool {
    exists|mid: TrackerState| #[trigger]
        counted(before, mid, now) && advanced(mid, after, verdict, src, port, windows, rules, now)
}

/// A completed sequence once the replay store has been asked and, where that found the
/// window unused, told to mark it: it stands only if the store says that the window was not
/// used before and has marked it.
pub open spec fn finished(
    before: TrackerState,
    after: TrackerState,
    user: Seq<char>,
    used: Result<bool, StoreError>,
    marked: Result<(), StoreError>,
    outcome: Outcome,
) -> bool {
    if used == Ok::<bool, StoreError>(false) && marked is Ok {
        let counts = Counts { auth_success: before.counts.auth_success + 1, ..before.counts };
        &&& after == TrackerState { counts, ..before }
        &&& outcome == Outcome::Complete { user }
    } else {
        let counts = Counts { replay_blocked: before.counts.replay_blocked + 1, ..before.counts };
        &&& after == TrackerState { counts, ..before }
        &&& outcome == Outcome::Mismatch
    }
}

/// A packet whose step came to `verdict`, with the replay store asked where it has to be
/// and the window marked as used at `unix_secs` where it stands.
pub open spec fn concluded(
    before: TrackerState,
    after: TrackerState,
    verdict: Verdict,
    outcome: Outcome,
    used_before: UsedWindows,
    used_after: UsedWindows,
    unix_secs: u64,
    window_secs: u64,
) -> bool {
    match verdict {
        Verdict::Settled(o) => {
            &&& after == before
            &&& outcome == o
            &&& used_after == used_before
        },
        Verdict::ReplayCheck { user, window } => {
            let used = used_before.contains_key((user, window));
            &&& finished(before, after, user, Ok(used), Ok(()), outcome)
            &&& used_after == if used {
                used_before
            } else {
                store::marked(used_before, user, window, unix_secs, window_secs)
            }
        },
    }
}

/// A packet whose step came to `verdict`, with the time of day read as `reading`. There is
/// an outcome unless a sequence is complete and stands, but the time is not known, so that
/// its window cannot be marked as used.
pub open spec fn concluded_at(
    before: TrackerState,
    after: TrackerState,
    verdict: Verdict,
    outcome: Option<Outcome>,
    used_before: UsedWindows,
    used_after: UsedWindows,
    reading: Result<u64, ClockError>,
    window_secs: u64,
) -> bool {
    let marks = match verdict {
        Verdict::ReplayCheck { user, window } => !used_before.contains_key((user, window)),
        Verdict::Settled(_) => false,
    };
    if marks && reading is Err {
        &&& outcome is None
        &&& after == before
        &&& used_after == used_before
    } else {
        let unix_secs = match reading {
            Ok(now) => now,
            Err(_) => 0,
        };
        &&& outcome matches Some(o)
        &&& concluded(
            before,
            after,
            verdict,
            o,
            used_before,
            used_after,
            unix_secs,
            window_secs,
        )
    }
}

/// A packet from `src` on `port` with all that follows from it, where the monotonic clock
/// shows `now` and the time of day is read as `reading`.
pub open spec fn processed_at(
    before: TrackerState,
    after: TrackerState,
    outcome: Option<Outcome>,
    src: IpAddr,
    port: u16,
    windows: Seq<u64>,
    rules: KnockRules,
    used_before: UsedWindows,
    used_after: UsedWindows,
    window_secs: u64,
    now: u128,
    reading: Result<u64, ClockError>,
) -> bool {
    exists|mid: TrackerState, verdict: Verdict|
        {
            &&& #[trigger] stepped(before, mid, verdict, src, port, windows, rules, now)
            &&& concluded_at(
                mid,
                after,
                verdict,
                outcome,
                used_before,
                used_after,
                reading,
                window_secs,
            )
        }
}

/// A packet from `src` on `port` with all that follows from it. There is no outcome where
/// a sequence is complete and stands, but its window cannot be marked as used because the
/// time of day is not known.
pub open spec fn processed(
    before: TrackerState,
    after: TrackerState,
    outcome: Option<Outcome>,
    src: IpAddr,
    port: u16,
    windows: Seq<u64>,
    rules: KnockRules,
    used_before: UsedWindows,
    used_after: UsedWindows,
    window_secs: u64,
) -> bool {
    exists|now: u128, mid: TrackerState, verdict: Verdict|
        {
            &&& #[trigger] stepped(before, mid, verdict, src, port, windows, rules, now)
            &&& match outcome {
                Some(o) => exists|unix_secs: u64| #[trigger]
                    concluded(
                        mid,
                        after,
                        verdict,
                        o,
                        used_before,
                        used_after,
                        unix_secs,
                        window_secs,
                    ),
                None => {
                    &&& after == mid
                    &&& used_after == used_before
                    &&& verdict matches Verdict::ReplayCheck { user, window }
                    &&& !used_before.contains_key((user, window))
                },
            }
        }
}

impl TrackerState {
    /// The state of a tracker that has seen no packet yet.
    pub open spec fn new() -> TrackerState {
        TrackerState {
            started: Map::empty(),
            packets: 0,
            limits: Map::empty(),
            table: None,
            counts: Counts { auth_success: 0, replay_blocked: 0, rate_limited: 0, mismatches: 0 },
        }
    }

    /// No more sources than `MAX_TRACKED_IPS` have started, and each waits for a port
    /// of its sequence.
    pub open spec fn wf(self) -> bool {
        &&& self.started.dom().finite()
        &&& self.started.len() <= MAX_TRACKED_IPS
        &&& forall|a: IpAddr| #[trigger]
            self.started.contains_key(a) ==> self.started[a].wf()
        &&& self.table matches Some(t) ==> t.wf()
    }

    /// Whether the table for `windows` can be used: the one at hand knows users of `rules`
    /// only, or a new one can be derived.
    pub open spec fn fits(self, rules: KnockRules, windows: Seq<u64>) -> bool {
        match self.table {
            Some(t) if t.windows == windows => t.within(rules.users.len()),
            _ => derivable(rules, windows),
        }
    }

    /// Whether the table, if there is one, knows the first `n` users only.
    pub open spec fn knows_only(self, n: nat) -> bool {
        self.table matches Some(t) ==> t.within(n)
    }

    /// Whether all counters can count one more packet from `src`.
    pub open spec fn has_room_for(self, src: IpAddr) -> bool {
        &&& self.packets < u64::MAX
        &&& self.counts.auth_success < u64::MAX
        &&& self.counts.replay_blocked < u64::MAX
        &&& self.counts.rate_limited < u64::MAX
        &&& self.counts.mismatches < u64::MAX
        &&& self.limits.contains_key(src) ==> self.limits[src].0 < u32::MAX
    }
}

pub(crate) proof fn lemma_processed_at(
    before: TrackerState,
    after: TrackerState,
    outcome: Option<Outcome>,
    src: IpAddr,
    port: u16,
    windows: Seq<u64>,
    rules: KnockRules,
    used_before: UsedWindows,
    used_after: UsedWindows,
    window_secs: u64,
    now: u128,
    reading: Result<u64, ClockError>,
)
    requires
        processed_at(
            before,
            after,
            outcome,
            src,
            port,
            windows,
            rules,
            used_before,
            used_after,
            window_secs,
            now,
            reading,
        ),
    ensures
        processed(
            before,
            after,
            outcome,
            src,
            port,
            windows,
            rules,
            used_before,
            used_after,
            window_secs,
        ),
        outcome is None ==> reading is Err,
{
    let (mid, verdict) = choose|mid: TrackerState, verdict: Verdict|
        {
            &&& #[trigger] stepped(before, mid, verdict, src, port, windows, rules, now)
            &&& concluded_at(
                mid,
                after,
                verdict,
                outcome,
                used_before,
                used_after,
                reading,
                window_secs,
            )
        };
    assert(stepped(before, mid, verdict, src, port, windows, rules, now));
    if let Some(o) = outcome {
        let unix_secs = match reading {
            Ok(unix_now) => unix_now,
            Err(_) => 0,
        };
        assert(concluded(
            mid,
            after,
            verdict,
            o,
            used_before,
            used_after,
            unix_secs,
            window_secs,
        ));
    }
}

// ---- What every step keeps ----

pub(crate) proof fn lemma_subset_len(part: Map<IpAddr, Progress>, whole: Map<IpAddr, Progress>)
    requires
        whole.dom().finite(),
        part.dom().subset_of(whole.dom()),
    ensures
        part.dom().finite(),
        part.len() <= whole.len(),
{
    vstd::set_lib::lemma_len_subset(part.dom(), whole.dom());
}

pub(crate) proof fn lemma_made_room(before: Map<IpAddr, Progress>, after: Map<IpAddr, Progress>)
    requires
        before.dom().finite(),
        before.len() <= MAX_TRACKED_IPS,
        made_room(before, after),
    ensures
        after.dom().finite(),
        after.len() < MAX_TRACKED_IPS,
        forall|a: IpAddr| #[trigger]
            after.contains_key(a) ==> before.contains_key(a) && after[a] == before[a],
{
}

pub(crate) proof fn lemma_on_port(all: Seq<Candidate>, port: u16)
    ensures
        forall|i: int|
            0 <= i < on_port(all, port).len() ==> all.contains(#[trigger] on_port(all, port)[i])
                && on_port(all, port)[i].sequence[0] == port,
    decreases all.len(),
{
    if all.len() > 0 {
        let rest = all.drop_last();
        lemma_on_port(rest, port);
        assert forall|i: int| 0 <= i < on_port(all, port).len() implies all.contains(
            #[trigger] on_port(all, port)[i],
        ) && on_port(all, port)[i].sequence[0] == port by {
            let c = on_port(all, port)[i];
            if i < on_port(rest, port).len() {
                assert(c == on_port(rest, port)[i]);
                let k = rest.index_of(c);
                assert(all[k] == c);
            } else {
                assert(all[all.len() - 1] == c);
            }
        }
    }
}

pub(crate) proof fn lemma_keeping(matches: Seq<Match>, index: nat, port: u16)
    ensures
        forall|i: int|
            0 <= i < keeping(matches, index, port).len() ==> matches.contains(
                #[trigger] keeping(matches, index, port)[i],
            ) && keeping(matches, index, port)[i].sequence[index as int] == port,
    decreases matches.len(),
{
    if matches.len() > 0 {
        let rest = matches.drop_last();
        lemma_keeping(rest, index, port);
        assert forall|i: int| 0 <= i < keeping(matches, index, port).len() implies matches.contains(
            #[trigger] keeping(matches, index, port)[i],
        ) && keeping(matches, index, port)[i].sequence[index as int] == port by {
            let m = keeping(matches, index, port)[i];
            if i < keeping(rest, index, port).len() {
                assert(m == keeping(rest, index, port)[i]);
                let k = rest.index_of(m);
                assert(matches[k] == m);
            } else {
                assert(matches[matches.len() - 1] == m);
            }
        }
    }
}

pub(crate) proof fn lemma_candidates(rules: KnockRules, n: nat, windows: Seq<u64>)
    requires
        n <= rules.users.len(),
    ensures
        forall|c: Candidate| #[trigger] candidates(rules, n, windows).contains(c) ==> {
            &&& c.user_index < n
            &&& windows.contains(c.window)
            &&& c.sequence == sequence::knock_sequence(
                rules.users[c.user_index as int].secret,
                c.window,
                rules.knock_count,
            )
        },
    decreases n,
{
    if n > 0 {
        let m = (n - 1) as nat;
        lemma_candidates(rules, m, windows);
        let earlier = candidates(rules, m, windows);
        let own = user_candidates(rules, m as int, windows);
        assert forall|c: Candidate| #[trigger] candidates(rules, n, windows).contains(c) implies {
            &&& c.user_index < n
            &&& windows.contains(c.window)
            &&& c.sequence == sequence::knock_sequence(
                rules.users[c.user_index as int].secret,
                c.window,
                rules.knock_count,
            )
        } by {
            let k = (earlier + own).index_of(c);
            if k < earlier.len() {
                assert(earlier[k] == c);
                assert(earlier.contains(c));
            } else {
                assert(own[k - earlier.len()] == c);
                assert(windows[k - earlier.len()] == c.window);
            }
        }
    }
}

pub(crate) proof fn lemma_table(rules: KnockRules, windows: Seq<u64>)
    requires
        derivable(rules, windows),
    ensures
        table_for(rules, windows).wf(),
        table_for(rules, windows).within(rules.users.len()),
{
    let all = candidates(rules, rules.users.len(), windows);
    let table = table_for(rules, windows);
    lemma_candidates(rules, rules.users.len(), windows);
    assert forall|p: u16, i: int| 0 <= i < table.on(p).len() implies (
    #[trigger] table.on(p)[i]).sequence.len() == rules.knock_count && table.on(p)[i].user_index
        < rules.users.len() && rules.knock_count > 0 by {
        lemma_on_port(all, p);
        assert(table.on(p)[i] == on_port(all, p)[i]);
        assert(all.contains(table.on(p)[i]));
    }
    assert forall|p: u16, i: int| 0 <= i < table.on(p).len() implies 0 < (
    #[trigger] table.on(p)[i]).sequence.len() == table.on(p)[0].sequence.len() by {
        assert(table.on(p)[0].sequence.len() == rules.knock_count);
    }
}

pub(crate) proof fn lemma_opened(
    before: TrackerState,
    after: TrackerState,
    verdict: Verdict,
    src: IpAddr,
    port: u16,
    windows: Seq<u64>,
    rules: KnockRules,
    now: u128,
)
    requires
        before.wf(),
        before.fits(rules, windows),
        opened(before, after, verdict, src, port, windows, rules, now),
    ensures
        after.wf(),
        after.fits(rules, windows),
        before.knows_only(rules.users.len()) ==> after.knows_only(rules.users.len()),
{
    let table = table_in_use(before.table, rules, windows);
    if derivable(rules, windows) {
        lemma_table(rules, windows);
    }
    let list = table.on(port);
    let matches = named(list, rules);
    let entry = attempt(before.limits, src, now);
    if list.len() > 0 && entry.0 <= RATE_LIMIT_MAX && matches[0].sequence.len() != 1 {
        let room = choose|room: Map<IpAddr, Progress>| #[trigger]
            made_room(before.started, room) && after.started == room.insert(
                src,
                after.started[src],
            );
        lemma_made_room(before.started, room);
        assert(after.started.len() <= room.len() + 1);
        assert forall|i: int| 0 <= i < matches.len() implies (#[trigger] matches[i]).sequence.len()
            == matches[0].sequence.len() by {
            assert(list[i].sequence.len() == list[0].sequence.len());
        }
        assert(list[0].sequence.len() > 0);
    }
}

pub(crate) proof fn lemma_counted(before: TrackerState, after: TrackerState, now: u128)
    requires
        before.wf(),
        counted(before, after, now),
    ensures
        after.wf(),
        forall|a: IpAddr| #[trigger]
            after.started.contains_key(a) ==> before.started.contains_key(a) && after.started[a]
                == before.started[a],
        forall|a: IpAddr| #[trigger]
            after.limits.contains_key(a) ==> before.limits.contains_key(a) && after.limits[a]
                == before.limits[a],
{
    if after.packets % SWEEP_INTERVAL as nat == 0 {
        lemma_subset_len(unexpired(before.started, now), before.started);
        lemma_made_room(unexpired(before.started, now), after.started);
    }
}

/// Every step keeps the tracker valid: the sources with a started sequence stay
/// within capacity, each of them waits for a port of its sequence, and the table in use
/// knows only configured users.
pub proof fn law_every_step_keeps_tracker_valid(
    before: TrackerState,
    after: TrackerState,
    verdict: Verdict,
    src: IpAddr,
    port: u16,
    windows: Seq<u64>,
    rules: KnockRules,
    now: u128,
)
    requires
        before.wf(),
        before.fits(rules, windows),
        stepped(before, after, verdict, src, port, windows, rules, now),
    ensures
        after.wf(),
        after.fits(rules, windows),
        before.knows_only(rules.users.len()) ==> after.knows_only(rules.users.len()),
{
    let mid = choose|mid: TrackerState| #[trigger]
        counted(before, mid, now) && advanced(
            mid,
            after,
            verdict,
            src,
            port,
            windows,
            rules,
            now,
        );
    lemma_counted(before, mid, now);
    let started = without_stale(mid.started, src, now);
    lemma_subset_len(started, mid.started);
    let live = TrackerState { started, ..mid };
    assert(live.wf());
    if !started.contains_key(src) {
        lemma_opened(live, after, verdict, src, port, windows, rules, now);
    } else if left_by(started[src], port).len() > 0 {
        lemma_keeping(started[src].matches, started[src].next_index, port);
        let left = left_by(started[src], port);
        assert forall|i: int| 0 <= i < left.len() implies (#[trigger] left[i]).sequence.len()
            == started[src].matches[0].sequence.len() by {
            assert(started[src].matches.contains(left[i]));
        }
        assert(left[0].sequence.len() == started[src].matches[0].sequence.len());
    } else {
        let reset = TrackerState {
            started: started.remove(src),
            counts: Counts { mismatches: mid.counts.mismatches + 1, ..mid.counts },
            ..mid
        };
        assert(reset.wf());
        lemma_opened(reset, after, verdict, src, port, windows, rules, now);
    }
}

/// The limits are what they are said to be: ten seconds from knock to knock, ten thousand
/// sources with a started sequence, a sweep each 256 packets, ten first knocks of a source in
/// sixty seconds.
pub proof fn law_limits()
    ensures
        PARTIAL_TIMEOUT == 10 * 1_000_000_000,
        MAX_TRACKED_IPS == 10_000,
        SWEEP_INTERVAL == 256,
        RATE_LIMIT_MAX == 10,
        RATE_LIMIT_WINDOW == 60 * 1_000_000_000,
{
}

/// The candidates are listed user by user, and for each user window by window, and none is
/// left out.
pub proof fn law_candidates_are_listed_user_by_user(
    rules: KnockRules,
    n: nat,
    windows: Seq<u64>,
    user: int,
    j: int,
)
    requires
        n <= rules.users.len(),
        0 <= user < n,
        0 <= j < windows.len(),
    ensures
        candidates(rules, n, windows).len() == n * windows.len(),
        0 <= user * windows.len() + j < candidates(rules, n, windows).len(),
        ({
            let c = candidates(rules, n, windows)[user * windows.len() + j];
            &&& c.user_index == user
            &&& c.window == windows[j]
            &&& c.sequence == sequence::knock_sequence(
                rules.users[user].secret,
                windows[j],
                rules.knock_count,
            )
        }),
    decreases n,
{
    let m = (n - 1) as nat;
    let len = windows.len();
    lemma_number_of_candidates(rules, m, windows);
    lemma_number_of_candidates(rules, n, windows);
    assert(user * len + j < n * len) by (nonlinear_arith)
        requires
            0 <= user < n,
            0 <= j < len,
    ;
    assert(0 <= user * len) by (nonlinear_arith)
        requires
            0 <= user,
            0 <= len,
    ;
    if user < m {
        law_candidates_are_listed_user_by_user(rules, m, windows, user, j);
    }
}

proof fn lemma_number_of_candidates(rules: KnockRules, n: nat, windows: Seq<u64>)
    ensures
        candidates(rules, n, windows).len() == n * windows.len(),
    decreases n,
{
    if n > 0 {
        let m = (n - 1) as nat;
        let len = windows.len();
        lemma_number_of_candidates(rules, m, windows);
        assert(m * len + len == n * len) by (nonlinear_arith)
            requires
                n == m + 1,
        ;
    } else {
        assert(0 * windows.len() == 0) by (nonlinear_arith);
    }
}

/// What a first knock starts are the candidates that begin with its port, and what a further
/// one leaves are the matches that go on with its port, all of them and in their order.
pub proof fn law_ports_pick_out_what_matches(
    rules: KnockRules,
    windows: Seq<u64>,
    progress: Progress,
    port: u16,
)
    ensures
        table_for(rules, windows).on(port) == candidates(
            rules,
            rules.users.len(),
            windows,
        ).filter(|c: Candidate| c.sequence[0] == port),
        left_by(progress, port) == progress.matches.filter(
            |m: Match| m.sequence[progress.next_index as int] == port,
        ),
{
    let all = candidates(rules, rules.users.len(), windows);
    lemma_on_port_filters(all, port);
    lemma_keeping_filters(progress.matches, progress.next_index, port);
    assert(table_for(rules, windows).on(port) =~= on_port(all, port));
}

proof fn lemma_on_port_filters(all: Seq<Candidate>, port: u16)
    ensures
        on_port(all, port) == all.filter(|c: Candidate| c.sequence[0] == port),
    decreases all.len(),
{
    reveal(Seq::filter);
    if all.len() > 0 {
        lemma_on_port_filters(all.drop_last(), port);
    }
}

proof fn lemma_keeping_filters(matches: Seq<Match>, index: nat, port: u16)
    ensures
        keeping(matches, index, port) == matches.filter(
            |m: Match| m.sequence[index as int] == port,
        ),
    decreases matches.len(),
{
    reveal(Seq::filter);
    if matches.len() > 0 {
        lemma_keeping_filters(matches.drop_last(), index, port);
    }
}

} // verus!
