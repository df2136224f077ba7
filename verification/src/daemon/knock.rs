//! Per-source knock state machine.

use std::collections::HashMap;

use vstd::prelude::*;

use crate::address::{AddrMap, IpAddr};
use crate::clock::{self, ClockError};
use crate::daemon::config::{self, Config, User};
use crate::daemon::model::{
    self, Candidate, Counts, Match, Outcome, Progress, Table, TrackerState, Verdict,
    MAX_TRACKED_IPS,
    PARTIAL_TIMEOUT, RATE_LIMIT_MAX, RATE_LIMIT_WINDOW, SWEEP_INTERVAL,
};
use crate::daemon::store::{self, ReplayStore, StoreError};
use crate::observed;
use crate::sequence::derive_sequence;

verus! {

broadcast use vstd::std_specs::hash::group_hash_axioms;

struct FirstKnockCandidate {
    user_index: usize,
    window: u64,
    sequence: Vec<u16>,
}

impl View for FirstKnockCandidate {
    type V = Candidate;

    closed spec fn view(&self) -> Candidate {
        Candidate {
            user_index: self.user_index as nat,
            window: self.window,
            sequence: self.sequence@,
        }
    }
}

/// The candidates for given windows, by their first port.
struct FirstKnockTable {
    table: HashMap<u16, Vec<FirstKnockCandidate>>,
    built_for_windows: Vec<u64>,
}

spec fn candidate_views(list: Seq<FirstKnockCandidate>) -> Seq<Candidate> {
    list.map_values(|c: FirstKnockCandidate| c@)
}

spec fn bucket_views(table: Map<u16, Vec<FirstKnockCandidate>>) -> Map<u16, Seq<Candidate>> {
    Map::new(|p: u16| table.contains_key(p), |p: u16| candidate_views(table[p]@))
}

impl View for FirstKnockTable {
    type V = Table;

    closed spec fn view(&self) -> Table {
        Table { windows: self.built_for_windows@, by_port: bucket_views(self.table@) }
    }
}

proof fn lemma_grouped_push(all: Seq<Candidate>, next: Candidate)
    ensures
        model::grouped(all.push(next)) == model::grouped(all).insert(
            next.sequence[0],
            model::on_port(all, next.sequence[0]).push(next),
        ),
{
    assert(all.push(next).drop_last() =~= all);
    assert(model::grouped(all.push(next)) =~= model::grouped(all).insert(
        next.sequence[0],
        model::on_port(all, next.sequence[0]).push(next),
    ));
}

/// Adds a candidate to the list for its first port.
fn add_candidate(
    table: &mut HashMap<u16, Vec<FirstKnockCandidate>>,
    candidate: FirstKnockCandidate,
    Ghost(all): Ghost<Seq<Candidate>>,
)
    requires
        candidate.sequence@.len() > 0,
        bucket_views(old(table)@) == model::grouped(all),
    ensures
        bucket_views(final(table)@) == model::grouped(all.push(candidate@)),
{
    let port = candidate.sequence[0];
    let ghost next = candidate@;
    let mut bucket = match table.remove(&port) {
        Some(bucket) => bucket,
        None => Vec::new(),
    };
    proof {
        let grouped = model::grouped(all);
        if old(table)@.contains_key(port) {
            assert(grouped.contains_key(port) && grouped[port] == candidate_views(bucket@));
        } else {
            assert(!grouped.contains_key(port));
        }
        assert(candidate_views(bucket@) =~= model::on_port(all, port));
    }
    bucket.push(candidate);
    assert(candidate_views(bucket@) =~= model::on_port(all, port).push(next));
    table.insert(port, bucket);
    proof {
        lemma_grouped_push(all, next);
        assert(bucket_views(table@) =~= bucket_views(old(table)@).insert(
            port,
            candidate_views(bucket@),
        ));
    }
}

impl FirstKnockTable {
    /// Derives the sequences of all users for all windows.
    fn build(users: &Vec<User>, valid_windows: &[u64], knock_count: usize) -> (table:
        FirstKnockTable)
        requires
            model::derivable(config::knock_rules(users@, knock_count as nat), valid_windows@),
        ensures
            table@ == model::table_for(
                config::knock_rules(users@, knock_count as nat),
                valid_windows@,
            ),
    {
        let ghost rules = config::knock_rules(users@, knock_count as nat);
        let mut table: HashMap<u16, Vec<FirstKnockCandidate>> = HashMap::new();
        let ghost windows = valid_windows@;
        assert(bucket_views(table@) =~= model::grouped(model::candidates(rules, 0, windows)));
        let mut user_index: usize = 0;
        while user_index < users.len()
            invariant
                user_index <= users@.len(),
                windows == valid_windows@,
                rules == config::knock_rules(users@, knock_count as nat),
                model::derivable(rules, windows),
                bucket_views(table@) == model::grouped(
                    model::candidates(rules, user_index as nat, windows),
                ),
            decreases users@.len() - user_index,
        {
            let ghost earlier = model::candidates(rules, user_index as nat, windows);
            let ghost own = model::user_candidates(rules, user_index as int, windows);
            let key = users[user_index].secret.as_bytes();
            let mut j: usize = 0;
            assert(earlier + own.take(0) =~= earlier);
            while j < valid_windows.len()
                invariant
                    j <= valid_windows@.len(),
                    windows == valid_windows@,
                    user_index < users@.len(),
                    rules == config::knock_rules(users@, knock_count as nat),
                    model::derivable(rules, windows),
                    key@ == rules.users[user_index as int].secret,
                    own == model::user_candidates(rules, user_index as int, windows),
                    bucket_views(table@) == model::grouped(earlier + own.take(j as int)),
                decreases valid_windows@.len() - j,
            {
                let window = valid_windows[j];
                let candidate = FirstKnockCandidate {
                    user_index,
                    window,
                    sequence: derive_sequence(key, window, knock_count),
                };
                proof {
                    assert(candidate@ =~= own[j as int]);
                    assert(earlier + own.take(j + 1) =~= (earlier + own.take(j as int)).push(
                        candidate@,
                    ));
                }
                add_candidate(&mut table, candidate, Ghost(earlier + own.take(j as int)));
                j += 1;
            }
            assert(own.take(j as int) =~= own);
            user_index += 1;
        }
        let table = FirstKnockTable {
            table,
            built_for_windows: vstd::slice::slice_to_vec(valid_windows),
        };
        table
    }

    /// Whether the table was built for other windows.
    fn is_stale(&self, valid_windows: &[u64]) -> (stale: bool)
        ensures
            stale == (self@.windows != valid_windows@),
    {
        if self.built_for_windows.len() != valid_windows.len() {
            return true;
        }
        let mut i: usize = 0;
        while i < valid_windows.len()
            invariant
                i <= valid_windows@.len(),
                self.built_for_windows@.len() == valid_windows@.len(),
                forall|k: int| 0 <= k < i ==> self.built_for_windows@[k] == valid_windows@[k],
            decreases valid_windows@.len() - i,
        {
            if self.built_for_windows[i] != valid_windows[i] {
                return true;
            }
            i += 1;
        }
        assert(self.built_for_windows@ =~= valid_windows@);
        false
    }

    /// The candidates that a first knock on `port` starts.
    fn lookup(&self, port: u16) -> (list: Option<&Vec<FirstKnockCandidate>>)
        ensures
            self@.on(port) == match list {
                Some(bucket) => candidate_views(bucket@),
                None => seq![],
            },
    {
        match self.table.get(&port) {
            Some(bucket) => {
                assert(self@.by_port[port] == candidate_views(bucket@));
                Some(bucket)
            },
            None => None,
        }
    }
}

/// A sequence that a source may be knocking, with the user and window that it is of.
struct KnockMatch {
    user_name: String,
    window: u64,
    sequence: Vec<u16>,
}

impl View for KnockMatch {
    type V = Match;

    closed spec fn view(&self) -> Match {
        Match { user: self.user_name@, window: self.window, sequence: self.sequence@ }
    }
}

spec fn match_views(list: Seq<KnockMatch>) -> Seq<Match> {
    list.map_values(|m: KnockMatch| m@)
}

/// Puts the names of their users to candidates.
fn name_matches(list: &Vec<FirstKnockCandidate>, config: &Config) -> (matches: Vec<KnockMatch>)
    requires
        forall|i: int|
            0 <= i < list@.len() ==> (#[trigger] candidate_views(list@)[i]).user_index
                < config.users@.len(),
    ensures
        match_views(matches@) == model::named(candidate_views(list@), config.rules()),
{
    let ghost all = model::named(candidate_views(list@), config.rules());
    let mut matches: Vec<KnockMatch> = Vec::new();
    let mut i: usize = 0;
    while i < list.len()
        invariant
            i <= list@.len(),
            all == model::named(candidate_views(list@), config.rules()),
            forall|k: int|
                0 <= k < list@.len() ==> (#[trigger] candidate_views(list@)[k]).user_index
                    < config.users@.len(),
            match_views(matches@) == all.take(i as int),
        decreases list@.len() - i,
    {
        let c = &list[i];
        assert(c@ == candidate_views(list@)[i as int]);
        let sequence = c.sequence.clone();
        assert(sequence@ =~= c.sequence@);
        let next = KnockMatch {
            user_name: config.users[c.user_index].name.clone(),
            window: c.window,
            sequence,
        };
        let ghost before = match_views(matches@);
        assert(next@ =~= all[i as int]);
        matches.push(next);
        assert(match_views(matches@) =~= before.push(all[i as int]));
        i += 1;
        assert(match_views(matches@) =~= all.take(i as int));
    }
    assert(match_views(matches@) =~= all);
    matches
}

/// Keeps those of `matches` whose port at `index` is `port`.
fn keep_matches(matches: Vec<KnockMatch>, index: usize, port: u16) -> (kept: Vec<KnockMatch>)
    requires
        forall|i: int|
            0 <= i < matches@.len() ==> index < (
            #[trigger] match_views(matches@)[i]).sequence.len(),
    ensures
        match_views(kept@) == model::keeping(match_views(matches@), index as nat, port),
{
    let ghost listed = matches@;
    let ghost all = match_views(matches@);
    let mut rest = matches;
    let mut kept: Vec<KnockMatch> = Vec::new();
    let ghost mut n: int = 0;
    while rest.len() > 0
        invariant
            0 <= n <= listed.len(),
            all == match_views(listed),
            rest@ == listed.skip(n),
            forall|i: int| 0 <= i < listed.len() ==> index < (#[trigger] all[i]).sequence.len(),
            match_views(kept@) == model::keeping(all.take(n), index as nat, port),
        decreases rest@.len(),
    {
        let ghost before = match_views(kept@);
        let m = rest.remove(0);
        assert(m@ == all[n]);
        assert(all.take(n + 1).drop_last() =~= all.take(n));
        if m.sequence[index] == port {
            kept.push(m);
            assert(match_views(kept@) =~= before.push(all[n]));
        }
        proof {
            n = n + 1;
        }
        assert(rest@ =~= listed.skip(n));
    }
    assert(all.take(n) =~= all);
    kept
}

/// What a source has started: the first `next_index` ports of all of `matches` have been
/// knocked.
struct KnockProgress {
    matches: Vec<KnockMatch>,
    next_index: usize,
    last_knock: u128,
}

impl View for KnockProgress {
    type V = Progress;

    closed spec fn view(&self) -> Progress {
        Progress {
            matches: match_views(self.matches@),
            next_index: self.next_index as nat,
            last_knock: self.last_knock,
        }
    }
}

impl KnockProgress {
    /// Sequences whose first port has just been knocked.
    fn new(matches: Vec<KnockMatch>, now: u128) -> (progress: KnockProgress)
        ensures
            progress@ == (Progress {
                matches: match_views(matches@),
                next_index: 1,
                last_knock: now,
            }),
    {
        KnockProgress { matches, next_index: 1, last_knock: now }
    }

    fn is_expired(&self, now: u128) -> (expired: bool)
        ensures
            expired == model::is_expired(self@, now),
    {
        now.saturating_sub(self.last_knock) > PARTIAL_TIMEOUT
    }
}

/// What became of a packet.
#[derive(Debug, PartialEq)]
pub enum KnockResult {
    /// The first `progress` of `total` ports have been knocked.
    Partial { user: String, progress: usize, total: usize },
    /// The whole sequence has been knocked.
    Complete { user: String },
    /// The sequence was knocked before, or could not be checked.
    Mismatch,
    /// The packet is no knock.
    Unrelated,
}

impl View for KnockResult {
    type V = Outcome;

    open spec fn view(&self) -> Outcome {
        match *self {
            KnockResult::Partial { user, progress, total } => Outcome::Partial {
                user: user@,
                progress: progress as nat,
                total: total as nat,
            },
            KnockResult::Complete { user } => Outcome::Complete { user: user@ },
            KnockResult::Mismatch => Outcome::Mismatch,
            KnockResult::Unrelated => Outcome::Unrelated,
        }
    }
}

/// What became of a packet, if that is known.
pub open spec fn outcome_of(result: Result<KnockResult, ClockError>) -> Option<Outcome> {
    match result {
        Ok(r) => Some(r@),
        Err(_) => None,
    }
}

/// What became of a packet before the replay store was asked.
#[derive(Debug, PartialEq)]
pub enum KnockStep {
    /// The store need not be asked.
    Settled(KnockResult),
    /// The sequence is complete, if `user` has not used `window` before.
    ReplayCheck { user: String, window: u64 },
}

impl View for KnockStep {
    type V = Verdict;

    open spec fn view(&self) -> Verdict {
        match *self {
            KnockStep::Settled(result) => Verdict::Settled(result@),
            KnockStep::ReplayCheck { user, window } => Verdict::ReplayCheck { user: user@, window },
        }
    }
}

/// How often each outcome has come up.
#[derive(Debug)]
pub struct KnockMetrics {
    pub auth_success: u64,
    pub replay_blocked: u64,
    pub rate_limited: u64,
    pub mismatches: u64,
}

impl View for KnockMetrics {
    type V = Counts;

    open spec fn view(&self) -> Counts {
        Counts {
            auth_success: self.auth_success as nat,
            replay_blocked: self.replay_blocked as nat,
            rate_limited: self.rate_limited as nat,
            mismatches: self.mismatches as nat,
        }
    }
}

impl Default for KnockMetrics {
    fn default() -> (metrics: KnockMetrics)
        ensures
            metrics@ == TrackerState::new().counts,
    {
        KnockMetrics { auth_success: 0, replay_blocked: 0, rate_limited: 0, mismatches: 0 }
    }
}

/// Follows the knocks of all source addresses.
pub struct KnockTracker {
    state: AddrMap<KnockProgress>,
    pkt_counter: u64,
    rate_limits: AddrMap<(u32, u128)>,
    first_knock_table: Option<FirstKnockTable>,
    metrics: KnockMetrics,
    /// Times are counted from here.
    origin: std::time::Instant,
}

spec fn progress_views(state: Map<IpAddr, KnockProgress>) -> Map<IpAddr, Progress> {
    Map::new(|a: IpAddr| state.contains_key(a), |a: IpAddr| state[a]@)
}

impl View for KnockTracker {
    type V = TrackerState;

    closed spec fn view(&self) -> TrackerState {
        TrackerState {
            started: progress_views(self.state@),
            packets: self.pkt_counter as nat,
            limits: self.rate_limits@,
            table: match self.first_knock_table {
                Some(table) => Some(table@),
                None => None,
            },
            counts: self.metrics@,
        }
    }
}

/// Removes the started sequences that have expired.
fn drop_expired(state: &mut AddrMap<KnockProgress>, now: u128)
    ensures
        progress_views(final(state)@) == model::unexpired(progress_views(old(state)@), now),
{
    let keys = state.keys();
    let ghost before = state@;
    assert forall|k: int| 0 <= k < keys@.len() implies before.contains_key(#[trigger] keys@[k]) by {
        assert(keys@.contains(keys@[k]));
    }
    let mut i: usize = 0;
    while i < keys.len()
        invariant
            i <= keys@.len(),
            keys@.no_duplicates(),
            forall|a: IpAddr| #[trigger] keys@.contains(a) <==> before.contains_key(a),
            forall|a: IpAddr| #[trigger]
                state@.contains_key(a) ==> before.contains_key(a) && state@[a] == before[a],
            forall|k: int|
                0 <= k < keys@.len() ==> (#[trigger] state@.contains_key(keys@[k]) <==> k >= i
                    || !model::is_expired(before[keys@[k]]@, now)),
        decreases keys@.len() - i,
    {
        let addr = keys[i];
        assert(keys@.contains(addr));
        let expired = match state.get(addr) {
            Some(progress) => progress.is_expired(now),
            None => false,
        };
        if expired {
            state.remove(addr);
        }
        i += 1;
    }
    proof {
        assert forall|a: IpAddr| before.contains_key(a) implies (state@.contains_key(a)
            <==> !model::is_expired(before[a]@, now)) by {
            assert(keys@.contains(a));
            let k = keys@.index_of(a);
            assert(keys@[k] == a);
        }
        assert(progress_views(state@) =~= model::unexpired(progress_views(before), now));
    }
}

/// Removes the rate-limit entries whose window has passed.
fn drop_old_limits(limits: &mut AddrMap<(u32, u128)>, now: u128)
    ensures
        final(limits)@ == model::current_limits(old(limits)@, now),
{
    let keys = limits.keys();
    let ghost before = limits@;
    assert forall|k: int| 0 <= k < keys@.len() implies before.contains_key(#[trigger] keys@[k]) by {
        assert(keys@.contains(keys@[k]));
    }
    let mut i: usize = 0;
    while i < keys.len()
        invariant
            i <= keys@.len(),
            keys@.no_duplicates(),
            forall|a: IpAddr| #[trigger] keys@.contains(a) <==> before.contains_key(a),
            forall|a: IpAddr| #[trigger]
                limits@.contains_key(a) ==> before.contains_key(a) && limits@[a] == before[a],
            forall|k: int|
                0 <= k < keys@.len() ==> (#[trigger] limits@.contains_key(keys@[k]) <==> k >= i
                    || now - before[keys@[k]].1 < RATE_LIMIT_WINDOW),
        decreases keys@.len() - i,
    {
        let addr = keys[i];
        assert(keys@.contains(addr));
        let passed = match limits.get(addr) {
            Some(entry) => now.saturating_sub(entry.1) >= RATE_LIMIT_WINDOW,
            None => false,
        };
        if passed {
            limits.remove(addr);
        }
        i += 1;
    }
    proof {
        assert forall|a: IpAddr| before.contains_key(a) implies (limits@.contains_key(a) <==> now
            - before[a].1 < RATE_LIMIT_WINDOW) by {
            assert(keys@.contains(a));
            let k = keys@.index_of(a);
            assert(keys@[k] == a);
        }
        assert(limits@ =~= model::current_limits(before, now));
    }
}

/// Finds a source that has waited longest, if there is any.
fn oldest(state: &AddrMap<KnockProgress>) -> (found: Option<IpAddr>)
    ensures
        match found {
            Some(addr) => model::is_oldest(progress_views(state@), addr),
            None => state@ == Map::<IpAddr, KnockProgress>::empty(),
        },
{
    let keys = state.keys();
    assert forall|k: int| 0 <= k < keys@.len() implies state@.contains_key(#[trigger] keys@[k]) by {
        assert(keys@.contains(keys@[k]));
    }
    let mut found: Option<(IpAddr, u128)> = None;
    let mut i: usize = 0;
    while i < keys.len()
        invariant
            i <= keys@.len(),
            forall|k: int| 0 <= k < keys@.len() ==> state@.contains_key(#[trigger] keys@[k]),
            match found {
                Some((addr, since)) => {
                    &&& state@.contains_key(addr)
                    &&& since == state@[addr]@.last_knock
                    &&& forall|k: int|
                        0 <= k < i ==> since <= state@[#[trigger] keys@[k]]@.last_knock
                },
                None => i == 0,
            },
        decreases keys@.len() - i,
    {
        let addr = keys[i];
        if let Some(progress) = state.get(addr) {
            let older = match found {
                Some((_, since)) => progress.last_knock < since,
                None => true,
            };
            if older {
                found = Some((addr, progress.last_knock));
            }
        }
        i += 1;
    }
    match found {
        Some((addr, _)) => {
            proof {
                let started = progress_views(state@);
                assert forall|b: IpAddr| #[trigger]
                    started.contains_key(b) implies started[addr].last_knock
                    <= started[b].last_knock by {
                    assert(keys@.contains(b));
                    let k = keys@.index_of(b);
                    assert(keys@[k] == b);
                }
            }
            Some(addr)
        },
        None => {
            assert forall|a: IpAddr| !state@.contains_key(a) by {
                assert(!keys@.contains(a));
            }
            assert(state@ =~= Map::<IpAddr, KnockProgress>::empty());
            None
        },
    }
}

proof fn lemma_progress_views(state: Map<IpAddr, KnockProgress>)
    ensures
        progress_views(state).dom() == state.dom(),
        forall|a: IpAddr|
            progress_views(#[trigger] state.remove(a)) == progress_views(state).remove(a),
        forall|a: IpAddr, p: KnockProgress|
            progress_views(#[trigger] state.insert(a, p)) == progress_views(state).insert(a, p@),
{
    assert(progress_views(state).dom() =~= state.dom());
    assert forall|a: IpAddr|
        progress_views(#[trigger] state.remove(a)) == progress_views(state).remove(a) by {
        assert(progress_views(state.remove(a)) =~= progress_views(state).remove(a));
    }
    assert forall|a: IpAddr, p: KnockProgress|
        progress_views(#[trigger] state.insert(a, p)) == progress_views(state).insert(
            a,
            p@,
        ) by {
        assert(progress_views(state.insert(a, p)) =~= progress_views(state).insert(a, p@));
    }
}

/// At capacity, removes a source that has waited longest.
fn make_room(state: &mut AddrMap<KnockProgress>)
    requires
        old(state)@.len() <= MAX_TRACKED_IPS,
    ensures
        model::made_room(progress_views(old(state)@), progress_views(final(state)@)),
{
    proof {
        lemma_progress_views(state@);
    }
    if state.len() >= MAX_TRACKED_IPS {
        if let Some(addr) = oldest(state) {
            state.remove(addr);
        }
    }
}

impl KnockTracker {
    /// When the time of this tracker began on the monotonic clock.
    pub closed spec fn origin(&self) -> std::time::Instant {
        self.origin
    }

    /// A tracker that has seen no packet yet.
    pub fn new() -> (tracker: KnockTracker)
        ensures
            tracker@ == TrackerState::new(),
            tracker@.wf(),
    {
        let tracker = KnockTracker {
            state: AddrMap::new(),
            pkt_counter: 0,
            rate_limits: AddrMap::new(),
            first_knock_table: None,
            metrics: KnockMetrics::default(),
            origin: clock::instant_now(),
        };
        assert(tracker@ =~= TrackerState::new());
        tracker
    }

    /// How often each outcome has come up.
    pub fn metrics(&self) -> (metrics: &KnockMetrics)
        ensures
            metrics@ == self@.counts,
    {
        &self.metrics
    }

    /// Whether a sequence of `src` has been started.
    pub fn is_tracking(&self, src: IpAddr) -> (tracking: bool)
        ensures
            tracking == self@.started.contains_key(src),
    {
        self.state.get(src).is_some()
    }

    /// Whether all counters can count one more packet from `src`.
    pub fn has_room_for(&self, src: IpAddr) -> (room: bool)
        ensures
            room == self@.has_room_for(src),
    {
        let attempts_fit = match self.rate_limits.get(src) {
            Some(entry) => entry.0 < u32::MAX,
            None => true,
        };
        attempts_fit && self.pkt_counter < u64::MAX && self.metrics.auth_success < u64::MAX
            && self.metrics.replay_blocked < u64::MAX && self.metrics.rate_limited < u64::MAX
            && self.metrics.mismatches < u64::MAX
    }

    /// Counts a packet, and sweeps out what has expired when it is time to.
    fn count_packet(&mut self, now: u128)
        requires
            old(self)@.wf(),
            old(self)@.packets < u64::MAX,
        ensures
            model::counted(old(self)@, final(self)@, now),
            final(self).origin() == old(self).origin(),
    {
        self.pkt_counter += 1;
        if self.pkt_counter % SWEEP_INTERVAL == 0 {
            drop_expired(&mut self.state, now);
            proof {
                lemma_progress_views(self.state@);
                model::lemma_subset_len(progress_views(self.state@), old(self)@.started);
            }
            make_room(&mut self.state);
            drop_old_limits(&mut self.rate_limits, now);
        }
    }

    /// Counts a first knock of `src`, and says whether there were too many.
    pub fn is_rate_limited(&mut self, src: IpAddr, now: u128) -> (limited: bool)
        requires
            old(self)@.limits.contains_key(src) ==> old(self)@.limits[src].0 < u32::MAX,
        ensures
            final(self)@ == (TrackerState {
                limits: old(self)@.limits.insert(src, model::attempt(old(self)@.limits, src, now)),
                ..old(self)@
            }),
            limited == (model::attempt(old(self)@.limits, src, now).0 > RATE_LIMIT_MAX),
            final(self).origin() == old(self).origin(),
    {
        let entry: (u32, u128) = match self.rate_limits.get(src) {
            Some(entry) => {
                if now.saturating_sub(entry.1) >= RATE_LIMIT_WINDOW {
                    (1, now)
                } else {
                    (entry.0 + 1, entry.1)
                }
            },
            None => (1, now),
        };
        self.rate_limits.insert(src, entry);
        entry.0 > RATE_LIMIT_MAX
    }

    /// Sees to it that the table is for `valid_windows`.
    fn refresh_table(&mut self, valid_windows: &[u64], config: &Config)
        requires
            old(self)@.fits(config.rules(), valid_windows@),
        ensures
            final(self)@ == (TrackerState {
                table: Some(
                    model::table_in_use(old(self)@.table, config.rules(), valid_windows@),
                ),
                ..old(self)@
            }),
            final(self).origin() == old(self).origin(),
    {
        let rebuild = match &self.first_knock_table {
            Some(table) => table.is_stale(valid_windows),
            None => true,
        };
        if rebuild {
            self.first_knock_table = Some(
                FirstKnockTable::build(&config.users, valid_windows, config.knock_count),
            );
        }
    }

    /// Takes a packet of a source without a started sequence, as a first knock if it is
    /// one.
    fn open_sequence(
        &mut self,
        src: IpAddr,
        port: u16,
        valid_windows: &[u64],
        config: &Config,
        now: u128,
    ) -> (step: KnockStep)
        requires
            old(self)@.wf(),
            old(self)@.fits(config.rules(), valid_windows@),
            old(self)@.counts.rate_limited < u64::MAX,
            old(self)@.limits.contains_key(src) ==> old(self)@.limits[src].0 < u32::MAX,
        ensures
            model::opened(
                old(self)@,
                final(self)@,
                step@,
                src,
                port,
                valid_windows@,
                config.rules(),
                now,
            ),
            final(self).origin() == old(self).origin(),
    {
        let ghost before = self@;
        let ghost rules = config.rules();
        self.refresh_table(valid_windows, config);
        let ghost table = model::table_in_use(before.table, rules, valid_windows@);
        proof {
            if model::derivable(rules, valid_windows@) {
                model::lemma_table(rules, valid_windows@);
            }
            assert(table.within(rules.users.len()));
        }
        let matches = match &self.first_knock_table {
            Some(known) => match known.lookup(port) {
                Some(list) => {
                    assert forall|i: int| 0 <= i < list@.len() implies (
                    #[trigger] candidate_views(list@)[i]).user_index < config.users@.len() by {
                        assert(candidate_views(list@)[i] == table.on(port)[i]);
                    }
                    name_matches(list, config)
                },
                None => Vec::new(),
            },
            None => Vec::new(),
        };
        assert(match_views(matches@) =~= model::named(table.on(port), rules));
        if matches.len() == 0 {
            return KnockStep::Settled(KnockResult::Unrelated);
        }
        assert(matches@[0]@ == match_views(matches@)[0]);
        let user = matches[0].user_name.clone();
        let window = matches[0].window;
        if self.is_rate_limited(src, now) {
            self.metrics.rate_limited += 1;
            return KnockStep::Settled(KnockResult::Unrelated);
        }
        if matches[0].sequence.len() == 1 {
            return KnockStep::ReplayCheck { user, window };
        }
        let ghost limited = self@;
        proof {
            lemma_progress_views(self.state@);
        }
        make_room(&mut self.state);
        let ghost room = self@.started;
        let progress = KnockProgress::new(matches, now);
        proof {
            lemma_progress_views(self.state@);
        }
        self.state.insert(src, progress);
        assert(self@ =~= TrackerState { started: room.insert(src, progress@), ..limited });
        KnockStep::Settled(KnockResult::Partial { user, progress: 1, total: config.knock_count })
    }

    /// Takes a packet from `src` on `port`, once it has been counted.
    fn advance(
        &mut self,
        src: IpAddr,
        port: u16,
        valid_windows: &[u64],
        config: &Config,
        now: u128,
    ) -> (step: KnockStep)
        requires
            old(self)@.wf(),
            old(self)@.fits(config.rules(), valid_windows@),
            old(self)@.counts.rate_limited < u64::MAX,
            old(self)@.counts.mismatches < u64::MAX,
            old(self)@.limits.contains_key(src) ==> old(self)@.limits[src].0 < u32::MAX,
        ensures
            model::advanced(
                old(self)@,
                final(self)@,
                step@,
                src,
                port,
                valid_windows@,
                config.rules(),
                now,
            ),
            final(self).origin() == old(self).origin(),
    {
        let ghost before = self@;
        let ghost started = model::without_stale(before.started, src, now);
        let stale = match self.state.get(src) {
            Some(progress) => progress.is_expired(now),
            None => false,
        };
        proof {
            lemma_progress_views(self.state@);
        }
        if stale {
            self.state.remove(src);
        }
        let ghost live = self@;
        assert(live =~= TrackerState { started, ..before });
        proof {
            model::lemma_subset_len(started, before.started);
            lemma_progress_views(self.state@);
        }
        if let Some(waiting) = self.state.remove(src) {
            assert(waiting@ == started[src]);
            assert(started[src].wf());
            let index = waiting.next_index;
            let left = keep_matches(waiting.matches, index, port);
            if left.len() > 0 {
                proof {
                    model::lemma_keeping(started[src].matches, index as nat, port);
                    assert(started[src].matches.contains(model::left_by(started[src], port)[0]));
                    assert(left@[0]@ == match_views(left@)[0]);
                }
                let user = left[0].user_name.clone();
                let total = left[0].sequence.len();
                let known = index + 1;
                if known == total {
                    return KnockStep::ReplayCheck { user, window: left[0].window };
                }
                let progress = KnockProgress { matches: left, next_index: known, last_knock: now };
                proof {
                    lemma_progress_views(self.state@);
                    assert(started.remove(src).insert(src, progress@) =~= started.insert(
                        src,
                        progress@,
                    ));
                }
                self.state.insert(src, progress);
                return KnockStep::Settled(KnockResult::Partial { user, progress: known, total });
            }
            self.metrics.mismatches += 1;
        } else {
            assert(started.remove(src) =~= started);
        }
        self.open_sequence(src, port, valid_windows, config, now)
    }

    /// Takes a packet from `src` on `port` at the time `now`, up to where the replay
    /// store is asked.
    pub fn step_at(
        &mut self,
        src: IpAddr,
        port: u16,
        valid_windows: &[u64],
        config: &Config,
        now: u128,
    ) -> (step: KnockStep)
        requires
            old(self)@.wf(),
            old(self)@.fits(config.rules(), valid_windows@),
            old(self)@.has_room_for(src),
        ensures
            model::stepped(
                old(self)@,
                final(self)@,
                step@,
                src,
                port,
                valid_windows@,
                config.rules(),
                now,
            ),
            final(self)@.wf(),
            final(self)@.fits(config.rules(), valid_windows@),
            old(self)@.knows_only(config.users@.len()) ==> final(self)@.knows_only(
                config.users@.len(),
            ),
            final(self).origin() == old(self).origin(),
    {
        self.count_packet(now);
        proof {
            model::lemma_counted(old(self)@, self@, now);
        }
        let step = self.advance(src, port, valid_windows, config, now);
        proof {
            model::law_every_step_keeps_tracker_valid(
                old(self)@,
                self@,
                step@,
                src,
                port,
                valid_windows@,
                config.rules(),
                now,
            );
        }
        step
    }

    /// Takes a packet from `src` on `port` now, up to where the replay store is asked.
    pub fn step(
        &mut self,
        src: IpAddr,
        port: u16,
        valid_windows: &[u64],
        config: &Config,
    ) -> (step: KnockStep)
        requires
            old(self)@.wf(),
            old(self)@.fits(config.rules(), valid_windows@),
            old(self)@.has_room_for(src),
        ensures
            exists|now: u128|
                observed::time_since(old(self).origin(), now) && #[trigger] model::stepped(
                    old(self)@,
                    final(self)@,
                    step@,
                    src,
                    port,
                    valid_windows@,
                    config.rules(),
                    now,
                ),
            final(self)@.wf(),
            final(self)@.fits(config.rules(), valid_windows@),
            old(self)@.knows_only(config.users@.len()) ==> final(self)@.knows_only(
                config.users@.len(),
            ),
            final(self).origin() == old(self).origin(),
    {
        let now = self.elapsed();
        self.step_at(src, port, valid_windows, config, now)
    }

    /// Concludes a completed sequence of `user` with what the replay store answered, and
    /// with what came of marking the window as used where it had not been. The knock is
    /// denied where the window was used before and where the store failed at either.
    pub fn finish(
        &mut self,
        user: String,
        used: Result<bool, StoreError>,
        marked: Result<(), StoreError>,
    ) -> (result: KnockResult)
        requires
            old(self)@.counts.auth_success < u64::MAX,
            old(self)@.counts.replay_blocked < u64::MAX,
        ensures
            model::finished(old(self)@, final(self)@, user@, used, marked, result@),
            final(self).origin() == old(self).origin(),
    {
        if store::stands(&used) && marked.is_ok() {
            self.metrics.auth_success += 1;
            KnockResult::Complete { user }
        } else {
            self.metrics.replay_blocked += 1;
            KnockResult::Mismatch
        }
    }

    /// The time on the monotonic clock, in nanoseconds.
    pub(crate) fn elapsed(&self) -> (nanos: u128)
        ensures
            observed::time_since(self.origin(), nanos),
    {
        clock::nanos_since(&self.origin)
    }

    /// Takes a packet from `src` on `port` at the time `now` on the monotonic clock, where
    /// the time of day is read as `reading`. `valid_windows` are the windows that are
    /// tolerated at that time.
    ///
    /// Fails only where a sequence is complete and stands, but the time of day is not
    /// known, so that its window cannot be marked as used.
    pub fn process_at(
        &mut self,
        src: IpAddr,
        port: u16,
        valid_windows: &[u64],
        config: &Config,
        store: &mut ReplayStore,
        now: u128,
        reading: Result<u64, ClockError>,
    ) -> (result: Result<KnockResult, ClockError>)
        requires
            old(self)@.wf(),
            old(self)@.fits(config.rules(), valid_windows@),
            old(self)@.has_room_for(src),
        ensures
            model::processed_at(
                old(self)@,
                final(self)@,
                outcome_of(result),
                src,
                port,
                valid_windows@,
                config.rules(),
                old(store)@,
                final(store)@,
                old(store).window_length(),
                now,
                reading,
            ),
            reading is Ok ==> result is Ok,
            result matches Err(e) ==> reading == Err::<u64, ClockError>(e),
            final(self)@.wf(),
            final(self)@.fits(config.rules(), valid_windows@),
            old(self)@.knows_only(config.users@.len()) ==> final(self)@.knows_only(
                config.users@.len(),
            ),
            final(self).origin() == old(self).origin(),
            final(store).window_length() == old(store).window_length(),
    {
        let step = self.step_at(src, port, valid_windows, config, now);
        let ghost mid = self@;
        let ghost verdict = step@;
        let (user, window) = match step {
            KnockStep::Settled(result) => {
                assert(model::concluded_at(
                    mid,
                    self@,
                    verdict,
                    Some(result@),
                    old(store)@,
                    store@,
                    reading,
                    old(store).window_length(),
                ));
                return Ok(result);
            },
            KnockStep::ReplayCheck { user, window } => (user, window),
        };
        let used = store.is_used(user.as_str(), window);
        if store::stands(&used) {
            match reading {
                Ok(unix_secs) => store.mark_used_at(user.as_str(), window, unix_secs),
                Err(e) => {
                    assert(model::concluded_at(
                        mid,
                        self@,
                        verdict,
                        None,
                        old(store)@,
                        store@,
                        reading,
                        old(store).window_length(),
                    ));
                    return Err(e);
                },
            }
        }
        let result = self.finish(user, used, Ok(()));
        assert(model::concluded_at(
            mid,
            self@,
            verdict,
            Some(result@),
            old(store)@,
            store@,
            reading,
            old(store).window_length(),
        ));
        Ok(result)
    }

    /// Takes a packet from `src` on `port`. `valid_windows` are the windows that are
    /// tolerated at the time of the call.
    ///
    /// Fails only where a sequence is complete and stands, but the time of day is not
    /// known, so that its window cannot be marked as used.
    pub fn process(
        &mut self,
        src: IpAddr,
        port: u16,
        valid_windows: &[u64],
        config: &Config,
        store: &mut ReplayStore,
    ) -> (result: Result<KnockResult, ClockError>)
        requires
            old(self)@.wf(),
            old(self)@.fits(config.rules(), valid_windows@),
            old(self)@.has_room_for(src),
        ensures
            exists|now: u128, reading: Result<u64, ClockError>|
                {
                    &&& observed::time_since(old(self).origin(), now)
                    &&& observed::time_of_day(reading)
                    &&& #[trigger] model::processed_at(
                        old(self)@,
                        final(self)@,
                        outcome_of(result),
                        src,
                        port,
                        valid_windows@,
                        config.rules(),
                        old(store)@,
                        final(store)@,
                        old(store).window_length(),
                        now,
                        reading,
                    )
                    &&& result matches Err(e) ==> reading == Err::<u64, ClockError>(e)
                },
            model::processed(
                old(self)@,
                final(self)@,
                outcome_of(result),
                src,
                port,
                valid_windows@,
                config.rules(),
                old(store)@,
                final(store)@,
                old(store).window_length(),
            ),
            final(self)@.wf(),
            final(self)@.fits(config.rules(), valid_windows@),
            old(self)@.knows_only(config.users@.len()) ==> final(self)@.knows_only(
                config.users@.len(),
            ),
            final(self).origin() == old(self).origin(),
            final(store).window_length() == old(store).window_length(),
    {
        let now = self.elapsed();
        let reading = clock::unix_now();
        let result = self.process_at(src, port, valid_windows, config, store, now, reading);
        proof {
            model::lemma_processed_at(
                old(self)@,
                self@,
                outcome_of(result),
                src,
                port,
                valid_windows@,
                config.rules(),
                old(store)@,
                store@,
                old(store).window_length(),
                now,
                reading,
            );
        }
        result
    }
}

/// A result says what became of a packet as it is, and there is none where there was an
/// error.
pub proof fn law_result_shows_the_outcome(
    user: String,
    progress: usize,
    total: usize,
    window: u64,
    result: KnockResult,
    error: ClockError,
    metrics: KnockMetrics,
)
    ensures
        (KnockResult::Partial { user, progress, total })@ == (Outcome::Partial {
            user: user@,
            progress: progress as nat,
            total: total as nat,
        }),
        (KnockResult::Complete { user })@ == (Outcome::Complete { user: user@ }),
        KnockResult::Mismatch@ == Outcome::Mismatch,
        KnockResult::Unrelated@ == Outcome::Unrelated,
        KnockStep::Settled(result)@ == Verdict::Settled(result@),
        (KnockStep::ReplayCheck { user, window })@ == (Verdict::ReplayCheck {
            user: user@,
            window,
        }),
        outcome_of(Ok(result)) == Some(result@),
        outcome_of(Err(error)) is None,
        metrics@.auth_success == metrics.auth_success,
        metrics@.replay_blocked == metrics.replay_blocked,
        metrics@.rate_limited == metrics.rate_limited,
        metrics@.mismatches == metrics.mismatches,
{
}

} // verus!
