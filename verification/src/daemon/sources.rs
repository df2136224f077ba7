//! What holds of each source address by itself, whatever the others send.

use vstd::prelude::*;

use crate::address::IpAddr;
use crate::daemon::config::KnockRules;
use crate::daemon::history::{self, History, Packet};
use crate::daemon::model::{
    self, Outcome, Progress, TrackerState, Verdict, MAX_TRACKED_IPS, RATE_LIMIT_MAX,
    RATE_LIMIT_WINDOW,
};
use crate::daemon::store::{self, UsedWindows};

verus! {

/// Whether time never runs backwards.
pub open spec fn in_order(packets: Seq<Packet>) -> bool {
    forall|i: int, j: int|
        0 <= i <= j < packets.len() ==> (#[trigger] packets[i]).now <= (#[trigger] packets[j]).now
}

/// When packet `k` of a history comes at the earliest.
spec fn earliest(packets: Seq<Packet>, k: int) -> u128 {
    if k > 0 {
        packets[k - 1].now
    } else {
        0
    }
}

// ---- The rate limit ----

/// Which of the first knocks at `times` began the rate-limit window that the last of them
/// falls into: a knock begins a window where it is the first, or the last window has
/// passed.
pub open spec fn window_start(times: Seq<u128>) -> int
    decreases times.len(),
{
    if times.len() <= 1 {
        0
    } else {
        let start = window_start(times.drop_last());
        if times.last() - times[start] < RATE_LIMIT_WINDOW {
            start
        } else {
            times.len() - 1
        }
    }
}

/// As which first knock of its rate-limit window the last of `times` comes, from one on.
pub open spec fn place_in_window(times: Seq<u128>) -> int {
    times.len() - window_start(times)
}

proof fn lemma_window_start(times: Seq<u128>)
    ensures
        times.len() > 0 ==> 0 <= window_start(times) < times.len(),
        times.len() == 0 ==> window_start(times) == 0,
    decreases times.len(),
{
    if times.len() > 1 {
        lemma_window_start(times.drop_last());
    }
}

/// The rate-limit entries once each of `calls`, a source and a time, has been counted.
pub open spec fn limits_after(calls: Seq<(IpAddr, u128)>) -> Map<IpAddr, (u32, u128)>
    decreases calls.len(),
{
    if calls.len() == 0 {
        Map::empty()
    } else {
        let limits = limits_after(calls.drop_last());
        let (src, now) = calls.last();
        limits.insert(src, model::attempt(limits, src, now))
    }
}

/// The times of those of `calls` that are of `src`, in order.
pub open spec fn times_of(calls: Seq<(IpAddr, u128)>, src: IpAddr) -> Seq<u128>
    decreases calls.len(),
{
    if calls.len() == 0 {
        seq![]
    } else if calls.last().0 == src {
        times_of(calls.drop_last(), src).push(calls.last().1)
    } else {
        times_of(calls.drop_last(), src)
    }
}

/// The n-th call for a source in its rate-limit window is over the limit if and only if n
/// is more than it: the count is n, whatever the calls for other sources, and the counts of
/// those stay as they are.
pub proof fn law_nth_call_is_over_the_limit(
    calls: Seq<(IpAddr, u128)>,
    src: IpAddr,
    now: u128,
    other: IpAddr,
)
    requires
        calls.len() < u32::MAX,
        other != src,
    ensures
        ({
            let times = times_of(calls, src).push(now);
            let limits = limits_after(calls);
            let entry = model::attempt(limits, src, now);
            let after = limits_after(calls.push((src, now)));
            &&& place_in_window(times) >= 1
            &&& entry == (place_in_window(times) as u32, times[window_start(times)])
            &&& entry.0 > RATE_LIMIT_MAX <==> place_in_window(times) > RATE_LIMIT_MAX
            &&& after == limits.insert(src, entry)
            &&& after.contains_key(other) == limits.contains_key(other)
            &&& after.contains_key(other) ==> after[other] == limits[other]
        }),
{
    lemma_entry(calls, src);
    let earlier = times_of(calls, src);
    let times = earlier.push(now);
    lemma_window_start(times);
    lemma_window_start(earlier);
    assert(times.drop_last() =~= earlier);
    assert(calls.push((src, now)).drop_last() =~= calls);
}

/// What has been counted for a source.
proof fn lemma_entry(calls: Seq<(IpAddr, u128)>, src: IpAddr)
    requires
        calls.len() < u32::MAX,
    ensures
        ({
            let times = times_of(calls, src);
            let limits = limits_after(calls);
            &&& times.len() <= calls.len()
            &&& limits.contains_key(src) <==> times.len() > 0
            &&& times.len() > 0 ==> limits[src] == (
                place_in_window(times) as u32,
                times[window_start(times)],
            )
        }),
    decreases calls.len(),
{
    if calls.len() > 0 {
        let rest = calls.drop_last();
        lemma_entry(rest, src);
        if calls.last().0 == src {
            let earlier = times_of(rest, src);
            let times = times_of(calls, src);
            lemma_window_start(earlier);
            lemma_window_start(times);
            assert(times.drop_last() =~= earlier);
        }
    }
}

/// Whether a step turned its packet away because of the rate limit.
pub open spec fn is_limited(before: TrackerState, after: TrackerState) -> bool {
    after.counts.rate_limited > before.counts.rate_limited
}

/// Whether a step was a first knock: one that started something, or would have if its
/// source were not rate limited.
pub open spec fn is_first_knock(
    before: TrackerState,
    after: TrackerState,
    verdict: Verdict,
    rules: KnockRules,
) -> bool {
    ||| is_limited(before, after)
    ||| verdict matches Verdict::Settled(Outcome::Partial { progress, .. }) && progress == 1
    ||| verdict is ReplayCheck && rules.knock_count == 1
}

/// Whether packet `i` of a history is a first knock of `src`.
pub open spec fn is_first_of(history: History, i: int, src: IpAddr, rules: KnockRules) -> bool {
    &&& history.packets[i].src == src
    &&& is_first_knock(history.states[i], history.steps[i], history.verdicts[i], rules)
}

/// When the first knocks of `src` among the first `k` packets came.
pub open spec fn first_knocks(history: History, src: IpAddr, rules: KnockRules, k: int) -> Seq<u128>
    decreases k,
{
    if k <= 0 {
        seq![]
    } else if is_first_of(history, k - 1, src, rules) {
        first_knocks(history, src, rules, k - 1).push(history.packets[k - 1].now)
    } else {
        first_knocks(history, src, rules, k - 1)
    }
}

/// A sweep changes nothing about a first knock that comes then or later.
proof fn lemma_counted_attempt(
    before: TrackerState,
    after: TrackerState,
    now: u128,
    src: IpAddr,
    later: u128,
)
    requires
        model::counted(before, after, now),
        now <= later,
    ensures
        model::attempt(after.limits, src, later) == model::attempt(before.limits, src, later),
{
}

/// A first knock counts, and is turned away where it is one too many. Nothing else counts.
proof fn lemma_step_counts(
    before: TrackerState,
    after: TrackerState,
    verdict: Verdict,
    packets: Seq<Packet>,
    p: Packet,
    rules: KnockRules,
)
    requires
        history::follows(before, packets, rules),
        model::derivable(rules, p.windows),
        model::stepped(before, after, verdict, p.src, p.port, p.windows, rules, p.now),
    ensures
        ({
            let entry = model::attempt(before.limits, p.src, p.now);
            if is_first_knock(before, after, verdict, rules) {
                &&& after.limits.contains_key(p.src)
                &&& after.limits[p.src] == entry
                &&& is_limited(before, after) <==> entry.0 > RATE_LIMIT_MAX
                &&& is_limited(before, after) ==> {
                    &&& verdict == Verdict::Settled(Outcome::Unrelated)
                    &&& !after.started.contains_key(p.src)
                }
            } else {
                forall|later: u128|
                    p.now <= later ==> #[trigger] model::attempt(after.limits, p.src, later)
                        == model::attempt(before.limits, p.src, later)
            }
        }),
        forall|other: IpAddr, later: u128|
            other != p.src && p.now <= later ==> #[trigger] model::attempt(
                after.limits,
                other,
                later,
            ) == model::attempt(before.limits, other, later),
{
    let src = p.src;
    let mid = choose|mid: TrackerState| #[trigger]
        model::counted(before, mid, p.now) && model::advanced(
            mid,
            after,
            verdict,
            src,
            p.port,
            p.windows,
            rules,
            p.now,
        );
    model::lemma_counted(before, mid, p.now);
    history::lemma_on(rules, p.windows, p.port);
    assert(model::table_in_use(mid.table, rules, p.windows) == model::table_for(
        rules,
        p.windows,
    ));
    assert forall|a: IpAddr, later: u128| p.now <= later implies #[trigger] model::attempt(
        mid.limits,
        a,
        later,
    ) == model::attempt(before.limits, a, later) by {
        lemma_counted_attempt(before, mid, p.now, a, later);
    }
    let list = model::table_for(rules, p.windows).on(p.port);
    if list.len() > 0 {
        assert(list[0].sequence.len() == rules.knock_count);
    }
    assert(model::attempt(mid.limits, src, p.now) == model::attempt(before.limits, src, p.now));
    let started = model::without_stale(mid.started, src, p.now);
    if started.contains_key(src) && model::left_by(started[src], p.port).len() > 0 {
        let q = started[src];
        model::lemma_keeping(q.matches, q.next_index, p.port);
        let m = model::left_by(q, p.port)[0];
        assert(q.matches.contains(m));
        let i = q.matches.index_of(m);
        assert(history::is_match(q.matches[i], q.next_index, history::from(packets, src), rules));
        assert(m.sequence.len() == rules.knock_count);
    }
    assert forall|other: IpAddr, later: u128|
        other != src && p.now <= later implies #[trigger] model::attempt(
        after.limits,
        other,
        later,
    ) == model::attempt(before.limits, other, later) by {
        assert(model::attempt(mid.limits, other, later) == model::attempt(
            before.limits,
            other,
            later,
        ));
        assert(after.limits.contains_key(other) <==> mid.limits.contains_key(other));
        assert(after.limits.contains_key(other) ==> after.limits[other] == mid.limits[other]);
    }
    if !is_first_knock(before, after, verdict, rules) {
        assert(after.limits == mid.limits);
        assert forall|later: u128| p.now <= later implies #[trigger] model::attempt(
            after.limits,
            src,
            later,
        ) == model::attempt(before.limits, src, later) by {
            assert(model::attempt(mid.limits, src, later) == model::attempt(
                before.limits,
                src,
                later,
            ));
        }
    }
}

/// Whether the rate-limit entry of `src` is what its first knocks at `times` make it, as
/// far as it counts from `at` on.
spec fn counts_knocks(state: TrackerState, src: IpAddr, times: Seq<u128>, at: u128) -> bool {
    forall|now: u128|
        at <= now ==> {
            let entry = #[trigger] model::attempt(state.limits, src, now);
            &&& entry.0 == place_in_window(times.push(now))
            &&& entry.1 == times.push(now)[window_start(times.push(now))]
        }
}

/// One more first knock.
proof fn lemma_one_more_knock(
    before: TrackerState,
    after: TrackerState,
    src: IpAddr,
    times: Seq<u128>,
    at: u128,
    now: u128,
)
    requires
        at <= now,
        times.len() + 1 < u32::MAX,
        counts_knocks(before, src, times, at),
        after.limits.contains_key(src),
        after.limits[src] == model::attempt(before.limits, src, now),
    ensures
        counts_knocks(after, src, times.push(now), now),
{
    let more = times.push(now);
    lemma_window_start(more);
    assert forall|later: u128| now <= later implies {
        let entry = #[trigger] model::attempt(after.limits, src, later);
        &&& entry.0 == place_in_window(more.push(later))
        &&& entry.1 == more.push(later)[window_start(more.push(later))]
    } by {
        assert(model::attempt(before.limits, src, now).0 == place_in_window(more));
        assert(more.push(later).drop_last() =~= more);
        assert(more.push(later)[window_start(more)] == more[window_start(more)]);
        assert(more.push(later).last() == later);
    }
}

/// At any time the rate-limit entries are what the first knocks have made them.
proof fn lemma_knocks_are_counted(
    history: History,
    rules: KnockRules,
    window_secs: u64,
    src: IpAddr,
    k: int,
)
    requires
        history.valid(rules, window_secs),
        in_order(history.packets),
        history.packets.len() < u32::MAX,
        0 <= k <= history.packets.len(),
    ensures
        first_knocks(history, src, rules, k).len() <= k,
        counts_knocks(
            history.states[k],
            src,
            first_knocks(history, src, rules, k),
            earliest(history.packets, k),
        ),
    decreases k,
{
    let times = first_knocks(history, src, rules, k);
    if k == 0 {
        assert forall|now: u128| true implies {
            let entry = #[trigger] model::attempt(history.states[0].limits, src, now);
            &&& entry.0 == place_in_window(times.push(now))
            &&& entry.1 == times.push(now)[window_start(times.push(now))]
        } by {
            assert(times.push(now).len() == 1);
        }
    } else {
        let i = k - 1;
        let p = history.packets[i];
        let earlier = first_knocks(history, src, rules, i);
        lemma_knocks_are_counted(history, rules, window_secs, src, i);
        assert(history.has_step(i, rules, window_secs));
        history::law_state_follows_from_packets(history, rules, window_secs, i);
        lemma_step_counts(
            history.states[i],
            history.steps[i],
            history.verdicts[i],
            history.packets.take(i),
            p,
            rules,
        );
        assert(history.states[k].limits == history.steps[i].limits);
        assert(earliest(history.packets, i) <= p.now);
        if is_first_of(history, i, src, rules) {
            lemma_one_more_knock(
                history.states[i],
                history.states[k],
                src,
                earlier,
                earliest(history.packets, i),
                p.now,
            );
        } else {
            assert forall|now: u128| p.now <= now implies {
                let entry = #[trigger] model::attempt(history.states[k].limits, src, now);
                &&& entry.0 == place_in_window(times.push(now))
                &&& entry.1 == times.push(now)[window_start(times.push(now))]
            } by {
                assert(model::attempt(history.steps[i].limits, src, now) == model::attempt(
                    history.states[i].limits,
                    src,
                    now,
                ));
            }
        }
    }
}

/// Each source has its own allowance of first knocks: the n-th of a source in one
/// rate-limit window is turned away if and only if n is more than the limit, whatever
/// other sources send. The first of a new window passes again.
pub proof fn law_nth_first_knock(
    history: History,
    rules: KnockRules,
    window_secs: u64,
    src: IpAddr,
    i: int,
)
    requires
        history.valid(rules, window_secs),
        in_order(history.packets),
        history.packets.len() < u32::MAX,
        0 <= i < history.packets.len(),
        is_first_of(history, i, src, rules),
    ensures
        ({
            let n = place_in_window(first_knocks(history, src, rules, i + 1));
            let limited = is_limited(history.states[i], history.steps[i]);
            &&& n >= 1
            &&& limited <==> n > RATE_LIMIT_MAX
            &&& limited ==> history.outcomes[i] == Outcome::Unrelated
            &&& limited ==> !history.states[i + 1].started.contains_key(src)
            &&& !limited ==> history.outcomes[i] != Outcome::Unrelated
        }),
{
    let p = history.packets[i];
    lemma_knocks_are_counted(history, rules, window_secs, src, i);
    assert(history.has_step(i, rules, window_secs));
    history::law_state_follows_from_packets(history, rules, window_secs, i);
    lemma_step_counts(
        history.states[i],
        history.steps[i],
        history.verdicts[i],
        history.packets.take(i),
        p,
        rules,
    );
    lemma_window_start(first_knocks(history, src, rules, i + 1));
    assert(earliest(history.packets, i) <= p.now);
    assert(model::attempt(history.states[i].limits, src, p.now).0 == place_in_window(
        first_knocks(history, src, rules, i).push(p.now),
    ));
}

// ---- Each source by itself ----

/// What a source by itself comes to: what it has started, its rate-limit entry, and the
/// windows that have been used.
#[verifier::ext_equal]
pub struct Standing {
    pub progress: Option<Progress>,
    pub limit: Option<(u32, u128)>,
    pub used: UsedWindows,
}

/// What has been started, unless it has expired.
pub open spec fn live(progress: Option<Progress>, now: u128) -> Option<Progress> {
    match progress {
        Some(q) if !model::is_expired(q, now) => Some(q),
        _ => None,
    }
}

/// The rate-limit entry after one more first knock.
pub open spec fn one_more(limit: Option<(u32, u128)>, now: u128) -> (u32, u128) {
    match limit {
        Some(entry) if now - entry.1 < RATE_LIMIT_WINDOW => ((entry.0 + 1) as u32, entry.1),
        _ => (1, now),
    }
}

/// What becomes of a packet of a source that stands at `s`, and where it stands then, up
/// to where the replay store is asked.
pub open spec fn own_step(s: Standing, p: Packet, rules: KnockRules) -> (Standing, Verdict) {
    let left = match live(s.progress, p.now) {
        Some(q) => model::left_by(q, p.port),
        None => seq![],
    };
    let matches = model::named(model::table_for(rules, p.windows).on(p.port), rules);
    let entry = one_more(s.limit, p.now);
    let limited = Standing { progress: None, limit: Some(entry), ..s };
    if left.len() > 0 {
        let known = s.progress->0.next_index + 1;
        let total = left[0].sequence.len();
        let next = Progress { matches: left, next_index: known, last_knock: p.now };
        if known == total {
            (
                Standing { progress: None, ..s },
                Verdict::ReplayCheck { user: left[0].user, window: left[0].window },
            )
        } else {
            (
                Standing { progress: Some(next), ..s },
                Verdict::Settled(Outcome::Partial { user: left[0].user, progress: known, total }),
            )
        }
    } else if matches.len() == 0 {
        (Standing { progress: None, ..s }, Verdict::Settled(Outcome::Unrelated))
    } else if entry.0 > RATE_LIMIT_MAX {
        (limited, Verdict::Settled(Outcome::Unrelated))
    } else if matches[0].sequence.len() == 1 {
        (limited, Verdict::ReplayCheck { user: matches[0].user, window: matches[0].window })
    } else {
        let first = Progress { matches, next_index: 1, last_knock: p.now };
        let total = rules.knock_count;
        (
            Standing { progress: Some(first), ..limited },
            Verdict::Settled(Outcome::Partial { user: matches[0].user, progress: 1, total }),
        )
    }
}

/// What comes of a packet of a source that stands at `s`, and where it stands then.
pub open spec fn own_result(s: Standing, p: Packet, rules: KnockRules, window_secs: u64) -> (
    Standing,
    Outcome,
) {
    let (next, verdict) = own_step(s, p, rules);
    match verdict {
        Verdict::Settled(outcome) => (next, outcome),
        Verdict::ReplayCheck { user, window } => if s.used.contains_key((user, window)) {
            (next, Outcome::Mismatch)
        } else {
            let used = store::marked(s.used, user, window, p.unix_secs, window_secs);
            (Standing { used, ..next }, Outcome::Complete { user })
        },
    }
}

/// Where a source stands that has sent `knocks`, while no other source completed anything.
pub open spec fn own_standing(
    used: UsedWindows,
    knocks: Seq<Packet>,
    rules: KnockRules,
    window_secs: u64,
) -> Standing
    decreases knocks.len(),
{
    if knocks.len() == 0 {
        Standing { progress: None, limit: None, used }
    } else {
        own_result(
            own_standing(used, knocks.drop_last(), rules, window_secs),
            knocks.last(),
            rules,
            window_secs,
        ).0
    }
}

/// What came of each of `knocks`, while no other source completed anything.
pub open spec fn own_outcomes(
    used: UsedWindows,
    knocks: Seq<Packet>,
    rules: KnockRules,
    window_secs: u64,
) -> Seq<Outcome>
    decreases knocks.len(),
{
    if knocks.len() == 0 {
        seq![]
    } else {
        own_outcomes(used, knocks.drop_last(), rules, window_secs).push(
            own_result(
                own_standing(used, knocks.drop_last(), rules, window_secs),
                knocks.last(),
                rules,
                window_secs,
            ).1,
        )
    }
}

/// What came of the packets of `src` among the first `k`, in order.
pub open spec fn outcomes_of(history: History, src: IpAddr, k: int) -> Seq<Outcome>
    decreases k,
{
    if k <= 0 {
        seq![]
    } else if history.packets[k - 1].src == src {
        outcomes_of(history, src, k - 1).push(history.outcomes[k - 1])
    } else {
        outcomes_of(history, src, k - 1)
    }
}

/// Whether nothing comes between `src` and the tracker: time never runs backwards, the
/// tracker stays below capacity, and no other source completes anything.
pub open spec fn is_undisturbed(history: History, src: IpAddr) -> bool {
    &&& in_order(history.packets)
    &&& forall|i: int|
        0 <= i < history.packets.len() ==> (#[trigger] history.states[i]).started.len()
            < MAX_TRACKED_IPS
    &&& forall|i: int|
        0 <= i < history.packets.len() && history.packets[i].src != src ==> !((
        #[trigger] history.outcomes[i]) is Complete)
}

/// What a tracker has started for `src`.
spec fn started_for(state: TrackerState, src: IpAddr) -> Option<Progress> {
    if state.started.contains_key(src) {
        Some(state.started[src])
    } else {
        None
    }
}

/// Whether a tracker holds of `src` what it stands at, as far as it counts from `at` on.
spec fn holds(state: TrackerState, src: IpAddr, s: Standing, at: u128) -> bool {
    forall|now: u128|
        #![trigger model::attempt(state.limits, src, now)]
        #![trigger live(started_for(state, src), now)]
        at <= now ==> {
            &&& live(started_for(state, src), now) == live(s.progress, now)
            &&& model::attempt(state.limits, src, now) == one_more(s.limit, now)
        }
}

/// Counting a packet changes nothing about what a source stands at.
proof fn lemma_counted_holds(
    before: TrackerState,
    after: TrackerState,
    src: IpAddr,
    s: Standing,
    at: u128,
    now: u128,
)
    requires
        before.wf(),
        before.started.len() < MAX_TRACKED_IPS,
        at <= now,
        holds(before, src, s, at),
        model::counted(before, after, now),
    ensures
        holds(after, src, s, now),
        after.wf(),
        after.started.len() < MAX_TRACKED_IPS,
{
    model::lemma_counted(before, after, now);
    model::lemma_subset_len(model::unexpired(before.started, now), before.started);
    model::lemma_subset_len(after.started, before.started);
    assert forall|later: u128|
        #![trigger model::attempt(after.limits, src, later)]
        #![trigger live(started_for(after, src), later)]
        now <= later implies {
        &&& live(started_for(after, src), later) == live(s.progress, later)
        &&& model::attempt(after.limits, src, later) == one_more(s.limit, later)
    } by {
        lemma_counted_attempt(before, after, now, src, later);
        assert(live(started_for(before, src), later) == live(s.progress, later));
        assert(live(started_for(after, src), later) == live(started_for(before, src), later));
    }
}

/// A packet of a source does to the tracker what it does to where the source stands.
proof fn lemma_own_step(
    before: TrackerState,
    after: TrackerState,
    verdict: Verdict,
    s: Standing,
    at: u128,
    packets: Seq<Packet>,
    p: Packet,
    rules: KnockRules,
)
    requires
        history::follows(before, packets, rules),
        before.started.len() < MAX_TRACKED_IPS,
        at <= p.now,
        holds(before, p.src, s, at),
        model::stepped(before, after, verdict, p.src, p.port, p.windows, rules, p.now),
    ensures
        verdict == own_step(s, p, rules).1,
        holds(after, p.src, own_step(s, p, rules).0, p.now),
{
    let src = p.src;
    let mid = choose|mid: TrackerState| #[trigger]
        model::counted(before, mid, p.now) && model::advanced(
            mid,
            after,
            verdict,
            src,
            p.port,
            p.windows,
            rules,
            p.now,
        );
    lemma_counted_holds(before, mid, src, s, at, p.now);
    assert(model::table_in_use(mid.table, rules, p.windows) == model::table_for(
        rules,
        p.windows,
    ));
    assert(live(started_for(mid, src), p.now) == live(s.progress, p.now));
    assert(model::attempt(mid.limits, src, p.now) == one_more(s.limit, p.now));
    let started = model::without_stale(mid.started, src, p.now);
    model::lemma_subset_len(started, mid.started);
    model::lemma_subset_len(started.remove(src), mid.started);
    assert(started_for(TrackerState { started, ..mid }, src) == live(s.progress, p.now));
    let next = own_step(s, p, rules).0;
    assert(started_for(after, src) == next.progress);
    assert forall|later: u128|
        #![trigger model::attempt(after.limits, src, later)]
        #![trigger live(started_for(after, src), later)]
        p.now <= later implies {
        &&& live(started_for(after, src), later) == live(next.progress, later)
        &&& model::attempt(after.limits, src, later) == one_more(next.limit, later)
    } by {
        assert(model::attempt(mid.limits, src, later) == one_more(s.limit, later));
    }
}

/// A packet of another source does nothing to where a source stands.
proof fn lemma_other_step(
    before: TrackerState,
    after: TrackerState,
    verdict: Verdict,
    src: IpAddr,
    s: Standing,
    at: u128,
    p: Packet,
    rules: KnockRules,
)
    requires
        before.wf(),
        before.started.len() < MAX_TRACKED_IPS,
        at <= p.now,
        p.src != src,
        holds(before, src, s, at),
        model::stepped(before, after, verdict, p.src, p.port, p.windows, rules, p.now),
    ensures
        holds(after, src, s, p.now),
{
    let mid = choose|mid: TrackerState| #[trigger]
        model::counted(before, mid, p.now) && model::advanced(
            mid,
            after,
            verdict,
            p.src,
            p.port,
            p.windows,
            rules,
            p.now,
        );
    lemma_counted_holds(before, mid, src, s, at, p.now);
    let started = model::without_stale(mid.started, p.src, p.now);
    model::lemma_subset_len(started, mid.started);
    model::lemma_subset_len(started.remove(p.src), mid.started);
    assert(started_for(after, src) == started_for(mid, src));
    assert forall|later: u128|
        #![trigger model::attempt(after.limits, src, later)]
        #![trigger live(started_for(after, src), later)]
        p.now <= later implies {
        &&& live(started_for(after, src), later) == live(s.progress, later)
        &&& model::attempt(after.limits, src, later) == one_more(s.limit, later)
    } by {
        assert(model::attempt(mid.limits, src, later) == one_more(s.limit, later));
        assert(live(started_for(mid, src), later) == live(s.progress, later));
    }
}

/// At any time the tracker holds of a source what its own packets make of it.
proof fn lemma_holds_own_standing(
    history: History,
    rules: KnockRules,
    window_secs: u64,
    src: IpAddr,
    k: int,
)
    requires
        history.valid(rules, window_secs),
        is_undisturbed(history, src),
        0 <= k <= history.packets.len(),
    ensures
        ({
            let knocks = history::from(history.packets.take(k), src);
            let s = own_standing(history.used[0], knocks, rules, window_secs);
            &&& holds(history.states[k], src, s, earliest(history.packets, k))
            &&& history.used[k] == s.used
            &&& outcomes_of(history, src, k) == own_outcomes(
                history.used[0],
                knocks,
                rules,
                window_secs,
            )
        }),
    decreases k,
{
    let packets = history.packets.take(k);
    let knocks = history::from(packets, src);
    if k > 0 {
        let i = k - 1;
        let p = history.packets[i];
        let earlier = history::from(history.packets.take(i), src);
        let s = own_standing(history.used[0], earlier, rules, window_secs);
        let at = earliest(history.packets, i);
        lemma_holds_own_standing(history, rules, window_secs, src, i);
        history::law_state_follows_from_packets(history, rules, window_secs, i);
        assert(history.has_step(i, rules, window_secs));
        assert(packets =~= history.packets.take(i).push(p));
        history::lemma_from_push(history.packets.take(i), p, src);
        assert(history.states[i].started.len() < MAX_TRACKED_IPS);
        assert(at <= p.now);
        if p.src == src {
            lemma_own_step(
                history.states[i],
                history.steps[i],
                history.verdicts[i],
                s,
                at,
                history.packets.take(i),
                p,
                rules,
            );
            assert(knocks.drop_last() =~= earlier);
            let next = own_result(s, p, rules, window_secs);
            lemma_same_holds(
                history.steps[i],
                history.states[k],
                src,
                own_step(s, p, rules).0,
                next.0,
                p.now,
            );
            assert(history.outcomes[i] == next.1);
        } else {
            lemma_other_step(
                history.states[i],
                history.steps[i],
                history.verdicts[i],
                src,
                s,
                at,
                p,
                rules,
            );
            lemma_same_holds(history.steps[i], history.states[k], src, s, s, p.now);
            assert(!(history.outcomes[i] is Complete));
        }
    }
}

proof fn lemma_same_holds(
    one: TrackerState,
    other: TrackerState,
    src: IpAddr,
    s: Standing,
    t: Standing,
    at: u128,
)
    requires
        holds(one, src, s, at),
        other.started == one.started,
        other.limits == one.limits,
        t.progress == s.progress,
        t.limit == s.limit,
    ensures
        holds(other, src, t, at),
{
    assert forall|now: u128|
        #![trigger model::attempt(other.limits, src, now)]
        #![trigger live(started_for(other, src), now)]
        at <= now implies {
        &&& live(started_for(other, src), now) == live(t.progress, now)
        &&& model::attempt(other.limits, src, now) == one_more(t.limit, now)
    } by {
        assert(model::attempt(one.limits, src, now) == one_more(s.limit, now));
        assert(started_for(other, src) == started_for(one, src));
    }
}

/// Each source is served as though it were alone: what comes of its packets is determined
/// by them and by the windows used before.
pub proof fn law_source_is_served_as_if_alone(
    history: History,
    rules: KnockRules,
    window_secs: u64,
    src: IpAddr,
)
    requires
        history.valid(rules, window_secs),
        is_undisturbed(history, src),
    ensures
        outcomes_of(history, src, history.packets.len() as int) == own_outcomes(
            history.used[0],
            history::from(history.packets, src),
            rules,
            window_secs,
        ),
{
    let n = history.packets.len() as int;
    lemma_holds_own_standing(history, rules, window_secs, src, n);
    assert(history.packets.take(n) =~= history.packets);
}

/// Other sources change no result: two trackers that see the same packets of a source, at
/// the same times, give it the same results, whatever else other sources send to one of
/// them or the other without completing anything.
pub proof fn law_other_sources_change_no_result(
    one: History,
    other: History,
    rules: KnockRules,
    window_secs: u64,
    src: IpAddr,
)
    requires
        one.valid(rules, window_secs),
        other.valid(rules, window_secs),
        is_undisturbed(one, src),
        is_undisturbed(other, src),
        one.used[0] == other.used[0],
        history::from(one.packets, src) == history::from(other.packets, src),
    ensures
        outcomes_of(one, src, one.packets.len() as int) == outcomes_of(
            other,
            src,
            other.packets.len() as int,
        ),
{
    law_source_is_served_as_if_alone(one, rules, window_secs, src);
    law_source_is_served_as_if_alone(other, rules, window_secs, src);
}

} // verus!
