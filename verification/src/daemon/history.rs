//! What holds of a tracker over all the packets that it has seen.

use vstd::prelude::*;

use crate::address::IpAddr;
use crate::clock::{self, ClockError};
use crate::daemon::config::KnockRules;
use crate::daemon::model::{
    self, Candidate, Counts, Match, Outcome, Progress, TrackerState, Verdict, MAX_TRACKED_IPS,
    PARTIAL_TIMEOUT, RATE_LIMIT_MAX, RATE_LIMIT_WINDOW, SWEEP_INTERVAL,
};
use crate::daemon::store::{self, StoreError, UsedWindows};
use crate::sequence;

verus! {

/// A packet from `src` on `port`, seen when the monotonic clock showed `now` and the time
/// of day was `unix_secs`, while `windows` were tolerated.
pub struct Packet {
    pub src: IpAddr,
    pub port: u16,
    pub windows: Seq<u64>,
    pub now: u128,
    pub unix_secs: u64,
}

/// What a new tracker does with a number of packets: `states[i]` and `used[i]` are the
/// states of tracker and replay store before packet `i`.
pub struct History {
    pub packets: Seq<Packet>,
    pub states: Seq<TrackerState>,
    pub used: Seq<UsedWindows>,
    /// For each packet the state of the tracker before the store is asked.
    pub steps: Seq<TrackerState>,
    pub verdicts: Seq<Verdict>,
    pub outcomes: Seq<Outcome>,
}

impl History {
    /// Whether packet `i` leads from the states before it to those after it.
    pub open spec fn has_step(self, i: int, rules: KnockRules, window_secs: u64) -> bool {
        let p = self.packets[i];
        &&& model::derivable(rules, p.windows)
        &&& model::stepped(
            self.states[i],
            self.steps[i],
            self.verdicts[i],
            p.src,
            p.port,
            p.windows,
            rules,
            p.now,
        )
        &&& model::concluded(
            self.steps[i],
            self.states[i + 1],
            self.verdicts[i],
            self.outcomes[i],
            self.used[i],
            self.used[i + 1],
            p.unix_secs,
            window_secs,
        )
    }

    /// Whether each packet leads from one state to the next, from a new tracker on.
    pub open spec fn valid(self, rules: KnockRules, window_secs: u64) -> bool {
        let n = self.packets.len();
        &&& self.states.len() == n + 1
        &&& self.used.len() == n + 1
        &&& self.steps.len() == n
        &&& self.verdicts.len() == n
        &&& self.outcomes.len() == n
        &&& self.states[0] == TrackerState::new()
        &&& forall|i: int| 0 <= i < n ==> #[trigger] self.has_step(i, rules, window_secs)
    }
}

/// The history of a tracker that has seen nothing yet, with a store that holds `used`.
pub open spec fn no_history(used: UsedWindows) -> History {
    History {
        packets: seq![],
        states: seq![TrackerState::new()],
        used: seq![used],
        steps: seq![],
        verdicts: seq![],
        outcomes: seq![],
    }
}

/// Histories are what a tracker goes through: a new tracker has one, and each packet that
/// is processed makes it longer by that packet.
pub proof fn law_processing_makes_history(
    history: History,
    rules: KnockRules,
    window_secs: u64,
    src: IpAddr,
    port: u16,
    windows: Seq<u64>,
    after: TrackerState,
    used_after: UsedWindows,
    outcome: Outcome,
) -> (longer: History)
    requires
        history.valid(rules, window_secs),
        model::derivable(rules, windows),
        model::processed(
            history.states.last(),
            after,
            Some(outcome),
            src,
            port,
            windows,
            rules,
            history.used.last(),
            used_after,
            window_secs,
        ),
    ensures
        no_history(history.used[0]).valid(rules, window_secs),
        longer.valid(rules, window_secs),
        longer.packets.len() == history.packets.len() + 1,
        longer.packets.drop_last() == history.packets,
        longer.packets.last().src == src,
        longer.packets.last().port == port,
        longer.packets.last().windows == windows,
        longer.states == history.states.push(after),
        longer.used == history.used.push(used_after),
        longer.outcomes == history.outcomes.push(outcome),
{
    let before = history.states.last();
    let (now, mid, verdict) = choose|now: u128, mid: TrackerState, verdict: Verdict|
        {
            &&& #[trigger] model::stepped(before, mid, verdict, src, port, windows, rules, now)
            &&& exists|unix_secs: u64| #[trigger]
                model::concluded(
                    mid,
                    after,
                    verdict,
                    outcome,
                    history.used.last(),
                    used_after,
                    unix_secs,
                    window_secs,
                )
        };
    let unix_secs = choose|unix_secs: u64| #[trigger]
        model::concluded(
            mid,
            after,
            verdict,
            outcome,
            history.used.last(),
            used_after,
            unix_secs,
            window_secs,
        );
    let longer = History {
        packets: history.packets.push(Packet { src, port, windows, now, unix_secs }),
        states: history.states.push(after),
        used: history.used.push(used_after),
        steps: history.steps.push(mid),
        verdicts: history.verdicts.push(verdict),
        outcomes: history.outcomes.push(outcome),
    };
    assert forall|i: int| 0 <= i < longer.packets.len() implies #[trigger] longer.has_step(
        i,
        rules,
        window_secs,
    ) by {
        if i < history.packets.len() {
            assert(history.has_step(i, rules, window_secs));
        }
    }
    assert(longer.packets.drop_last() =~= history.packets);
    longer
}

/// A packet that is taken in parts is processed as a whole: where `step` came to `verdict`,
/// the replay store was asked and told as `verdict` has it, and `finish` was called with
/// what it said, the packet is processed, and the history is longer by that packet.
pub proof fn law_step_store_and_finish_make_history(
    history: History,
    rules: KnockRules,
    window_secs: u64,
    p: Packet,
    mid: TrackerState,
    verdict: Verdict,
    after: TrackerState,
    used_after: UsedWindows,
    outcome: Outcome,
) -> (longer: History)
    requires
        history.valid(rules, window_secs),
        model::derivable(rules, p.windows),
        model::stepped(
            history.states.last(),
            mid,
            verdict,
            p.src,
            p.port,
            p.windows,
            rules,
            p.now,
        ),
        match verdict {
            Verdict::Settled(settled) => {
                &&& after == mid
                &&& outcome == settled
                &&& used_after == history.used.last()
            },
            Verdict::ReplayCheck { user, window } => {
                let used = history.used.last().contains_key((user, window));
                &&& used_after == if used {
                    history.used.last()
                } else {
                    store::marked(history.used.last(), user, window, p.unix_secs, window_secs)
                }
                &&& model::finished(mid, after, user, Ok(used), Ok(()), outcome)
            },
        },
    ensures
        model::processed(
            history.states.last(),
            after,
            Some(outcome),
            p.src,
            p.port,
            p.windows,
            rules,
            history.used.last(),
            used_after,
            window_secs,
        ),
        longer.valid(rules, window_secs),
        longer.packets == history.packets.push(p),
        longer.states == history.states.push(after),
        longer.used == history.used.push(used_after),
        longer.verdicts == history.verdicts.push(verdict),
        longer.outcomes == history.outcomes.push(outcome),
{
    assert(model::concluded(
        mid,
        after,
        verdict,
        outcome,
        history.used.last(),
        used_after,
        p.unix_secs,
        window_secs,
    ));
    let longer = History {
        packets: history.packets.push(p),
        states: history.states.push(after),
        used: history.used.push(used_after),
        steps: history.steps.push(mid),
        verdicts: history.verdicts.push(verdict),
        outcomes: history.outcomes.push(outcome),
    };
    assert forall|i: int| 0 <= i < longer.packets.len() implies #[trigger] longer.has_step(
        i,
        rules,
        window_secs,
    ) by {
        if i < history.packets.len() {
            assert(history.has_step(i, rules, window_secs));
        }
    }
    longer
}

/// Those of `packets` that come from `src`, in order.
pub open spec fn from(packets: Seq<Packet>, src: IpAddr) -> Seq<Packet>
    decreases packets.len(),
{
    if packets.len() == 0 {
        seq![]
    } else if packets.last().src == src {
        from(packets.drop_last(), src).push(packets.last())
    } else {
        from(packets.drop_last(), src)
    }
}

/// Whether, from `start` on, none of `knocks` comes more than the timeout after the one
/// before.
pub open spec fn in_succession(knocks: Seq<Packet>, start: int) -> bool {
    forall|i: int, j: int|
        start <= i < knocks.len() && j == i + 1 && j < knocks.len() ==> (
        #[trigger] knocks[j]).now - (#[trigger] knocks[i]).now <= PARTIAL_TIMEOUT
}

/// Whether the last `n` of `knocks` are the first `n` ports of `sequence`, none of them
/// more than the timeout after the one before, and `window` was tolerated at the first.
pub open spec fn spells(knocks: Seq<Packet>, n: nat, sequence: Seq<u16>, window: u64) -> bool {
    let start = knocks.len() - n;
    &&& 1 <= n <= knocks.len()
    &&& n <= sequence.len()
    &&& forall|i: int| 0 <= i < n ==> (#[trigger] knocks[start + i]).port == sequence[i]
    &&& in_succession(knocks, start)
    &&& knocks[start as int].windows.contains(window)
}

/// Whether `sequence` is what the key of some user of that name gives for `window`.
pub open spec fn belongs_to(
    sequence: Seq<u16>,
    user: Seq<char>,
    window: u64,
    rules: KnockRules,
) -> bool {
    exists|u: int|
        0 <= u < rules.users.len() && (#[trigger] rules.users[u]).name == user && sequence
            == sequence::knock_sequence(rules.users[u].secret, window, rules.knock_count)
}

/// Whether a state follows from the packets seen: the table is that of the rules, and
/// each started sequence has been knocked as far as it says.
pub open spec fn follows(state: TrackerState, packets: Seq<Packet>, rules: KnockRules) -> bool {
    &&& state.wf()
    &&& state.table matches Some(t) ==> {
        &&& t == model::table_for(rules, t.windows)
        &&& model::derivable(rules, t.windows)
    }
    &&& forall|a: IpAddr| #[trigger]
        state.started.contains_key(a) ==> is_knocked(state.started[a], from(packets, a), rules)
}

/// Whether a configured key gives the sequence of `m`, and the first `n` of its ports are
/// the last of `knocks`.
pub open spec fn is_match(m: Match, n: nat, knocks: Seq<Packet>, rules: KnockRules) -> bool {
    &&& belongs_to(m.sequence, m.user, m.window, rules)
    &&& spells(knocks, n, m.sequence, m.window)
}

/// Whether a source that has sent `knocks` has knocked all that `progress` says.
pub open spec fn is_knocked(progress: Progress, knocks: Seq<Packet>, rules: KnockRules) -> bool {
    &&& knocks.last().now == progress.last_knock
    &&& forall|i: int|
        0 <= i < progress.matches.len() ==> is_match(
            #[trigger] progress.matches[i],
            progress.next_index,
            knocks,
            rules,
        )
}

/// Whether a candidate is one that the rules give for a window among `windows`, beginning
/// with `port`.
pub open spec fn is_candidate(
    c: Candidate,
    rules: KnockRules,
    windows: Seq<u64>,
    port: u16,
) -> bool {
    &&& c.user_index < rules.users.len()
    &&& windows.contains(c.window)
    &&& c.sequence.len() == rules.knock_count
    &&& c.sequence.len() > 0
    &&& c.sequence[0] == port
    &&& c.sequence == sequence::knock_sequence(
        rules.users[c.user_index as int].secret,
        c.window,
        rules.knock_count,
    )
}

pub(crate) proof fn lemma_on(rules: KnockRules, windows: Seq<u64>, port: u16)
    requires
        model::derivable(rules, windows),
    ensures
        forall|i: int|
            0 <= i < model::table_for(rules, windows).on(port).len() ==> is_candidate(
                #[trigger] model::table_for(rules, windows).on(port)[i],
                rules,
                windows,
                port,
            ),
{
    let all = model::candidates(rules, rules.users.len(), windows);
    let table = model::table_for(rules, windows);
    model::lemma_table(rules, windows);
    model::lemma_candidates(rules, rules.users.len(), windows);
    model::lemma_on_port(all, port);
    assert forall|i: int| 0 <= i < table.on(port).len() implies is_candidate(
        #[trigger] table.on(port)[i],
        rules,
        windows,
        port,
    ) by {
        assert(table.on(port)[i] == model::on_port(all, port)[i]);
        assert(all.contains(table.on(port)[i]));
    }
}

pub(crate) proof fn lemma_from_push(packets: Seq<Packet>, p: Packet, a: IpAddr)
    ensures
        from(packets.push(p), a) == if p.src == a {
            from(packets, a).push(p)
        } else {
            from(packets, a)
        },
{
    assert(packets.push(p).drop_last() =~= packets);
}

/// One more packet, of a source without a started sequence, changes nothing about the
/// others.
proof fn lemma_follows_on(state: TrackerState, packets: Seq<Packet>, p: Packet, rules: KnockRules)
    requires
        follows(state, packets, rules),
        !state.started.contains_key(p.src),
    ensures
        follows(state, packets.push(p), rules),
{
    assert forall|a: IpAddr| #[trigger] state.started.contains_key(a) implies from(
        packets.push(p),
        a,
    ) == from(packets, a) by {
        lemma_from_push(packets, p, a);
    }
}

/// A started sequence whose next port is knocked in time.
proof fn lemma_spells_one_more(
    knocks: Seq<Packet>,
    n: nat,
    sequence: Seq<u16>,
    window: u64,
    p: Packet,
)
    requires
        spells(knocks, n, sequence, window),
        n < sequence.len(),
        p.port == sequence[n as int],
        p.now - knocks.last().now <= PARTIAL_TIMEOUT,
    ensures
        spells(knocks.push(p), n + 1, sequence, window),
{
    let more = knocks.push(p);
    let start = knocks.len() - n;
    assert forall|i: int| 0 <= i < n + 1 implies (#[trigger] more[start + i]).port
        == sequence[i] by {
        if i < n {
            assert(more[start + i] == knocks[start + i]);
        }
    }
    assert forall|i: int, j: int|
        start <= i < more.len() && j == i + 1 && j < more.len() implies (#[trigger] more[j]).now - (
    #[trigger] more[i]).now <= PARTIAL_TIMEOUT by {
        assert(more[i] == knocks[i]);
        if j < knocks.len() {
            assert(more[j] == knocks[j]);
        }
    }
    assert(more[start as int] == knocks[start as int]);
}

/// What is known where a packet completes a sequence.
pub open spec fn completes(
    packets: Seq<Packet>,
    src: IpAddr,
    user: Seq<char>,
    window: u64,
    rules: KnockRules,
) -> bool {
    exists|sequence: Seq<u16>|
        {
            &&& #[trigger] belongs_to(sequence, user, window, rules)
            &&& sequence.len() == rules.knock_count
            &&& spells(from(packets, src), sequence.len(), sequence, window)
        }
}

proof fn lemma_opened_follows(
    before: TrackerState,
    after: TrackerState,
    verdict: Verdict,
    packets: Seq<Packet>,
    p: Packet,
    rules: KnockRules,
)
    requires
        follows(before, packets, rules),
        !before.started.contains_key(p.src),
        model::derivable(rules, p.windows),
        model::opened(before, after, verdict, p.src, p.port, p.windows, rules, p.now),
    ensures
        follows(after, packets.push(p), rules),
        verdict matches Verdict::ReplayCheck { user, window } ==> completes(
            packets.push(p),
            p.src,
            user,
            window,
            rules,
        ),
{
    let table = model::table_in_use(before.table, rules, p.windows);
    assert(table == model::table_for(rules, p.windows));
    lemma_on(rules, p.windows, p.port);
    model::lemma_table(rules, p.windows);
    lemma_from_push(packets, p, p.src);
    lemma_follows_on(before, packets, p, rules);
    model::lemma_opened(before, after, verdict, p.src, p.port, p.windows, rules, p.now);
    let all = packets.push(p);
    let list = table.on(p.port);
    let matches = model::named(list, rules);
    let knocks = from(all, p.src);
    assert(knocks.last() == p);
    assert forall|i: int| 0 <= i < matches.len() implies is_match(
        #[trigger] matches[i],
        1,
        knocks,
        rules,
    ) by {
        assert(is_candidate(list[i], rules, p.windows, p.port));
        assert(rules.users[list[i].user_index as int].name == matches[i].user);
    }
    let entry = model::attempt(before.limits, p.src, p.now);
    if matches.len() > 0 && entry.0 <= RATE_LIMIT_MAX {
        assert(is_match(matches[0], 1, knocks, rules));
        assert(is_candidate(list[0], rules, p.windows, p.port));
        if matches[0].sequence.len() != 1 {
            let room = choose|room: Map<IpAddr, Progress>| #[trigger]
                model::made_room(before.started, room) && after.started == room.insert(
                    p.src,
                    after.started[p.src],
                );
            model::lemma_made_room(before.started, room);
            assert forall|a: IpAddr| #[trigger] after.started.contains_key(a) implies is_knocked(
                after.started[a],
                from(all, a),
                rules,
            ) by {
                if a != p.src {
                    assert(room.contains_key(a));
                    assert(before.started.contains_key(a));
                }
            }
        } else {
            assert(belongs_to(matches[0].sequence, matches[0].user, matches[0].window, rules));
        }
    }
}

proof fn lemma_fewer_follows(
    before: TrackerState,
    after: TrackerState,
    packets: Seq<Packet>,
    rules: KnockRules,
)
    requires
        follows(before, packets, rules),
        after.table == before.table,
        after.wf(),
        forall|a: IpAddr| #[trigger]
            after.started.contains_key(a) ==> before.started.contains_key(a) && after.started[a]
                == before.started[a],
    ensures
        follows(after, packets, rules),
{
    assert forall|a: IpAddr| #[trigger] after.started.contains_key(a) implies is_knocked(
        after.started[a],
        from(packets, a),
        rules,
    ) by {
        assert(before.started.contains_key(a));
    }
}

/// The sequences left by a knock in time are knocked one port further.
proof fn lemma_left_is_knocked(q: Progress, knocks: Seq<Packet>, p: Packet, rules: KnockRules)
    requires
        q.wf(),
        is_knocked(q, knocks, rules),
        !model::is_expired(q, p.now),
    ensures
        forall|i: int|
            0 <= i < model::left_by(q, p.port).len() ==> is_match(
                #[trigger] model::left_by(q, p.port)[i],
                q.next_index + 1,
                knocks.push(p),
                rules,
            ) && model::left_by(q, p.port)[i].sequence.len() == q.matches[0].sequence.len(),
{
    let left = model::left_by(q, p.port);
    model::lemma_keeping(q.matches, q.next_index, p.port);
    assert forall|i: int| 0 <= i < left.len() implies is_match(
        #[trigger] left[i],
        q.next_index + 1,
        knocks.push(p),
        rules,
    ) && left[i].sequence.len() == q.matches[0].sequence.len() by {
        let m = left[i];
        assert(q.matches.contains(m));
        let k = q.matches.index_of(m);
        assert(q.matches[k] == m);
        assert(is_match(q.matches[k], q.next_index, knocks, rules));
        lemma_spells_one_more(knocks, q.next_index, m.sequence, m.window, p);
    }
}

proof fn lemma_step_follows(
    before: TrackerState,
    after: TrackerState,
    verdict: Verdict,
    packets: Seq<Packet>,
    p: Packet,
    rules: KnockRules,
)
    requires
        follows(before, packets, rules),
        model::derivable(rules, p.windows),
        model::stepped(before, after, verdict, p.src, p.port, p.windows, rules, p.now),
    ensures
        follows(after, packets.push(p), rules),
        verdict matches Verdict::ReplayCheck { user, window } ==> completes(
            packets.push(p),
            p.src,
            user,
            window,
            rules,
        ),
{
    let src = p.src;
    let all = packets.push(p);
    let mid = choose|mid: TrackerState| #[trigger]
        model::counted(before, mid, p.now) && model::advanced(
            mid,
            after,
            verdict,
            src,
            p.port,
            p.windows,
            rules,
            p.now,
        );
    model::lemma_counted(before, mid, p.now);
    lemma_fewer_follows(before, mid, packets, rules);
    let started = model::without_stale(mid.started, src, p.now);
    model::lemma_subset_len(started, mid.started);
    let live = TrackerState { started, ..mid };
    lemma_fewer_follows(mid, live, packets, rules);
    if !started.contains_key(src) {
        lemma_opened_follows(live, after, verdict, packets, p, rules);
    } else if model::left_by(started[src], p.port).len() > 0 {
        let q = started[src];
        let left = model::left_by(q, p.port);
        let others = TrackerState { started: started.remove(src), ..mid };
        assert(live.started.contains_key(src));
        lemma_fewer_follows(live, others, packets, rules);
        lemma_follows_on(others, packets, p, rules);
        lemma_from_push(packets, p, src);
        assert(from(all, src).last() == p);
        lemma_left_is_knocked(q, from(packets, src), p, rules);
        assert(is_match(left[0], q.next_index + 1, from(all, src), rules));
        if q.next_index + 1 == left[0].sequence.len() {
            assert(after == others);
            assert(belongs_to(left[0].sequence, left[0].user, left[0].window, rules));
        } else {
            model::lemma_table(rules, p.windows);
            model::law_every_step_keeps_tracker_valid(
                before,
                after,
                verdict,
                src,
                p.port,
                p.windows,
                rules,
                p.now,
            );
            assert forall|a: IpAddr| #[trigger] after.started.contains_key(a) implies is_knocked(
                after.started[a],
                from(all, a),
                rules,
            ) by {
                if a != src {
                    assert(others.started.contains_key(a));
                }
            }
        }
    } else {
        let reset = TrackerState {
            started: started.remove(src),
            counts: Counts { mismatches: mid.counts.mismatches + 1, ..mid.counts },
            ..mid
        };
        lemma_fewer_follows(live, reset, packets, rules);
        lemma_opened_follows(reset, after, verdict, packets, p, rules);
    }
}

/// At any time in any history the state of the tracker follows from the packets that it
/// has seen: the sources with a started sequence are within capacity, each started
/// sequence is one that a configured key gives for a window tolerated at its first
/// knock, and it has been knocked, in order and in time, as far as the tracker says.
pub proof fn law_state_follows_from_packets(
    history: History,
    rules: KnockRules,
    window_secs: u64,
    n: int,
)
    requires
        history.valid(rules, window_secs),
        0 <= n <= history.packets.len(),
    ensures
        follows(history.states[n], history.packets.take(n), rules),
    decreases n,
{
    if n > 0 {
        let i = n - 1;
        law_state_follows_from_packets(history, rules, window_secs, i);
        lemma_history_step(history, rules, window_secs, i);
    }
}

proof fn lemma_history_step(history: History, rules: KnockRules, window_secs: u64, i: int)
    requires
        history.valid(rules, window_secs),
        0 <= i < history.packets.len(),
        follows(history.states[i], history.packets.take(i), rules),
    ensures
        follows(history.states[i + 1], history.packets.take(i + 1), rules),
        history.verdicts[i] matches Verdict::ReplayCheck { user, window } ==> completes(
            history.packets.take(i + 1),
            history.packets[i].src,
            user,
            window,
            rules,
        ),
{
    let packets = history.packets.take(i);
    let p = history.packets[i];
    assert(history.has_step(i, rules, window_secs));
    lemma_step_follows(
        history.states[i],
        history.steps[i],
        history.verdicts[i],
        packets,
        p,
        rules,
    );
    assert(history.packets.take(i + 1) =~= packets.push(p));
    lemma_fewer_follows(history.steps[i], history.states[i + 1], packets.push(p), rules);
}

/// No one gets in without the key's knock: a source completes a sequence only if the
/// last packets that it has sent are, in order, all the ports that a configured key
/// gives for a window, each within the timeout after the one before, the first of them
/// while that window was tolerated, and only if that user had not used that window
/// before. From then on it counts as used.
pub proof fn law_completion_needs_whole_sequence(
    history: History,
    rules: KnockRules,
    window_secs: u64,
    i: int,
    user: Seq<char>,
)
    requires
        history.valid(rules, window_secs),
        0 <= i < history.packets.len(),
        history.outcomes[i] == (Outcome::Complete { user }),
    ensures
        exists|window: u64|
            {
                &&& #[trigger] completes(
                    history.packets.take(i + 1),
                    history.packets[i].src,
                    user,
                    window,
                    rules,
                )
                &&& history.verdicts[i] == (Verdict::ReplayCheck { user, window })
                &&& !history.used[i].contains_key((user, window))
                &&& history.used[i + 1].contains_key((user, window))
            },
{
    law_state_follows_from_packets(history, rules, window_secs, i);
    lemma_history_step(history, rules, window_secs, i);
    lemma_step_never_completes(history, rules, window_secs, i);
    assert(history.has_step(i, rules, window_secs));
    match history.verdicts[i] {
        Verdict::ReplayCheck { user: u, window } => {
            store::law_marked_pair_is_used(
                history.used[i],
                u,
                window,
                history.packets[i].unix_secs,
                window_secs,
            );
            assert(completes(
                history.packets.take(i + 1),
                history.packets[i].src,
                user,
                window,
                rules,
            ));
        },
        Verdict::Settled(_) => {},
    }
}

/// Without the replay store a step completes nothing.
proof fn lemma_step_never_completes(history: History, rules: KnockRules, window_secs: u64, i: int)
    requires
        history.valid(rules, window_secs),
        0 <= i < history.packets.len(),
    ensures
        history.verdicts[i] matches Verdict::Settled(o) ==> o !is Complete,
{
    assert(history.has_step(i, rules, window_secs));
}

proof fn lemma_from_is_part(packets: Seq<Packet>, src: IpAddr)
    ensures
        forall|k: int|
            0 <= k < from(packets, src).len() ==> packets.contains(#[trigger] from(packets, src)[k])
                && from(packets, src)[k].src == src,
    decreases packets.len(),
{
    if packets.len() > 0 {
        let rest = packets.drop_last();
        lemma_from_is_part(rest, src);
        assert forall|k: int| 0 <= k < from(packets, src).len() implies packets.contains(
            #[trigger] from(packets, src)[k],
        ) && from(packets, src)[k].src == src by {
            if k < from(rest, src).len() {
                let p = from(rest, src)[k];
                assert(rest.contains(p));
                assert(packets[rest.index_of(p)] == p);
            } else {
                assert(packets[packets.len() - 1] == from(packets, src)[k]);
            }
        }
    }
}

/// Whether the packets come in the order of the time of day: packet `i` is seen at
/// `seen[i]`, while the windows around that time are tolerated, and what follows from it is
/// marked then or later, before the next one is seen.
pub open spec fn seen_in_time(
    packets: Seq<Packet>,
    seen: Seq<u64>,
    window_secs: u64,
    skew: u64,
) -> bool {
    &&& seen.len() == packets.len()
    &&& forall|i: int|
        0 <= i < packets.len() ==> seen[i] <= (#[trigger] packets[i]).unix_secs
    &&& forall|i: int, j: int|
        0 <= i < j < packets.len() ==> (#[trigger] packets[i]).unix_secs <= #[trigger] seen[j]
    &&& forall|i: int|
        0 <= i < packets.len() ==> (#[trigger] packets[i]).windows == clock::skewed_windows(
            clock::window_of(seen[i], window_secs),
            skew,
        )
}

/// Whether the packets come in the order of the time of day, each while the windows
/// around its time are tolerated.
pub open spec fn in_time(packets: Seq<Packet>, window_secs: u64, skew: u64) -> bool {
    &&& forall|i: int, j: int|
        0 <= i <= j < packets.len() ==> packets[i].unix_secs <= packets[j].unix_secs
    &&& forall|i: int|
        0 <= i < packets.len() ==> (#[trigger] packets[i]).windows == clock::skewed_windows(
            clock::window_of(packets[i].unix_secs, window_secs),
            skew,
        )
}

/// A window that is completed is not ahead of those tolerated then.
proof fn lemma_completed_window_is_not_ahead(
    history: History,
    rules: KnockRules,
    window_secs: u64,
    skew: u64,
    seen: Seq<u64>,
    i: int,
    user: Seq<char>,
    window: u64,
)
    requires
        history.valid(rules, window_secs),
        window_secs > 0,
        seen_in_time(history.packets, seen, window_secs, skew),
        0 <= i < history.packets.len(),
        completes(history.packets.take(i + 1), history.packets[i].src, user, window, rules),
    ensures
        window <= clock::window_of(history.packets[i].unix_secs, window_secs) + skew,
{
    let packets = history.packets.take(i + 1);
    let src = history.packets[i].src;
    let sequence = choose|sequence: Seq<u16>|
        {
            &&& #[trigger] belongs_to(sequence, user, window, rules)
            &&& sequence.len() == rules.knock_count
            &&& spells(from(packets, src), sequence.len(), sequence, window)
        };
    let knocks = from(packets, src);
    let first = knocks[knocks.len() - sequence.len()];
    lemma_from_is_part(packets, src);
    assert(packets.contains(first));
    let f = packets.index_of(first);
    assert(history.packets[f] == first);
    let then = seen[f];
    let now = history.packets[i].unix_secs;
    assert(seen[i] <= now);
    assert(f < i ==> first.unix_secs <= seen[i]);
    assert(then <= now);
    clock::law_tolerated_windows(clock::window_of(then, window_secs), skew, window);
    assert(then as int / window_secs as int <= now as int / window_secs as int) by (nonlinear_arith)
        requires
            window_secs > 0,
            then <= now,
    ;
}

/// A use is remembered until a later one moves the cutoff past it.
proof fn lemma_use_is_remembered(
    history: History,
    rules: KnockRules,
    window_secs: u64,
    i: int,
    k: int,
    user: Seq<char>,
    window: u64,
)
    requires
        history.valid(rules, window_secs),
        0 <= i < k < history.packets.len(),
        history.verdicts[i] == (Verdict::ReplayCheck { user, window }),
        history.outcomes[i] == (Outcome::Complete { user }),
        forall|m: int|
            i < m < k ==> store::cutoff_of((#[trigger] history.packets[m]).unix_secs, window_secs)
                <= history.packets[i].unix_secs,
    ensures
        history.used[k].contains_key((user, window)),
        history.used[k][(user, window)] == history.packets[i].unix_secs,
    decreases k,
{
    let m = k - 1;
    let at = history.packets[m].unix_secs;
    assert(history.has_step(m, rules, window_secs));
    if m == i {
        store::law_marked_pair_is_used(history.used[i], user, window, at, window_secs);
    } else {
        lemma_use_is_remembered(history, rules, window_secs, i, m, user, window);
        match history.verdicts[m] {
            Verdict::Settled(_) => {},
            Verdict::ReplayCheck { user: u, window: w } => {
                if !history.used[m].contains_key((u, w)) {
                    store::law_other_pairs_are_independent(
                        history.used[m],
                        u,
                        w,
                        at,
                        window_secs,
                        (user, window),
                    );
                }
            },
        }
    }
}

/// A sequence cannot be replayed: once a user's sequence for a window has completed, from
/// whatever source, that user's sequence for that window is refused every further time,
/// from any source, as long as the window is tolerated. This holds for a skew of one
/// window at most and a time of day that does not run backwards, also where the window
/// changes between seeing a packet and marking what it completed.
pub proof fn law_no_replay_while_seen_as_tolerated(
    history: History,
    rules: KnockRules,
    window_secs: u64,
    skew: u64,
    seen: Seq<u64>,
    i: int,
    j: int,
    user: Seq<char>,
    window: u64,
)
    requires
        history.valid(rules, window_secs),
        window_secs > 0,
        skew <= 1,
        seen_in_time(history.packets, seen, window_secs, skew),
        0 <= i < j < history.packets.len(),
        history.verdicts[i] == (Verdict::ReplayCheck { user, window }),
        history.outcomes[i] == (Outcome::Complete { user }),
        history.verdicts[j] == (Verdict::ReplayCheck { user, window }),
        history.packets[j].windows.contains(window),
    ensures
        history.outcomes[j] == Outcome::Mismatch,
{
    law_state_follows_from_packets(history, rules, window_secs, i);
    lemma_history_step(history, rules, window_secs, i);
    lemma_completed_window_is_not_ahead(history, rules, window_secs, skew, seen, i, user, window);
    assert forall|m: int| i < m < j implies store::cutoff_of(
        (#[trigger] history.packets[m]).unix_secs,
        window_secs,
    ) <= history.packets[i].unix_secs by {
        let used_at = history.packets[i].unix_secs;
        let at = history.packets[m].unix_secs;
        assert(at <= seen[j]);
        if used_at < store::cutoff_of(at, window_secs) {
            store::law_forgotten_windows_are_past(
                window,
                used_at,
                at,
                seen[j],
                window_secs,
                skew,
            );
        }
    }
    lemma_use_is_remembered(history, rules, window_secs, i, j, user, window);
    assert(history.has_step(j, rules, window_secs));
}

/// The same where each packet is seen and what it completed is marked at one time.
pub proof fn law_no_replay_while_tolerated(
    history: History,
    rules: KnockRules,
    window_secs: u64,
    skew: u64,
    i: int,
    j: int,
    user: Seq<char>,
    window: u64,
)
    requires
        history.valid(rules, window_secs),
        window_secs > 0,
        skew <= 1,
        in_time(history.packets, window_secs, skew),
        0 <= i < j < history.packets.len(),
        history.verdicts[i] == (Verdict::ReplayCheck { user, window }),
        history.outcomes[i] == (Outcome::Complete { user }),
        history.verdicts[j] == (Verdict::ReplayCheck { user, window }),
        history.packets[j].windows.contains(window),
    ensures
        history.outcomes[j] == Outcome::Mismatch,
{
    let seen = Seq::new(history.packets.len(), |k: int| history.packets[k].unix_secs);
    law_no_replay_while_seen_as_tolerated(
        history,
        rules,
        window_secs,
        skew,
        seen,
        i,
        j,
        user,
        window,
    );
}

/// Whatever the skew, a user's sequence for a window that has completed is refused for
/// the length of three windows, if the time of day does not run backwards.
pub proof fn law_no_replay_for_three_windows(
    history: History,
    rules: KnockRules,
    window_secs: u64,
    i: int,
    j: int,
    user: Seq<char>,
    window: u64,
)
    requires
        history.valid(rules, window_secs),
        0 <= i < j < history.packets.len(),
        forall|m: int|
            i < m <= j ==> (#[trigger] history.packets[m]).unix_secs
                <= history.packets[j].unix_secs,
        history.packets[j].unix_secs <= history.packets[i].unix_secs + 3 * window_secs,
        history.verdicts[i] == (Verdict::ReplayCheck { user, window }),
        history.outcomes[i] == (Outcome::Complete { user }),
        history.verdicts[j] == (Verdict::ReplayCheck { user, window }),
    ensures
        history.outcomes[j] == Outcome::Mismatch,
{
    lemma_use_is_remembered(history, rules, window_secs, i, j, user, window);
    assert(history.has_step(j, rules, window_secs));
}

/// Where the replay store fails, be it to answer or to mark the window as used, the knock
/// is denied.
pub proof fn law_store_failure_denies(
    before: TrackerState,
    after: TrackerState,
    user: Seq<char>,
    used: Result<bool, StoreError>,
    marked: Result<(), StoreError>,
    outcome: Outcome,
)
    requires
        used is Err || marked is Err,
        model::finished(before, after, user, used, marked, outcome),
    ensures
        outcome == Outcome::Mismatch,
        after.counts.replay_blocked == before.counts.replay_blocked + 1,
        after.counts.auth_success == before.counts.auth_success,
{
}

/// A packet changes nothing about another source: below capacity that keeps what it has
/// started unless it has expired, and it never gains or advances a sequence.
pub proof fn law_other_sources_are_untouched(
    before: TrackerState,
    after: TrackerState,
    verdict: Verdict,
    p: Packet,
    rules: KnockRules,
    other: IpAddr,
)
    requires
        before.wf(),
        other != p.src,
        model::stepped(before, after, verdict, p.src, p.port, p.windows, rules, p.now),
    ensures
        after.started.contains_key(other) ==> before.started.contains_key(other)
            && after.started[other] == before.started[other],
        before.started.len() < MAX_TRACKED_IPS && before.started.contains_key(other)
            && !model::is_expired(before.started[other], p.now) ==> after.started.contains_key(
            other,
        ),
        after.limits.contains_key(other) ==> before.limits.contains_key(other)
            && after.limits[other] == before.limits[other],
        before.limits.contains_key(other) && p.now - before.limits[other].1 < RATE_LIMIT_WINDOW
            ==> after.limits.contains_key(other),
{
    let src = p.src;
    let mid = choose|mid: TrackerState| #[trigger]
        model::counted(before, mid, p.now) && model::advanced(
            mid,
            after,
            verdict,
            src,
            p.port,
            p.windows,
            rules,
            p.now,
        );
    model::lemma_counted(before, mid, p.now);
    let swept = model::unexpired(before.started, p.now);
    model::lemma_subset_len(swept, before.started);
    let started = model::without_stale(mid.started, src, p.now);
    model::lemma_subset_len(started, mid.started);
    if before.started.len() < MAX_TRACKED_IPS && mid.packets % SWEEP_INTERVAL as nat == 0 {
        assert(mid.started == swept);
    }
    let opening = if started.contains_key(src) {
        started.remove(src)
    } else {
        started
    };
    model::lemma_subset_len(opening, mid.started);
    assert(before.started.len() < MAX_TRACKED_IPS ==> opening.len() < MAX_TRACKED_IPS);
}

proof fn lemma_from_prefix(packets: Seq<Packet>, k: int, src: IpAddr)
    requires
        0 <= k < packets.len(),
    ensures
        from(packets.take(k), src).is_prefix_of(from(packets, src)),
        packets.last().src == src ==> from(packets.take(k), src).len() < from(packets, src).len(),
    decreases packets.len(),
{
    let rest = packets.drop_last();
    assert(rest.take(k) =~= packets.take(k));
    if k < rest.len() {
        lemma_from_prefix(rest, k, src);
    } else {
        assert(rest.take(k) =~= rest);
    }
}

/// Whether a packet is no continuation of what its source has started.
pub open spec fn starts_afresh(state: TrackerState, p: Packet) -> bool {
    let started = model::without_stale(state.started, p.src, p.now);
    started.contains_key(p.src) ==> model::left_by(started[p.src], p.port).len() == 0
}

/// Those of `list` that begin with `ports`, in the same order.
pub open spec fn beginning_with(list: Seq<Candidate>, ports: Seq<u16>) -> Seq<Candidate>
    decreases list.len(),
{
    if list.len() == 0 {
        seq![]
    } else if ports.is_prefix_of(list.last().sequence) {
        beginning_with(list.drop_last(), ports).push(list.last())
    } else {
        beginning_with(list.drop_last(), ports)
    }
}

proof fn lemma_beginning_with(list: Seq<Candidate>, ports: Seq<u16>)
    ensures
        forall|i: int|
            0 <= i < beginning_with(list, ports).len() ==> list.contains(
                #[trigger] beginning_with(list, ports)[i],
            ) && ports.is_prefix_of(beginning_with(list, ports)[i].sequence),
        forall|c: Candidate|
            list.contains(c) && ports.is_prefix_of(c.sequence) ==> #[trigger] beginning_with(
                list,
                ports,
            ).contains(c),
    decreases list.len(),
{
    let all = beginning_with(list, ports);
    if list.len() > 0 {
        let rest = list.drop_last();
        let some = beginning_with(rest, ports);
        lemma_beginning_with(rest, ports);
        assert forall|i: int| 0 <= i < all.len() implies list.contains(#[trigger] all[i])
            && ports.is_prefix_of(all[i].sequence) by {
            if i < some.len() {
                assert(all[i] == some[i]);
                assert(rest.contains(some[i]));
                assert(list[rest.index_of(some[i])] == some[i]);
            } else {
                assert(list[list.len() - 1] == all[i]);
            }
        }
        assert forall|c: Candidate|
            list.contains(c) && ports.is_prefix_of(c.sequence) implies #[trigger] all.contains(
            c,
        ) by {
            let k = list.index_of(c);
            if k < rest.len() {
                assert(rest[k] == c);
                assert(rest.contains(c));
                assert(some.contains(c));
                assert(all[some.index_of(c)] == c);
            } else {
                assert(all[all.len() - 1] == c);
            }
        }
    }
}

/// All candidates on a port begin with it.
proof fn lemma_all_begin_with(list: Seq<Candidate>, port: u16)
    requires
        forall|i: int|
            0 <= i < list.len() ==> (#[trigger] list[i]).sequence.len() > 0 && list[i].sequence[0]
                == port,
    ensures
        beginning_with(list, seq![port]) == list,
    decreases list.len(),
{
    if list.len() > 0 {
        let rest = list.drop_last();
        assert forall|i: int| 0 <= i < rest.len() implies (#[trigger] rest[i]).sequence.len() > 0
            && rest[i].sequence[0] == port by {
            assert(rest[i] == list[i]);
        }
        lemma_all_begin_with(rest, port);
        assert(list.last() == list[list.len() - 1]);
        assert(seq![port].is_prefix_of(list.last().sequence));
        assert(beginning_with(list, seq![port]) =~= list);
    }
}

/// One more knock keeps those that begin with one port more.
proof fn lemma_keeping_begins(
    list: Seq<Candidate>,
    ports: Seq<u16>,
    port: u16,
    rules: KnockRules,
)
    requires
        forall|i: int| 0 <= i < list.len() ==> ports.len() < (#[trigger] list[i]).sequence.len(),
    ensures
        model::keeping(model::named(beginning_with(list, ports), rules), ports.len(), port)
            == model::named(beginning_with(list, ports.push(port)), rules),
    decreases list.len(),
{
    let matches = model::named(beginning_with(list, ports), rules);
    if list.len() > 0 {
        let rest = list.drop_last();
        let c = list.last();
        assert(c == list[list.len() - 1]);
        assert forall|i: int| 0 <= i < rest.len() implies ports.len() < (
        #[trigger] rest[i]).sequence.len() by {
            assert(rest[i] == list[i]);
        }
        lemma_keeping_begins(rest, ports, port, rules);
        let fewer = model::named(beginning_with(rest, ports), rules);
        assert(ports.push(port).is_prefix_of(c.sequence) <==> ports.is_prefix_of(c.sequence)
            && c.sequence[ports.len() as int] == port) by {
            let more = ports.push(port);
            if more.is_prefix_of(c.sequence) {
                assert forall|i: int| 0 <= i < ports.len() implies ports[i] == c.sequence[i] by {
                    assert(more[i] == c.sequence.subrange(0, more.len() as int)[i]);
                }
                assert(ports =~= c.sequence.subrange(0, ports.len() as int));
                assert(more[ports.len() as int] == c.sequence.subrange(0, more.len() as int)[
                ports.len() as int]);
            }
            if ports.is_prefix_of(c.sequence) && c.sequence[ports.len() as int] == port {
                assert forall|i: int| 0 <= i < more.len() implies more[i] == c.sequence[i] by {
                    if i < ports.len() {
                        assert(ports[i] == c.sequence.subrange(0, ports.len() as int)[i]);
                    }
                }
                assert(more =~= c.sequence.subrange(0, more.len() as int));
            }
        }
        if ports.is_prefix_of(c.sequence) {
            assert(matches.drop_last() =~= fewer);
            assert(matches.last().sequence == c.sequence);
            if c.sequence[ports.len() as int] == port {
                assert(model::keeping(matches, ports.len(), port) =~= model::named(
                    beginning_with(list, ports.push(port)),
                    rules,
                ));
            }
        } else {
            assert(matches == fewer);
        }
    }
}

/// What becomes of a knock that makes `ports` of what has been knocked, where `list` was
/// started: the first of those that begin so is named.
pub open spec fn knock_verdict(
    list: Seq<Candidate>,
    ports: Seq<u16>,
    rules: KnockRules,
) -> Verdict {
    let c = beginning_with(list, ports)[0];
    let user = rules.users[c.user_index as int].name;
    if ports.len() == c.sequence.len() {
        Verdict::ReplayCheck { user, window: c.window }
    } else {
        Verdict::Settled(
            Outcome::Partial { user, progress: ports.len(), total: c.sequence.len() },
        )
    }
}

/// The progress where `list` was started and `ports` have been knocked, the last at `now`.
pub open spec fn knock_progress(
    list: Seq<Candidate>,
    ports: Seq<u16>,
    now: u128,
    rules: KnockRules,
) -> Progress {
    Progress {
        matches: model::named(beginning_with(list, ports), rules),
        next_index: ports.len(),
        last_knock: now,
    }
}

proof fn lemma_first_knock(
    before: TrackerState,
    after: TrackerState,
    verdict: Verdict,
    packets: Seq<Packet>,
    p: Packet,
    rules: KnockRules,
    list: Seq<Candidate>,
)
    requires
        follows(before, packets, rules),
        model::derivable(rules, p.windows),
        model::stepped(before, after, verdict, p.src, p.port, p.windows, rules, p.now),
        before.started.len() < MAX_TRACKED_IPS,
        starts_afresh(before, p),
        model::table_for(rules, p.windows).on(p.port) == list,
        list.len() > 0,
        model::attempt(before.limits, p.src, p.now).0 <= RATE_LIMIT_MAX,
    ensures
        verdict == knock_verdict(list, seq![p.port], rules),
        rules.knock_count > 1 ==> {
            &&& after.started.contains_key(p.src)
            &&& after.started[p.src] == knock_progress(list, seq![p.port], p.now, rules)
        },
{
    let src = p.src;
    let mid = choose|mid: TrackerState| #[trigger]
        model::counted(before, mid, p.now) && model::advanced(
            mid,
            after,
            verdict,
            src,
            p.port,
            p.windows,
            rules,
            p.now,
        );
    model::lemma_counted(before, mid, p.now);
    lemma_on(rules, p.windows, p.port);
    assert(is_candidate(list[0], rules, p.windows, p.port));
    lemma_all_begin_with(list, p.port);
    assert(model::table_in_use(mid.table, rules, p.windows) == model::table_for(
        rules,
        p.windows,
    ));
    assert(model::attempt(mid.limits, src, p.now) == model::attempt(before.limits, src, p.now));
}

proof fn lemma_next_knock(
    before: TrackerState,
    after: TrackerState,
    verdict: Verdict,
    p: Packet,
    rules: KnockRules,
)
    requires
        before.wf(),
        model::stepped(before, after, verdict, p.src, p.port, p.windows, rules, p.now),
        before.started.len() < MAX_TRACKED_IPS,
        before.started.contains_key(p.src),
        !model::is_expired(before.started[p.src], p.now),
        model::left_by(before.started[p.src], p.port).len() > 0,
    ensures
        ({
            let left = model::left_by(before.started[p.src], p.port);
            let m = before.started[p.src].next_index + 1;
            if m == left[0].sequence.len() {
                verdict == Verdict::ReplayCheck { user: left[0].user, window: left[0].window }
            } else {
                &&& verdict == Verdict::Settled(
                    Outcome::Partial {
                        user: left[0].user,
                        progress: m,
                        total: left[0].sequence.len(),
                    },
                )
                &&& after.started.contains_key(p.src)
                &&& after.started[p.src] == Progress {
                    matches: left,
                    next_index: m,
                    last_knock: p.now,
                }
            }
        }),
{
    let mid = choose|mid: TrackerState| #[trigger]
        model::counted(before, mid, p.now) && model::advanced(
            mid,
            after,
            verdict,
            p.src,
            p.port,
            p.windows,
            rules,
            p.now,
        );
    model::lemma_subset_len(model::unexpired(before.started, p.now), before.started);
    assert(mid.started.contains_key(p.src) && mid.started[p.src] == before.started[p.src]);
}

/// The knocks that `src` sends from packet `a` on, up to before packet `k`.
pub open spec fn knocks_since(history: History, a: int, k: int) -> Seq<Packet> {
    from(history.packets.subrange(a, k), history.packets[a].src)
}

/// Whether packets `a` to `b` hold, from one source and possibly between packets of
/// others, the whole sequence of `c`, first port first and each knock in time, with the
/// tracker below capacity, the source not rate limited, and `c` a candidate at the first
/// knock.
pub open spec fn knocked_whole(
    history: History,
    rules: KnockRules,
    a: int,
    b: int,
    c: Candidate,
) -> bool {
    let first = history.packets[a];
    let knocks = knocks_since(history, a, b + 1);
    &&& 0 <= a <= b < history.packets.len()
    &&& history.packets[b].src == first.src
    &&& knocks.len() == c.sequence.len()
    &&& forall|i: int| 0 <= i < knocks.len() ==> (#[trigger] knocks[i]).port == c.sequence[i]
    &&& in_succession(knocks, 0)
    &&& forall|i: int, j: int|
        a <= i <= j <= b ==> (#[trigger] history.packets[i]).now <= (
        #[trigger] history.packets[j]).now
    &&& forall|k: int|
        a <= k <= b ==> (#[trigger] history.states[k]).started.len() < MAX_TRACKED_IPS
    &&& starts_afresh(history.states[a], first)
    &&& model::attempt(history.states[a].limits, first.src, first.now).0 <= RATE_LIMIT_MAX
    &&& model::candidates(rules, rules.users.len(), first.windows).contains(c)
}

/// The knocks beyond those among the first `j` packets come later.
proof fn lemma_from_rest(packets: Seq<Packet>, j: int, src: IpAddr, i: int) -> (at: int)
    requires
        0 <= j <= packets.len(),
        from(packets.take(j), src).len() <= i < from(packets, src).len(),
    ensures
        j <= at < packets.len(),
        packets[at] == from(packets, src)[i],
    decreases packets.len(),
{
    if j == packets.len() {
        assert(packets.take(j) =~= packets);
        j
    } else {
        let rest = packets.drop_last();
        assert(rest.take(j) =~= packets.take(j));
        if i < from(rest, src).len() {
            lemma_from_rest(rest, j, src, i)
        } else {
            packets.len() - 1
        }
    }
}

proof fn lemma_first_knock_in(
    history: History,
    rules: KnockRules,
    window_secs: u64,
    k: int,
    list: Seq<Candidate>,
)
    requires
        history.valid(rules, window_secs),
        0 <= k < history.packets.len(),
        history.states[k].started.len() < MAX_TRACKED_IPS,
        starts_afresh(history.states[k], history.packets[k]),
        model::attempt(
            history.states[k].limits,
            history.packets[k].src,
            history.packets[k].now,
        ).0 <= RATE_LIMIT_MAX,
        model::table_for(rules, history.packets[k].windows).on(history.packets[k].port) == list,
        list.len() > 0,
    ensures
        history.verdicts[k] == knock_verdict(list, seq![history.packets[k].port], rules),
        rules.knock_count > 1 ==> {
            let started = history.states[k + 1].started;
            let p = history.packets[k];
            &&& started.contains_key(p.src)
            &&& started[p.src] == knock_progress(list, seq![p.port], p.now, rules)
        },
{
    law_state_follows_from_packets(history, rules, window_secs, k);
    assert(history.has_step(k, rules, window_secs));
    lemma_first_knock(
        history.states[k],
        history.steps[k],
        history.verdicts[k],
        history.packets.take(k),
        history.packets[k],
        rules,
        list,
    );
}

proof fn lemma_next_knock_in(
    history: History,
    rules: KnockRules,
    window_secs: u64,
    k: int,
    list: Seq<Candidate>,
    c: Candidate,
    ports: Seq<u16>,
    last: u128,
)
    requires
        history.valid(rules, window_secs),
        0 <= k < history.packets.len(),
        forall|i: int|
            0 <= i < list.len() ==> (#[trigger] list[i]).sequence.len() == c.sequence.len(),
        list.contains(c),
        ports.len() < c.sequence.len(),
        ports.push(history.packets[k].port).is_prefix_of(c.sequence),
        history.states[k].started.len() < MAX_TRACKED_IPS,
        history.states[k].started.contains_key(history.packets[k].src),
        history.states[k].started[history.packets[k].src] == knock_progress(
            list,
            ports,
            last,
            rules,
        ),
        history.packets[k].now - last <= PARTIAL_TIMEOUT,
    ensures
        history.verdicts[k] == knock_verdict(list, ports.push(history.packets[k].port), rules),
        ports.len() + 1 < c.sequence.len() ==> {
            let started = history.states[k + 1].started;
            let p = history.packets[k];
            &&& started.contains_key(p.src)
            &&& started[p.src] == knock_progress(list, ports.push(p.port), p.now, rules)
        },
{
    let p = history.packets[k];
    let more = ports.push(p.port);
    law_state_follows_from_packets(history, rules, window_secs, k);
    lemma_keeping_begins(list, ports, p.port, rules);
    lemma_beginning_with(list, more);
    assert(beginning_with(list, more).contains(c));
    let d = beginning_with(list, more)[0];
    assert(list.contains(d));
    assert(d.sequence.len() == c.sequence.len()) by {
        assert(list[list.index_of(d)].sequence.len() == c.sequence.len());
    }
    lemma_next_knock_step(history, rules, window_secs, k);
}

proof fn lemma_next_knock_step(history: History, rules: KnockRules, window_secs: u64, k: int)
    requires
        history.valid(rules, window_secs),
        0 <= k < history.packets.len(),
        history.states[k].wf(),
        history.states[k].started.len() < MAX_TRACKED_IPS,
        history.states[k].started.contains_key(history.packets[k].src),
        !model::is_expired(
            history.states[k].started[history.packets[k].src],
            history.packets[k].now,
        ),
        model::left_by(
            history.states[k].started[history.packets[k].src],
            history.packets[k].port,
        ).len() > 0,
    ensures
        ({
            let p = history.packets[k];
            let q = history.states[k].started[p.src];
            let left = model::left_by(q, p.port);
            let m = q.next_index + 1;
            let started = history.states[k + 1].started;
            if m == left[0].sequence.len() {
                history.verdicts[k] == Verdict::ReplayCheck {
                    user: left[0].user,
                    window: left[0].window,
                }
            } else {
                &&& history.verdicts[k] == Verdict::Settled(
                    Outcome::Partial {
                        user: left[0].user,
                        progress: m,
                        total: left[0].sequence.len(),
                    },
                )
                &&& started.contains_key(p.src)
                &&& started[p.src] == Progress { matches: left, next_index: m, last_knock: p.now }
            }
        }),
{
    assert(history.has_step(k, rules, window_secs));
    lemma_next_knock(
        history.states[k],
        history.steps[k],
        history.verdicts[k],
        history.packets[k],
        rules,
    );
}

proof fn lemma_other_packet_in(
    history: History,
    rules: KnockRules,
    window_secs: u64,
    k: int,
    src: IpAddr,
)
    requires
        history.valid(rules, window_secs),
        0 <= k < history.packets.len(),
        history.packets[k].src != src,
        history.states[k].started.len() < MAX_TRACKED_IPS,
        history.states[k].started.contains_key(src),
        !model::is_expired(history.states[k].started[src], history.packets[k].now),
    ensures
        history.states[k + 1].started.contains_key(src),
        history.states[k + 1].started[src] == history.states[k].started[src],
{
    law_state_follows_from_packets(history, rules, window_secs, k);
    assert(history.has_step(k, rules, window_secs));
    law_other_sources_are_untouched(
        history.states[k],
        history.steps[k],
        history.verdicts[k],
        history.packets[k],
        rules,
        src,
    );
}

/// What packet `k` adds to the knocks of a whole sequence.
proof fn lemma_knocks(
    history: History,
    rules: KnockRules,
    a: int,
    b: int,
    c: Candidate,
    k: int,
)
    requires
        knocked_whole(history, rules, a, b, c),
        a <= k <= b,
    ensures
        ({
            let p = history.packets[k];
            let earlier = knocks_since(history, a, k);
            let knocks = knocks_since(history, a, k + 1);
            &&& knocks == if p.src == history.packets[a].src {
                earlier.push(p)
            } else {
                earlier
            }
            &&& k == a <==> earlier.len() == 0
            &&& knocks.len() <= c.sequence.len()
            &&& k < b ==> knocks.len() < c.sequence.len()
            &&& p.src == history.packets[a].src ==> p.port == c.sequence[earlier.len() as int]
            &&& k > a ==> p.now - earlier.last().now <= PARTIAL_TIMEOUT
        }),
{
    let src = history.packets[a].src;
    let p = history.packets[k];
    let whole = history.packets.subrange(a, b + 1);
    let upto = history.packets.subrange(a, k + 1);
    let before = history.packets.subrange(a, k);
    let all = from(whole, src);
    assert(upto =~= before.push(p));
    lemma_from_push(before, p, src);
    assert(whole.last() == history.packets[b]);
    assert(whole.take(k - a) =~= before);
    assert(whole.take(k + 1 - a) =~= upto);
    lemma_from_prefix(whole, k - a, src);
    if k < b {
        lemma_from_prefix(whole, k + 1 - a, src);
    } else {
        assert(whole =~= upto);
    }
    let m = from(before, src).len() as int;
    if p.src == src {
        assert(from(upto, src)[m] == p);
        assert(all[m] == all.subrange(0, m + 1)[m]);
    }
    if k == a {
        assert(before =~= seq![]);
    } else {
        assert(before.take(1).drop_last() =~= seq![]);
        assert(before.take(1).last() == history.packets[a]);
        assert(from(before.take(1), src).len() == 1) by {
            reveal_with_fuel(from, 2);
        }
        if before.len() > 1 {
            lemma_from_prefix(before, 1, src);
        } else {
            assert(before.take(1) =~= before);
        }
        let at = lemma_from_rest(whole, k - a, src, m);
        assert(history.packets[a + at] == all[m]);
        assert(all[m - 1] == from(before, src).last());
        assert(history.packets[k].now <= history.packets[a + at].now);
    }
}

/// The candidates that packet `a` starts.
pub open spec fn started_by(history: History, a: int, rules: KnockRules) -> Seq<Candidate> {
    model::table_for(rules, history.packets[a].windows).on(history.packets[a].port)
}

proof fn lemma_knocked_so_far(
    history: History,
    rules: KnockRules,
    window_secs: u64,
    a: int,
    b: int,
    c: Candidate,
    k: int,
)
    requires
        history.valid(rules, window_secs),
        knocked_whole(history, rules, a, b, c),
        a <= k <= b,
    ensures
        ({
            let src = history.packets[a].src;
            let knocks = knocks_since(history, a, k + 1);
            let ports = c.sequence.take(knocks.len() as int);
            let list = started_by(history, a, rules);
            &&& history.packets[k].src == src ==> history.verdicts[k] == knock_verdict(
                list,
                ports,
                rules,
            )
            &&& k < b ==> {
                &&& history.states[k + 1].started.contains_key(src)
                &&& history.states[k + 1].started[src] == knock_progress(
                    list,
                    ports,
                    knocks.last().now,
                    rules,
                )
            }
        }),
    decreases k,
{
    let src = history.packets[a].src;
    let p = history.packets[k];
    let list = started_by(history, a, rules);
    lemma_knocks(history, rules, a, b, c, k);
    lemma_started_by(history, rules, window_secs, a, b, c);
    assert(history.states[k].started.len() < MAX_TRACKED_IPS);
    let earlier = knocks_since(history, a, k);
    let ports = c.sequence.take(earlier.len() as int);
    if p.src == src {
        assert(c.sequence.take(earlier.len() as int + 1) =~= ports.push(p.port));
        assert(ports.push(p.port).is_prefix_of(c.sequence)) by {
            assert(ports.push(p.port) =~= c.sequence.subrange(0, earlier.len() as int + 1));
        }
    }
    if k == a {
        assert(ports.push(p.port) =~= seq![p.port]);
        lemma_first_knock_in(history, rules, window_secs, k, list);
    } else {
        lemma_knocked_so_far(history, rules, window_secs, a, b, c, k - 1);
        if p.src == src {
            lemma_next_knock_in(
                history,
                rules,
                window_secs,
                k,
                list,
                c,
                ports,
                earlier.last().now,
            );
        } else {
            lemma_other_packet_in(history, rules, window_secs, k, src);
        }
    }
}

proof fn lemma_started_by(
    history: History,
    rules: KnockRules,
    window_secs: u64,
    a: int,
    b: int,
    c: Candidate,
)
    requires
        history.valid(rules, window_secs),
        knocked_whole(history, rules, a, b, c),
    ensures
        started_by(history, a, rules).contains(c),
        c.sequence.len() == rules.knock_count,
        forall|i: int|
            0 <= i < started_by(history, a, rules).len() ==> (#[trigger] started_by(
                history,
                a,
                rules,
            )[i]).sequence.len() == c.sequence.len(),
{
    let first = history.packets[a];
    let list = started_by(history, a, rules);
    assert(history.has_step(a, rules, window_secs));
    lemma_knocks(history, rules, a, b, c, a);
    lemma_on(rules, first.windows, first.port);
    model::lemma_candidates(rules, rules.users.len(), first.windows);
    law_every_candidate_can_be_started(rules, first.windows, c);
    assert forall|i: int| 0 <= i < list.len() implies (#[trigger] list[i]).sequence.len()
        == c.sequence.len() by {
        assert(is_candidate(list[i], rules, first.windows, first.port));
    }
}

/// The key's knock lets its holder in, also where several users' sequences begin alike: a
/// source that knocks a whole sequence that is a candidate at its first knock, in order and
/// in time, progresses with each knock, whatever other sources send in between, and with
/// the last knock completes it, unless that user has used that window before. Each time the
/// first candidate that begins with what has been knocked is named; in the end that is one
/// with the whole sequence.
pub proof fn law_whole_sequence_completes(
    history: History,
    rules: KnockRules,
    window_secs: u64,
    a: int,
    b: int,
    c: Candidate,
)
    requires
        history.valid(rules, window_secs),
        knocked_whole(history, rules, a, b, c),
    ensures
        forall|k: int|
            a <= k <= b && (#[trigger] history.packets[k]).src == history.packets[a].src
                ==> history.verdicts[k] == knock_verdict(
                started_by(history, a, rules),
                c.sequence.take(knocks_since(history, a, k + 1).len() as int),
                rules,
            ),
        ({
            let d = beginning_with(started_by(history, a, rules), c.sequence)[0];
            let user = rules.users[d.user_index as int].name;
            &&& started_by(history, a, rules).contains(d)
            &&& d.sequence == c.sequence
            &&& history.outcomes[b] == if history.used[b].contains_key((user, d.window)) {
                Outcome::Mismatch
            } else {
                Outcome::Complete { user }
            }
        }),
{
    let list = started_by(history, a, rules);
    assert forall|k: int|
        a <= k <= b && (#[trigger] history.packets[k]).src
            == history.packets[a].src implies history.verdicts[k] == knock_verdict(
        list,
        c.sequence.take(knocks_since(history, a, k + 1).len() as int),
        rules,
    ) by {
        lemma_knocked_so_far(history, rules, window_secs, a, b, c, k);
    }
    lemma_started_by(history, rules, window_secs, a, b, c);
    assert(c.sequence.take(c.sequence.len() as int) =~= c.sequence);
    assert(c.sequence.is_prefix_of(c.sequence)) by {
        assert(c.sequence =~= c.sequence.subrange(0, c.sequence.len() as int));
    }
    lemma_beginning_with(list, c.sequence);
    assert(beginning_with(list, c.sequence).contains(c));
    let d = beginning_with(list, c.sequence)[0];
    assert(list.contains(d) && c.sequence.is_prefix_of(d.sequence));
    assert(list[list.index_of(d)].sequence.len() == c.sequence.len());
    assert(d.sequence =~= d.sequence.subrange(0, c.sequence.len() as int));
    assert(history.packets[b].src == history.packets[a].src);
    lemma_last_verdict_decides(history, rules, window_secs, b);
}

/// Whose sequence is no one else's gets in by it: where no other candidate has the same
/// whole sequence, a source that knocks it completes it for its own user and window, unless
/// that user has used that window before.
pub proof fn law_own_knock_lets_user_in(
    history: History,
    rules: KnockRules,
    window_secs: u64,
    a: int,
    b: int,
    c: Candidate,
)
    requires
        history.valid(rules, window_secs),
        knocked_whole(history, rules, a, b, c),
        forall|d: Candidate| #[trigger]
            started_by(history, a, rules).contains(d) && d.sequence == c.sequence ==> d == c,
    ensures
        ({
            let user = rules.users[c.user_index as int].name;
            history.outcomes[b] == if history.used[b].contains_key((user, c.window)) {
                Outcome::Mismatch
            } else {
                Outcome::Complete { user }
            }
        }),
{
    law_whole_sequence_completes(history, rules, window_secs, a, b, c);
}

proof fn lemma_last_verdict_decides(history: History, rules: KnockRules, window_secs: u64, b: int)
    requires
        history.valid(rules, window_secs),
        0 <= b < history.packets.len(),
    ensures
        history.verdicts[b] matches Verdict::ReplayCheck { user, window } ==> history.outcomes[b]
            == if history.used[b].contains_key((user, window)) {
            Outcome::Mismatch
        } else {
            Outcome::Complete { user }
        },
{
    assert(history.has_step(b, rules, window_secs));
}

/// Every candidate can be started, whatever other candidates begin with the same port: a
/// first knock on its first port starts it.
pub proof fn law_every_candidate_can_be_started(rules: KnockRules, windows: Seq<u64>, c: Candidate)
    requires
        model::candidates(rules, rules.users.len(), windows).contains(c),
    ensures
        model::table_for(rules, windows).on(c.sequence[0]).contains(c),
{
    lemma_on_port_has(model::candidates(rules, rules.users.len(), windows), c);
}

proof fn lemma_on_port_has(all: Seq<Candidate>, c: Candidate)
    requires
        all.contains(c),
    ensures
        model::on_port(all, c.sequence[0]).contains(c),
    decreases all.len(),
{
    let port = c.sequence[0];
    let rest = all.drop_last();
    let k = all.index_of(c);
    if k < rest.len() {
        assert(rest[k] == c);
        lemma_on_port_has(rest, c);
        let i = model::on_port(rest, port).index_of(c);
        assert(model::on_port(all, port)[i] == c);
    } else {
        assert(model::on_port(all, port).last() == c);
    }
}

/// A candidate whose whole sequence no earlier one shares is the one that is named when it
/// has been knocked.
pub proof fn law_own_sequence_is_named(list: Seq<Candidate>, k: int)
    requires
        0 <= k < list.len(),
        forall|i: int| 0 <= i < k ==> !list[k].sequence.is_prefix_of((#[trigger] list[i]).sequence),
    ensures
        beginning_with(list, list[k].sequence).len() > 0,
        beginning_with(list, list[k].sequence)[0] == list[k],
    decreases list.len(),
{
    let ports = list[k].sequence;
    let rest = list.drop_last();
    if k < rest.len() {
        assert(rest[k] == list[k]);
        assert forall|i: int| 0 <= i < k implies !rest[k].sequence.is_prefix_of(
            (#[trigger] rest[i]).sequence,
        ) by {
            assert(rest[i] == list[i]);
        }
        law_own_sequence_is_named(rest, k);
    } else {
        lemma_beginning_with(rest, ports);
        if beginning_with(rest, ports).len() > 0 {
            let c = beginning_with(rest, ports)[0];
            assert(rest.contains(c));
            assert(list[rest.index_of(c)] == c);
        }
        assert(ports =~= ports.subrange(0, ports.len() as int));
    }
}

/// A wrong port loses what a source has started: it is not advanced by it, and unless the
/// port is itself a first knock the source has nothing started any more.
pub proof fn law_wrong_port_resets(
    before: TrackerState,
    after: TrackerState,
    verdict: Verdict,
    p: Packet,
    rules: KnockRules,
)
    requires
        before.wf(),
        before.started.contains_key(p.src),
        model::left_by(before.started[p.src], p.port).len() == 0,
        model::stepped(before, after, verdict, p.src, p.port, p.windows, rules, p.now),
    ensures
        after.started.contains_key(p.src) ==> {
            &&& after.started[p.src].next_index == 1
            &&& after.started[p.src].last_knock == p.now
        },
        model::table_in_use(before.table, rules, p.windows).on(p.port).len() == 0 ==> {
            &&& !after.started.contains_key(p.src)
            &&& verdict == Verdict::Settled(Outcome::Unrelated)
        },
        before.started.len() < MAX_TRACKED_IPS && !model::is_expired(before.started[p.src], p.now)
            ==> after.counts.mismatches == before.counts.mismatches + 1,
{
    let mid = choose|mid: TrackerState| #[trigger]
        model::counted(before, mid, p.now) && model::advanced(
            mid,
            after,
            verdict,
            p.src,
            p.port,
            p.windows,
            rules,
            p.now,
        );
    model::lemma_counted(before, mid, p.now);
    model::lemma_subset_len(model::unexpired(before.started, p.now), before.started);
}

/// A sequence that has waited too long for its next knock is not continued.
pub proof fn law_expired_sequence_is_not_continued(
    before: TrackerState,
    after: TrackerState,
    verdict: Verdict,
    p: Packet,
    rules: KnockRules,
)
    requires
        before.wf(),
        before.started.contains_key(p.src),
        p.now - before.started[p.src].last_knock > 10_000_000_000,
        model::stepped(before, after, verdict, p.src, p.port, p.windows, rules, p.now),
    ensures
        verdict matches Verdict::Settled(Outcome::Partial { progress, .. }) ==> progress == 1,
        verdict matches Verdict::Settled(outcome) ==> outcome is Partial || outcome is Unrelated,
        after.started.contains_key(p.src) ==> {
            &&& after.started[p.src].next_index == 1
            &&& after.started[p.src].last_knock == p.now
        },
        model::table_in_use(before.table, rules, p.windows).on(p.port).len() == 0 ==> {
            &&& !after.started.contains_key(p.src)
            &&& verdict == Verdict::Settled(Outcome::Unrelated)
        },
{
    let mid = choose|mid: TrackerState| #[trigger]
        model::counted(before, mid, p.now) && model::advanced(
            mid,
            after,
            verdict,
            p.src,
            p.port,
            p.windows,
            rules,
            p.now,
        );
    model::lemma_counted(before, mid, p.now);
}

/// A source that has made all the first knocks that its rate-limit window allows starts
/// nothing more while that window lasts.
pub proof fn law_rate_limit(
    before: TrackerState,
    after: TrackerState,
    verdict: Verdict,
    p: Packet,
    rules: KnockRules,
)
    requires
        before.wf(),
        starts_afresh(before, p),
        before.limits.contains_key(p.src),
        RATE_LIMIT_MAX <= before.limits[p.src].0 < u32::MAX,
        p.now - before.limits[p.src].1 < RATE_LIMIT_WINDOW,
        model::stepped(before, after, verdict, p.src, p.port, p.windows, rules, p.now),
    ensures
        verdict == Verdict::Settled(Outcome::Unrelated),
        !after.started.contains_key(p.src),
{
    let mid = choose|mid: TrackerState| #[trigger]
        model::counted(before, mid, p.now) && model::advanced(
            mid,
            after,
            verdict,
            p.src,
            p.port,
            p.windows,
            rules,
            p.now,
        );
    model::lemma_counted(before, mid, p.now);
}

/// Every sequence that is started counts towards the rate limit of its source, and no
/// more are started in a rate-limit window than are allowed.
pub proof fn law_started_sequences_are_counted(
    before: TrackerState,
    after: TrackerState,
    verdict: Verdict,
    p: Packet,
    rules: KnockRules,
)
    requires
        before.wf(),
        starts_afresh(before, p),
        verdict != Verdict::Settled(Outcome::Unrelated),
        model::stepped(before, after, verdict, p.src, p.port, p.windows, rules, p.now),
    ensures
        after.limits.contains_key(p.src),
        after.limits[p.src] == model::attempt(before.limits, p.src, p.now),
        after.limits[p.src].0 <= RATE_LIMIT_MAX,
{
    let mid = choose|mid: TrackerState| #[trigger]
        model::counted(before, mid, p.now) && model::advanced(
            mid,
            after,
            verdict,
            p.src,
            p.port,
            p.windows,
            rules,
            p.now,
        );
    model::lemma_counted(before, mid, p.now);
}

/// How many of `outcomes` are completed sequences.
pub open spec fn completed(outcomes: Seq<Outcome>) -> nat
    decreases outcomes.len(),
{
    if outcomes.len() == 0 {
        0
    } else if outcomes.last() is Complete {
        completed(outcomes.drop_last()) + 1
    } else {
        completed(outcomes.drop_last())
    }
}

/// How many of `outcomes` are refused sequences.
pub open spec fn refused(outcomes: Seq<Outcome>) -> nat
    decreases outcomes.len(),
{
    if outcomes.len() == 0 {
        0
    } else if outcomes.last() is Mismatch {
        refused(outcomes.drop_last()) + 1
    } else {
        refused(outcomes.drop_last())
    }
}

/// The metrics tell the truth: they count the packets, the completed and the refused
/// sequences.
pub proof fn law_metrics_count_outcomes(
    history: History,
    rules: KnockRules,
    window_secs: u64,
    n: int,
)
    requires
        history.valid(rules, window_secs),
        0 <= n <= history.packets.len(),
    ensures
        history.states[n].packets == n,
        history.states[n].counts.auth_success == completed(history.outcomes.take(n)),
        history.states[n].counts.replay_blocked == refused(history.outcomes.take(n)),
    decreases n,
{
    if n > 0 {
        let i = n - 1;
        law_metrics_count_outcomes(history, rules, window_secs, i);
        assert(history.has_step(i, rules, window_secs));
        assert(history.outcomes.take(n).drop_last() =~= history.outcomes.take(i));
        assert(history.outcomes.take(n).last() == history.outcomes[i]);
    }
}

/// A late knock continues nothing: a packet that comes more than ten seconds after the last
/// one of its source, or is the first of it, is a first knock or nothing, so it completes no
/// sequence of two ports or more.
pub proof fn law_late_knock_continues_nothing(
    history: History,
    rules: KnockRules,
    window_secs: u64,
    k: int,
)
    requires
        history.valid(rules, window_secs),
        0 <= k < history.packets.len(),
        ({
            let earlier = from(history.packets.take(k), history.packets[k].src);
            earlier.len() == 0 || history.packets[k].now - earlier.last().now > 10_000_000_000
        }),
    ensures
        history.outcomes[k] matches Outcome::Partial { progress, .. } ==> progress == 1,
        rules.knock_count != 1 ==> history.outcomes[k] is Partial || history.outcomes[k]
            is Unrelated,
        history.states[k + 1].started.contains_key(history.packets[k].src) ==> history.states[k
            + 1].started[history.packets[k].src].next_index == 1,
{
    let p = history.packets[k];
    let before = history.states[k];
    let after = history.steps[k];
    let verdict = history.verdicts[k];
    law_state_follows_from_packets(history, rules, window_secs, k);
    assert(history.has_step(k, rules, window_secs));
    let mid = choose|mid: TrackerState| #[trigger]
        model::counted(before, mid, p.now) && model::advanced(
            mid,
            after,
            verdict,
            p.src,
            p.port,
            p.windows,
            rules,
            p.now,
        );
    model::lemma_counted(before, mid, p.now);
    lemma_on(rules, p.windows, p.port);
    if before.started.contains_key(p.src) {
        let knocks = from(history.packets.take(k), p.src);
        assert(is_knocked(before.started[p.src], knocks, rules));
        assert(before.started[p.src].matches.len() > 0);
        assert(is_match(
            before.started[p.src].matches[0],
            before.started[p.src].next_index,
            knocks,
            rules,
        ));
    }
    assert(!model::without_stale(mid.started, p.src, p.now).contains_key(p.src));
    assert(model::table_in_use(mid.table, rules, p.windows) == model::table_for(
        rules,
        p.windows,
    ));
    let list = model::table_for(rules, p.windows).on(p.port);
    if list.len() > 0 {
        assert(is_candidate(list[0], rules, p.windows, p.port));
    }
}

/// A first knock always starts something, also where all places are taken: unless its source
/// is rate limited, a packet on the first port of some candidates that continues nothing
/// starts all of them.
pub proof fn law_first_knock_starts_all_candidates(
    history: History,
    rules: KnockRules,
    window_secs: u64,
    k: int,
)
    requires
        history.valid(rules, window_secs),
        0 <= k < history.packets.len(),
        starts_afresh(history.states[k], history.packets[k]),
        started_by(history, k, rules).len() > 0,
        model::attempt(
            history.states[k].limits,
            history.packets[k].src,
            history.packets[k].now,
        ).0 <= 10,
    ensures
        history.verdicts[k] == knock_verdict(
            started_by(history, k, rules),
            seq![history.packets[k].port],
            rules,
        ),
        rules.knock_count > 1 ==> {
            let started = history.states[k + 1].started;
            let p = history.packets[k];
            &&& started.contains_key(p.src)
            &&& started[p.src] == knock_progress(
                started_by(history, k, rules),
                seq![p.port],
                p.now,
                rules,
            )
        },
{
    let p = history.packets[k];
    let before = history.states[k];
    let after = history.steps[k];
    let verdict = history.verdicts[k];
    let list = started_by(history, k, rules);
    law_state_follows_from_packets(history, rules, window_secs, k);
    assert(history.has_step(k, rules, window_secs));
    let mid = choose|mid: TrackerState| #[trigger]
        model::counted(before, mid, p.now) && model::advanced(
            mid,
            after,
            verdict,
            p.src,
            p.port,
            p.windows,
            rules,
            p.now,
        );
    model::lemma_counted(before, mid, p.now);
    lemma_on(rules, p.windows, p.port);
    assert(is_candidate(list[0], rules, p.windows, p.port));
    lemma_all_begin_with(list, p.port);
    assert(model::table_in_use(mid.table, rules, p.windows) == model::table_for(
        rules,
        p.windows,
    ));
    assert(model::attempt(mid.limits, p.src, p.now) == model::attempt(
        before.limits,
        p.src,
        p.now,
    ));
}

/// Who has to make room: a packet costs another source what it has started in time only where
/// all ten thousand places are taken, it costs one source at most, and one that has waited
/// longest of all that stay.
pub proof fn law_longest_waiting_source_makes_room(
    before: TrackerState,
    after: TrackerState,
    verdict: Verdict,
    p: Packet,
    rules: KnockRules,
    lost: IpAddr,
    other: IpAddr,
)
    requires
        before.wf(),
        model::stepped(before, after, verdict, p.src, p.port, p.windows, rules, p.now),
        lost != p.src,
        other != p.src,
        before.started.contains_key(lost),
        !after.started.contains_key(lost),
        p.now - before.started[lost].last_knock <= 10_000_000_000,
        before.started.contains_key(other),
        p.now - before.started[other].last_knock <= 10_000_000_000,
    ensures
        before.started.len() == 10_000,
        after.started.contains_key(other) ==> before.started[lost].last_knock
            <= before.started[other].last_knock,
        !after.started.contains_key(other) ==> other == lost,
{
    let mid = choose|mid: TrackerState| #[trigger]
        model::counted(before, mid, p.now) && model::advanced(
            mid,
            after,
            verdict,
            p.src,
            p.port,
            p.windows,
            rules,
            p.now,
        );
    model::lemma_counted(before, mid, p.now);
    let swept = model::unexpired(before.started, p.now);
    model::lemma_subset_len(swept, before.started);
    assert(swept.contains_key(lost) && swept.contains_key(other));
    let started = model::without_stale(mid.started, p.src, p.now);
    model::lemma_subset_len(started, mid.started);
    let opening = if started.contains_key(p.src) {
        started.remove(p.src)
    } else {
        started
    };
    model::lemma_subset_len(opening, mid.started);
    model::lemma_subset_len(mid.started, before.started);
    if mid.packets % SWEEP_INTERVAL as nat == 0 {
        model::lemma_made_room(swept, mid.started);
        if swept.len() >= MAX_TRACKED_IPS {
            let a = choose|a: IpAddr| #[trigger]
                model::is_oldest(swept, a) && mid.started == swept.remove(a);
            assert(swept.contains_key(other));
        }
    }
    if opening.len() >= MAX_TRACKED_IPS {
        assert(opening.contains_key(lost) && opening.contains_key(other));
    }
}

/// Nothing expired outlives a sweep: each 256th packet leaves no other source with a sequence
/// that has waited more than ten seconds, or with a rate-limit window that began sixty seconds
/// ago or more.
pub proof fn law_sweep_leaves_nothing_expired(
    before: TrackerState,
    after: TrackerState,
    verdict: Verdict,
    p: Packet,
    rules: KnockRules,
    other: IpAddr,
)
    requires
        before.wf(),
        model::stepped(before, after, verdict, p.src, p.port, p.windows, rules, p.now),
        (before.packets + 1) % 256 == 0,
        other != p.src,
    ensures
        after.packets == before.packets + 1,
        after.started.contains_key(other) ==> p.now - after.started[other].last_knock
            <= 10_000_000_000,
        after.limits.contains_key(other) ==> p.now - after.limits[other].1 < 60_000_000_000,
{
    let mid = choose|mid: TrackerState| #[trigger]
        model::counted(before, mid, p.now) && model::advanced(
            mid,
            after,
            verdict,
            p.src,
            p.port,
            p.windows,
            rules,
            p.now,
        );
    model::lemma_counted(before, mid, p.now);
    let swept = model::unexpired(before.started, p.now);
    model::lemma_subset_len(swept, before.started);
    model::lemma_made_room(swept, mid.started);
    law_other_sources_are_untouched(before, after, verdict, p, rules, other);
    assert(after.started.contains_key(other) ==> mid.started.contains_key(other));
    assert(after.limits.contains_key(other) ==> mid.limits.contains_key(other));
}

/// Of two packets of a source with nothing of it in between, the second continues nothing
/// where the monotonic clock shows more than ten seconds more than at the first.
pub proof fn law_call_after_ten_seconds_continues_nothing(
    before: TrackerState,
    between: TrackerState,
    after: TrackerState,
    first: Option<Outcome>,
    second: Option<Outcome>,
    src: IpAddr,
    ports: (u16, u16),
    windows: (Seq<u64>, Seq<u64>),
    rules: KnockRules,
    used: (UsedWindows, UsedWindows, UsedWindows),
    window_secs: u64,
    times: (u128, u128),
    readings: (Result<u64, ClockError>, Result<u64, ClockError>),
)
    requires
        before.wf(),
        between.wf(),
        model::processed_at(
            before,
            between,
            first,
            src,
            ports.0,
            windows.0,
            rules,
            used.0,
            used.1,
            window_secs,
            times.0,
            readings.0,
        ),
        model::processed_at(
            between,
            after,
            second,
            src,
            ports.1,
            windows.1,
            rules,
            used.1,
            used.2,
            window_secs,
            times.1,
            readings.1,
        ),
        times.1 - times.0 > 10_000_000_000,
    ensures
        second matches Some(Outcome::Partial { progress, .. }) ==> progress == 1,
        after.started.contains_key(src) ==> after.started[src].next_index == 1,
{
    let (mid, verdict) = choose|mid: TrackerState, verdict: Verdict|
        {
            &&& #[trigger] model::stepped(
                before,
                mid,
                verdict,
                src,
                ports.0,
                windows.0,
                rules,
                times.0,
            )
            &&& model::concluded_at(
                mid,
                between,
                verdict,
                first,
                used.0,
                used.1,
                readings.0,
                window_secs,
            )
        };
    assert(between.started == mid.started);
    let counted = choose|counted: TrackerState| #[trigger]
        model::counted(before, counted, times.0) && model::advanced(
            counted,
            mid,
            verdict,
            src,
            ports.0,
            windows.0,
            rules,
            times.0,
        );
    assert(mid.started.contains_key(src) ==> mid.started[src].last_knock == times.0);
    let (end, last) = choose|end: TrackerState, last: Verdict|
        {
            &&& #[trigger] model::stepped(
                between,
                end,
                last,
                src,
                ports.1,
                windows.1,
                rules,
                times.1,
            )
            &&& model::concluded_at(
                end,
                after,
                last,
                second,
                used.1,
                used.2,
                readings.1,
                window_secs,
            )
        };
    assert(after.started == end.started);
    let swept = choose|swept: TrackerState| #[trigger]
        model::counted(between, swept, times.1) && model::advanced(
            swept,
            end,
            last,
            src,
            ports.1,
            windows.1,
            rules,
            times.1,
        );
    model::lemma_counted(between, swept, times.1);
    assert(!model::without_stale(swept.started, src, times.1).contains_key(src));
}

} // verus!
