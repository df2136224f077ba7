//! Replay prevention: which users have used which windows.

use vstd::prelude::*;

use crate::clock::{self, ClockError};
use crate::observed;

verus! {

/// For each `(user, window)` pair that has been used: when, in seconds since the Unix
/// epoch.
pub type UsedWindows = Map<(Seq<char>, u64), u64>;

/// Why the store could not answer.
#[derive(Debug, Clone, Copy, PartialEq, Eq, Structural)]
pub enum StoreError {
    /// The time of day is not known.
    Clock(ClockError),
    /// The database behind the store failed.
    Backend,
}

/// Whether a completed sequence stands, given what the store answered: only where it says
/// that the window was not used before. Only then the window is marked as used.
pub fn stands(used: &Result<bool, StoreError>) -> (yes: bool)
    ensures
        yes == (*used == Ok::<bool, StoreError>(false)),
{
    match used {
        Ok(was_used) => !*was_used,
        Err(_) => false,
    }
}

/// The time before which a use no longer matters: three windows ago.
pub open spec fn cutoff_of(now: u64, window_secs: u64) -> u64 {
    if now >= 3 * window_secs {
        (now - 3 * window_secs) as u64
    } else {
        0
    }
}

/// The used pairs after one more use at `now`, without those from before the cutoff.
pub open spec fn marked(
    used: UsedWindows,
    user: Seq<char>,
    window: u64,
    now: u64,
    window_secs: u64,
) -> UsedWindows {
    let all = used.insert((user, window), now);
    Map::new(
        |k: (Seq<char>, u64)| all.contains_key(k) && all[k] >= cutoff_of(now, window_secs),
        |k: (Seq<char>, u64)| all[k],
    )
}

/// The time before which a use no longer matters.
pub fn prune_cutoff(now: u64, window_secs: u64) -> (cutoff: u64)
    ensures
        cutoff == cutoff_of(now, window_secs),
{
    match window_secs.checked_mul(3) {
        Some(length) => now.saturating_sub(length),
        None => 0,
    }
}

struct UsedWindow {
    user: String,
    window: u64,
    used_at: u64,
}

impl UsedWindow {
    spec fn key(self) -> (Seq<char>, u64) {
        (self.user@, self.window)
    }
}

/// The pairs that have been used, kept in memory.
pub struct ReplayStore {
    entries: Vec<UsedWindow>,
    window_secs: u64,
}

spec fn is_entry(entries: Seq<UsedWindow>, key: (Seq<char>, u64), i: int) -> bool {
    0 <= i < entries.len() && entries[i].key() == key
}

spec fn distinct_keys(entries: Seq<UsedWindow>) -> bool {
    forall|k: (Seq<char>, u64), i: int, j: int| #[trigger]
        is_entry(entries, k, i) && #[trigger] is_entry(entries, k, j) ==> i == j
}

spec fn entry_map(entries: Seq<UsedWindow>) -> UsedWindows {
    Map::new(
        |k: (Seq<char>, u64)| exists|i: int| is_entry(entries, k, i),
        |k: (Seq<char>, u64)| entries[choose|i: int| is_entry(entries, k, i)].used_at,
    )
}

impl View for ReplayStore {
    type V = UsedWindows;

    closed spec fn view(&self) -> UsedWindows {
        entry_map(self.entries@)
    }
}

impl ReplayStore {
    /// No pair is held twice.
    #[verifier::type_invariant]
    spec fn wf(self) -> bool {
        distinct_keys(self.entries@)
    }

    /// The length of a window in seconds.
    pub closed spec fn window_length(&self) -> u64 {
        self.window_secs
    }

    /// A store in which nothing has been used yet.
    pub fn in_memory(window_secs: u64) -> (store: ReplayStore)
        ensures
            store@ == UsedWindows::empty(),
            store.window_length() == window_secs,
    {
        let store = ReplayStore { entries: Vec::new(), window_secs };
        assert(store@ =~= UsedWindows::empty());
        store
    }

    /// Whether `user` has used `window`.
    pub fn is_used(&self, user: &str, window: u64) -> (used: Result<bool, StoreError>)
        ensures
            used == Ok::<bool, StoreError>(self@.contains_key((user@, window))),
    {
        let name = user.to_owned();
        let mut i: usize = 0;
        while i < self.entries.len()
            invariant
                i <= self.entries@.len(),
                name@ == user@,
                forall|j: int| 0 <= j < i ==> !is_entry(self.entries@, (user@, window), j),
            decreases self.entries@.len() - i,
        {
            let entry = &self.entries[i];
            if entry.window == window && entry.user == name {
                assert(is_entry(self.entries@, (user@, window), i as int));
                return Ok(true);
            }
            i += 1;
        }
        Ok(false)
    }

    /// Records that `user` has used `window` now, and forgets the uses from before the
    /// cutoff.
    pub fn mark_used(&mut self, user: &str, window: u64) -> (outcome: Result<(), StoreError>)
        ensures
            match outcome {
                Ok(_) => exists|now: u64|
                    observed::time_of_day(Ok(now)) && final(self)@ == #[trigger] marked(
                        old(self)@,
                        user@,
                        window,
                        now,
                        old(self).window_length(),
                    ),
                Err(e) => {
                    &&& final(self)@ == old(self)@
                    &&& e matches StoreError::Clock(cause)
                    &&& observed::time_of_day(Err(cause))
                },
            },
            final(self).window_length() == old(self).window_length(),
    {
        match clock::unix_now() {
            Ok(now) => {
                self.mark_used_at(user, window, now);
                Ok(())
            },
            Err(e) => Err(StoreError::Clock(e)),
        }
    }

    /// Records that `user` has used `window` at `now`, and forgets the uses from before
    /// the cutoff.
    pub fn mark_used_at(&mut self, user: &str, window: u64, now: u64)
        ensures
            final(self)@ == marked(old(self)@, user@, window, now, old(self).window_length()),
            final(self).window_length() == old(self).window_length(),
    {
        proof {
            use_type_invariant(&*self);
        }
        let name = user.to_owned();
        let cutoff = prune_cutoff(now, self.window_secs);
        let mut rest: Vec<UsedWindow> = Vec::new();
        std::mem::swap(&mut rest, &mut self.entries);
        let ghost all = rest@;
        let ghost key = (user@, window);
        let mut kept: Vec<UsedWindow> = Vec::new();
        while rest.len() > 0
            invariant
                name@ == user@,
                key == (user@, window),
                distinct_keys(all),
                rest@.len() <= all.len(),
                rest@ == all.take(rest@.len() as int),
                kept_from(all, rest@.len() as int, kept@, key, cutoff),
            decreases rest@.len(),
        {
            if let Some(entry) = rest.pop() {
                let ghost n = rest@.len() as int;
                let ghost earlier = kept@;
                assert(entry == all[n]);
                assert(rest@ =~= all.take(n));
                if entry.used_at >= cutoff && !(entry.window == window && entry.user == name) {
                    kept.push(entry);
                    proof {
                        lemma_kept_one_more(all, n, earlier, key, cutoff);
                    }
                } else {
                    proof {
                        lemma_left_one_out(all, n, earlier, key, cutoff);
                    }
                }
            }
        }
        let entry = UsedWindow { user: name, window, used_at: now };
        proof {
            assert(rest@.len() == 0);
            lemma_marked(all, kept@, entry, self.window_secs);
        }
        kept.push(entry);
        self.entries = kept;
    }
}

/// Whether `kept` holds those of `all` from `n` on that are no older than `cutoff` and
/// not about `key`.
spec fn kept_from(
    all: Seq<UsedWindow>,
    n: int,
    kept: Seq<UsedWindow>,
    key: (Seq<char>, u64),
    cutoff: u64,
) -> bool {
    &&& distinct_keys(kept)
    &&& forall|i: int|
        0 <= i < kept.len() ==> exists|j: int|
            n <= j < all.len() && all[j] == #[trigger] kept[i]
    &&& forall|i: int|
        0 <= i < kept.len() ==> (#[trigger] kept[i]).used_at >= cutoff && kept[i].key() != key
    &&& forall|j: int|
        n <= j < all.len() && (#[trigger] all[j]).used_at >= cutoff && all[j].key() != key
            ==> kept.contains(all[j])
}

proof fn lemma_kept_one_more(
    all: Seq<UsedWindow>,
    n: int,
    kept: Seq<UsedWindow>,
    key: (Seq<char>, u64),
    cutoff: u64,
)
    requires
        distinct_keys(all),
        0 <= n < all.len(),
        all[n].used_at >= cutoff,
        all[n].key() != key,
        kept_from(all, n + 1, kept, key, cutoff),
    ensures
        kept_from(all, n, kept.push(all[n]), key, cutoff),
{
    let more = kept.push(all[n]);
    assert forall|i: int| 0 <= i < more.len() implies exists|j: int|
        n <= j < all.len() && all[j] == #[trigger] more[i] by {
        if i < kept.len() {
            let j = choose|j: int| n + 1 <= j < all.len() && all[j] == kept[i];
            assert(all[j] == more[i]);
        } else {
            assert(all[n] == more[i]);
        }
    }
    assert forall|i: int| 0 <= i < kept.len() implies kept[i].key() != all[n].key() by {
        let j = choose|j: int| n + 1 <= j < all.len() && all[j] == kept[i];
        if all[j].key() == all[n].key() {
            assert(is_entry(all, all[n].key(), j) && is_entry(all, all[n].key(), n));
        }
    }
    assert forall|k: (Seq<char>, u64), i: int, j: int| #[trigger]
        is_entry(more, k, i) && #[trigger] is_entry(more, k, j) implies i == j by {
        if i < kept.len() && j < kept.len() {
            assert(is_entry(kept, k, i) && is_entry(kept, k, j));
        }
    }
    assert forall|j: int|
        n <= j < all.len() && (#[trigger] all[j]).used_at >= cutoff && all[j].key()
            != key implies more.contains(all[j]) by {
        if j == n {
            assert(more[kept.len() as int] == all[j]);
        } else {
            let i = kept.index_of(all[j]);
            assert(more[i] == all[j]);
        }
    }
}

proof fn lemma_left_one_out(
    all: Seq<UsedWindow>,
    n: int,
    kept: Seq<UsedWindow>,
    key: (Seq<char>, u64),
    cutoff: u64,
)
    requires
        0 <= n < all.len(),
        all[n].used_at < cutoff || all[n].key() == key,
        kept_from(all, n + 1, kept, key, cutoff),
    ensures
        kept_from(all, n, kept, key, cutoff),
{
    assert forall|i: int| 0 <= i < kept.len() implies exists|j: int|
        n <= j < all.len() && all[j] == #[trigger] kept[i] by {
        let j = choose|j: int| n + 1 <= j < all.len() && all[j] == kept[i];
        assert(all[j] == kept[i]);
    }
}

proof fn lemma_entry(entries: Seq<UsedWindow>, i: int)
    requires
        distinct_keys(entries),
        0 <= i < entries.len(),
    ensures
        entry_map(entries).contains_key(entries[i].key()),
        entry_map(entries)[entries[i].key()] == entries[i].used_at,
{
    assert(is_entry(entries, entries[i].key(), i));
}

proof fn lemma_marked(
    all: Seq<UsedWindow>,
    kept: Seq<UsedWindow>,
    entry: UsedWindow,
    window_secs: u64,
)
    requires
        distinct_keys(all),
        kept_from(all, 0, kept, entry.key(), cutoff_of(entry.used_at, window_secs)),
    ensures
        distinct_keys(kept.push(entry)),
        entry_map(kept.push(entry)) == marked(
            entry_map(all),
            entry.user@,
            entry.window,
            entry.used_at,
            window_secs,
        ),
{
    let more = kept.push(entry);
    let key = entry.key();
    let cutoff = cutoff_of(entry.used_at, window_secs);
    assert forall|k: (Seq<char>, u64), i: int, j: int| #[trigger]
        is_entry(more, k, i) && #[trigger] is_entry(more, k, j) implies i == j by {
        if i < kept.len() && j < kept.len() {
            assert(is_entry(kept, k, i) && is_entry(kept, k, j));
        }
    }
    let target = marked(entry_map(all), entry.user@, entry.window, entry.used_at, window_secs);
    assert forall|k: (Seq<char>, u64)| #[trigger]
        entry_map(more).contains_key(k) implies target.contains_key(k) && entry_map(more)[k]
        == target[k] by {
        let i = choose|i: int| is_entry(more, k, i);
        lemma_entry(more, i);
        if i < kept.len() {
            let j = choose|j: int| 0 <= j < all.len() && all[j] == kept[i];
            assert(more[i] == kept[i]);
            lemma_entry(all, j);
        }
    }
    assert forall|k: (Seq<char>, u64)| #[trigger] target.contains_key(k) implies entry_map(
        more,
    ).contains_key(k) by {
        if k == key {
            lemma_entry(more, kept.len() as int);
        } else {
            let j = choose|j: int| is_entry(all, k, j);
            lemma_entry(all, j);
            assert(kept.contains(all[j]));
            let i = kept.index_of(all[j]);
            assert(more[i] == all[j]);
            lemma_entry(more, i);
        }
    }
    assert(entry_map(more) =~= target);
}

/// A pair that has just been marked is used.
pub proof fn law_marked_pair_is_used(
    used: UsedWindows,
    user: Seq<char>,
    window: u64,
    now: u64,
    window_secs: u64,
)
    ensures
        marked(used, user, window, now, window_secs).contains_key((user, window)),
        marked(used, user, window, now, window_secs)[(user, window)] == now,
{
}

/// Marking a pair touches no other user and no other window: none becomes used by it,
/// and none that was used at the cutoff or later is forgotten.
pub proof fn law_other_pairs_are_independent(
    used: UsedWindows,
    user: Seq<char>,
    window: u64,
    now: u64,
    window_secs: u64,
    other: (Seq<char>, u64),
)
    requires
        other != (user, window),
    ensures
        marked(used, user, window, now, window_secs).contains_key(other) <==> used.contains_key(
            other,
        ) && used[other] >= cutoff_of(now, window_secs),
        used.contains_key(other) && used[other] >= cutoff_of(now, window_secs) ==> marked(
            used,
            user,
            window,
            now,
            window_secs,
        )[other] == used[other],
{
}

/// With a skew of one window at most, forgetting a use lets no replay through: a window
/// that was not ahead of the tolerated ones when it was used is no longer tolerated when
/// its use is forgotten, nor at any later time.
pub proof fn law_forgotten_windows_are_past(
    window: u64,
    used_at: u64,
    forgotten_at: u64,
    later: u64,
    window_secs: u64,
    skew: u64,
)
    requires
        window_secs > 0,
        skew <= 1,
        window <= clock::window_of(used_at, window_secs) + skew,
        used_at < cutoff_of(forgotten_at, window_secs),
        forgotten_at <= later,
    ensures
        !clock::skewed_windows(clock::window_of(later, window_secs), skew).contains(window),
{
    let then = clock::window_of(used_at, window_secs);
    let now = clock::window_of(later, window_secs);
    let s = window_secs as int;
    assert(now >= then + 3) by (nonlinear_arith)
        requires
            s > 0,
            used_at + 3 * s <= later,
            then == used_at as int / s,
            now == later as int / s,
    ;
    clock::law_tolerated_windows(now, skew, window);
}

/// The used pairs once each of `marks`, a pair and a time, has been marked.
pub open spec fn after_marks(
    used: UsedWindows,
    marks: Seq<((Seq<char>, u64), u64)>,
    window_secs: u64,
) -> UsedWindows
    decreases marks.len(),
{
    if marks.len() == 0 {
        used
    } else {
        let ((user, window), now) = marks.last();
        let before = after_marks(used, marks.drop_last(), window_secs);
        marked(before, user, window, now, window_secs)
    }
}

/// A use lasts for three windows: a pair that was marked at `at` stays used, whatever other
/// pairs are marked since, for as long as none of that happens more than `3 * window_secs`
/// seconds later. Once something has, it is forgotten.
pub proof fn law_use_lasts_three_windows(
    used: UsedWindows,
    user: Seq<char>,
    window: u64,
    at: u64,
    marks: Seq<((Seq<char>, u64), u64)>,
    window_secs: u64,
)
    requires
        forall|i: int| 0 <= i < marks.len() ==> (#[trigger] marks[i]).0 != (user, window),
    ensures
        ({
            let after = after_marks(
                marked(used, user, window, at, window_secs),
                marks,
                window_secs,
            );
            &&& after.contains_key((user, window)) <==> forall|i: int|
                0 <= i < marks.len() ==> (#[trigger] marks[i]).1 <= at + 3 * window_secs
            &&& after.contains_key((user, window)) ==> after[(user, window)] == at
        }),
    decreases marks.len(),
{
    if marks.len() > 0 {
        let rest = marks.drop_last();
        assert forall|i: int| 0 <= i < rest.len() implies (#[trigger] rest[i]).0 != (
            user,
            window,
        ) by {
            assert(rest[i] == marks[i]);
        }
        law_use_lasts_three_windows(used, user, window, at, rest, window_secs);
        let last = marks[marks.len() - 1];
        let key = (user, window);
        let before = after_marks(marked(used, user, window, at, window_secs), rest, window_secs);
        let after = after_marks(marked(used, user, window, at, window_secs), marks, window_secs);
        law_other_pairs_are_independent(
            before,
            last.0.0,
            last.0.1,
            last.1,
            window_secs,
            key,
        );
        if after.contains_key(key) {
            assert forall|i: int| 0 <= i < marks.len() implies (#[trigger] marks[i]).1 <= at + 3
                * window_secs by {
                if i < rest.len() {
                    assert(rest[i] == marks[i]);
                }
            }
        }
        if forall|i: int|
            0 <= i < marks.len() ==> (#[trigger] marks[i]).1 <= at + 3 * window_secs {
            assert forall|i: int| 0 <= i < rest.len() implies (#[trigger] rest[i]).1 <= at + 3
                * window_secs by {
                assert(rest[i] == marks[i]);
            }
            assert(last.1 <= at + 3 * window_secs);
        }
    }
}

} // verus!
