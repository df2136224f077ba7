//! What the client sends.

use vstd::prelude::*;

use crate::address::IpAddr;
use crate::client::error::ClientError;
use crate::clock::{self, ClockError};
use crate::daemon::config::KnockRules;
use crate::daemon::model::{self, Candidate};
use crate::observed;
use crate::secret::SecretKey;
use crate::sequence::{self, derive_sequence, MAX_KNOCK_COUNT};

verus! {

/// What is to be sent: from a socket bound to `bind`, one datagram of a single zero byte to
/// each of `ports`, in order.
#[derive(Debug)]
pub struct KnockPlan {
    pub bind: &'static str,
    pub ports: Vec<u16>,
}

/// The local address to send from, for a host of either family.
pub open spec fn bind_text(addr: IpAddr) -> Seq<char> {
    match addr {
        IpAddr::V4(_) => "0.0.0.0:0"@,
        IpAddr::V6(_) => "[::]:0"@,
    }
}

/// Plans the knock for a window.
pub fn plan_knock_in(
    addr: &IpAddr,
    secret: &SecretKey,
    window: u64,
    knock_count: usize,
) -> (plan: KnockPlan)
    requires
        knock_count <= MAX_KNOCK_COUNT,
    ensures
        plan.bind@ == bind_text(*addr),
        plan.ports@ == sequence::knock_sequence(secret@, window, knock_count as nat),
{
    let bind = match addr {
        IpAddr::V4(_) => "0.0.0.0:0",
        IpAddr::V6(_) => "[::]:0",
    };
    KnockPlan { bind, ports: derive_sequence(secret.as_bytes(), window, knock_count) }
}

/// Whether `plan` is that for the window at a reading of the clock, if the clock gave one.
pub open spec fn is_planned_at(
    plan: Result<KnockPlan, ClockError>,
    addr: IpAddr,
    secret: Seq<u8>,
    window_secs: u64,
    knock_count: usize,
    reading: Result<u64, ClockError>,
) -> bool {
    match reading {
        Ok(now) => {
            &&& plan matches Ok(p)
            &&& p.bind@ == bind_text(addr)
            &&& p.ports@ == sequence::knock_sequence(
                secret,
                clock::window_of(now, window_secs),
                knock_count as nat,
            )
        },
        Err(e) => plan == Err::<KnockPlan, ClockError>(e),
    }
}

/// Plans the knock for the window at a reading of the clock. Fails where the clock does.
pub fn plan_knock_at(
    addr: &IpAddr,
    secret: &SecretKey,
    window_secs: u64,
    knock_count: usize,
    reading: Result<u64, ClockError>,
) -> (plan: Result<KnockPlan, ClockError>)
    requires
        window_secs > 0,
        knock_count <= MAX_KNOCK_COUNT,
    ensures
        is_planned_at(plan, *addr, secret@, window_secs, knock_count, reading),
{
    match clock::window_for(reading, window_secs) {
        Ok(window) => Ok(plan_knock_in(addr, secret, window, knock_count)),
        Err(e) => Err(e),
    }
}

/// Plans the knock for the present window.
pub fn plan_knock(
    addr: &IpAddr,
    secret: &SecretKey,
    window_secs: u64,
    knock_count: usize,
) -> (plan: Result<KnockPlan, ClockError>)
    requires
        window_secs > 0,
        knock_count <= MAX_KNOCK_COUNT,
    ensures
        exists|reading: Result<u64, ClockError>|
            observed::time_of_day(reading) && #[trigger] is_planned_at(
                plan,
                *addr,
                secret@,
                window_secs,
                knock_count,
                reading,
            ),
        plan matches Ok(p) ==> {
            &&& p.bind@ == bind_text(*addr)
            &&& exists|now: u64|
                p.ports@ == sequence::knock_sequence(
                    secret@,
                    #[trigger] clock::window_of(now, window_secs),
                    knock_count as nat,
                )
        },
{
    let reading = clock::unix_now();
    plan_knock_at(addr, secret, window_secs, knock_count, reading)
}

/// Why no knock can be planned, whatever the time, if so.
pub open spec fn knock_refusal(window_secs: u64, knock_count: usize) -> Option<ClientError> {
    if window_secs == 0 {
        Some(ClientError::WindowNotPositive)
    } else if knock_count > MAX_KNOCK_COUNT {
        Some(ClientError::TooManyKnocks { count: knock_count })
    } else {
        None
    }
}

/// Checks that a knock can be planned.
fn check_knock(window_secs: u64, knock_count: usize) -> (outcome: Result<(), ClientError>)
    ensures
        outcome == match knock_refusal(window_secs, knock_count) {
            Some(e) => Err::<(), ClientError>(e),
            None => Ok(()),
        },
{
    if window_secs == 0 {
        Err(ClientError::WindowNotPositive)
    } else if knock_count > MAX_KNOCK_COUNT {
        Err(ClientError::TooManyKnocks { count: knock_count })
    } else {
        Ok(())
    }
}

/// Plans the knock for the window at a reading of the clock. Fails where windows would have
/// no length, where a sequence cannot have that many knocks, and where the clock fails.
pub fn prepare_knock_at(
    addr: &IpAddr,
    secret: &SecretKey,
    window_secs: u64,
    knock_count: usize,
    reading: Result<u64, ClockError>,
) -> (plan: Result<KnockPlan, ClientError>)
    ensures
        match (knock_refusal(window_secs, knock_count), reading) {
            (Some(e), _) => plan == Err::<KnockPlan, ClientError>(e),
            (None, Err(_)) => plan == Err::<KnockPlan, ClientError>(ClientError::ClockBeforeEpoch),
            (None, Ok(now)) => {
                &&& plan matches Ok(p)
                &&& p.bind@ == bind_text(*addr)
                &&& p.ports@ == sequence::knock_sequence(
                    secret@,
                    clock::window_of(now, window_secs),
                    knock_count as nat,
                )
            },
        },
{
    check_knock(window_secs, knock_count)?;
    match plan_knock_at(addr, secret, window_secs, knock_count, reading) {
        Ok(plan) => Ok(plan),
        Err(_) => Err(ClientError::ClockBeforeEpoch),
    }
}

/// Plans the knock for the present window. Fails where windows would have no length, where
/// a sequence cannot have that many knocks, and where the clock fails.
pub fn prepare_knock(
    addr: &IpAddr,
    secret: &SecretKey,
    window_secs: u64,
    knock_count: usize,
) -> (plan: Result<KnockPlan, ClientError>)
    ensures
        match knock_refusal(window_secs, knock_count) {
            Some(e) => plan == Err::<KnockPlan, ClientError>(e),
            None => match plan {
                Ok(p) => {
                    &&& p.bind@ == bind_text(*addr)
                    &&& exists|now: u64|
                        observed::time_of_day(Ok(now)) && p.ports@ == sequence::knock_sequence(
                            secret@,
                            #[trigger] clock::window_of(now, window_secs),
                            knock_count as nat,
                        )
                },
                Err(e) => {
                    &&& e == ClientError::ClockBeforeEpoch
                    &&& exists|cause: ClockError| #[trigger] observed::time_of_day(Err(cause))
                },
            },
        },
{
    check_knock(window_secs, knock_count)?;
    match plan_knock(addr, secret, window_secs, knock_count) {
        Ok(plan) => Ok(plan),
        Err(_) => Err(ClientError::ClockBeforeEpoch),
    }
}

proof fn lemma_candidate_of(rules: KnockRules, n: nat, windows: Seq<u64>, user: int, j: int)
    requires
        0 <= user < n,
        0 <= j < windows.len(),
    ensures
        model::candidates(rules, n, windows).contains(
            model::user_candidates(rules, user, windows)[j],
        ),
    decreases n,
{
    let m = (n - 1) as nat;
    let earlier = model::candidates(rules, m, windows);
    let own = model::user_candidates(rules, m as int, windows);
    let c = model::user_candidates(rules, user, windows)[j];
    if user == m {
        assert((earlier + own)[earlier.len() + j] == c);
    } else {
        lemma_candidate_of(rules, m, windows, user, j);
        let k = earlier.index_of(c);
        assert((earlier + own)[k] == c);
    }
}

/// Client and daemon agree: what a client that holds a configured user's key sends at the
/// time `sent` is among the sequences that the daemon waits for at the time `seen`, for as
/// long as their clocks and the way between them differ by no more than the skew.
pub proof fn law_daemon_waits_for_what_client_sends(
    rules: KnockRules,
    user: int,
    sent: u64,
    seen: u64,
    window_secs: u64,
    skew: u64,
)
    requires
        0 <= user < rules.users.len(),
        window_secs > 0,
        sent - seen <= skew * window_secs,
        seen - sent <= skew * window_secs,
    ensures
        ({
            let window = clock::window_of(sent, window_secs);
            let windows = clock::skewed_windows(clock::window_of(seen, window_secs), skew);
            model::candidates(rules, rules.users.len(), windows).contains(
                Candidate {
                    user_index: user as nat,
                    window,
                    sequence: sequence::knock_sequence(
                        rules.users[user].secret,
                        window,
                        rules.knock_count,
                    ),
                },
            )
        }),
{
    let window = clock::window_of(sent, window_secs);
    let windows = clock::skewed_windows(clock::window_of(seen, window_secs), skew);
    if sent <= seen {
        clock::law_skew_covers_drift(sent, seen, window_secs, skew);
    } else {
        clock::law_skew_covers_drift(seen, sent, window_secs, skew);
    }
    let j = windows.index_of(window);
    lemma_candidate_of(rules, rules.users.len(), windows, user, j);
}

/// A planned knock is that of the time it is planned for: its ports are those of the window,
/// of the given length, in which that time lies, each read off the HMAC-SHA256 of that
/// window's counter under the secret.
pub proof fn law_planned_knock_is_that_of_its_time(
    plan: Result<KnockPlan, ClockError>,
    addr: IpAddr,
    secret: Seq<u8>,
    window_secs: u64,
    knock_count: usize,
    now: u64,
    window: u64,
    message: Seq<u8>,
    i: int,
)
    requires
        is_planned_at(plan, addr, secret, window_secs, knock_count, Ok(now)),
        window * window_secs <= now < window * window_secs + window_secs,
        message.len() == 8,
        window == 0x100_0000_0000_0000 * message[0] + 0x1_0000_0000_0000 * message[1]
            + 0x100_0000_0000 * message[2] + 0x1_0000_0000 * message[3] + 0x100_0000 * message[4]
            + 0x1_0000 * message[5] + 0x100 * message[6] + message[7],
        0 <= i < knock_count <= 16,
    ensures
        plan is Ok,
        plan->Ok_0.ports@.len() == knock_count,
        plan->Ok_0.ports@[i] == 1024 + (256 * sequence::hmac_sha256_digest(secret, message)[2 * i]
            + sequence::hmac_sha256_digest(secret, message)[2 * i + 1]) % 64512,
        plan->Ok_0.bind@ == match addr {
            IpAddr::V4(_) => "0.0.0.0:0"@,
            IpAddr::V6(_) => "[::]:0"@,
        },
{
    clock::lemma_window_is_the_one(now, window_secs, window);
    sequence::law_ports_are_those_of_the_window(secret, window, message, knock_count as nat, i);
}

/// A knock is planned, where the clock can be read, if and only if windows have a length and
/// a sequence can have that many ports.
pub proof fn law_knock_is_refused_for_its_numbers(
    plan: Result<KnockPlan, ClockError>,
    addr: IpAddr,
    secret: Seq<u8>,
    window_secs: u64,
    knock_count: usize,
    error: ClockError,
)
    ensures
        knock_refusal(window_secs, knock_count) is None <==> window_secs > 0 && knock_count <= 16,
        window_secs == 0 ==> knock_refusal(window_secs, knock_count) == Some(
            ClientError::WindowNotPositive,
        ),
        window_secs > 0 && knock_count > 16 ==> knock_refusal(window_secs, knock_count) == Some(
            ClientError::TooManyKnocks { count: knock_count },
        ),
        is_planned_at(plan, addr, secret, window_secs, knock_count, Err(error)) ==> plan == Err::<
            KnockPlan,
            ClockError,
        >(error),
{
}

} // verus!
