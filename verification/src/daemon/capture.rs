//! What the capture loop decides.

use vstd::prelude::*;

use crate::address::IpAddr;
use crate::clock::{self, ClockError};
use crate::daemon::config::Config;
use crate::daemon::knock::{KnockResult, KnockTracker};
use crate::daemon::model::{self, Outcome, TrackerState};
use crate::daemon::packet;
use crate::daemon::store::{ReplayStore, UsedWindows};
use crate::observed;
use crate::sequence::MAX_KNOCK_COUNT;

verus! {

/// After how many packets the metrics are logged.
pub const METRICS_INTERVAL: u64 = 10_000;

/// After how many refused sequences a warning is logged.
pub const ALERT_INTERVAL: u64 = 100;

/// What the loop does next.
#[derive(Debug, Clone, Copy, PartialEq, Eq, Structural)]
pub enum LoopStep {
    /// Log the final metrics and stop.
    Stop,
    /// Say that reloading is not possible yet, then wait for a packet.
    RefuseReload,
    /// Wait for a packet.
    Capture,
}

/// Decides what the loop does, given which signals have come.
pub fn next_step(shutdown: bool, reload: bool) -> (step: LoopStep)
    ensures
        step == if shutdown {
            LoopStep::Stop
        } else if reload {
            LoopStep::RefuseReload
        } else {
            LoopStep::Capture
        },
{
    if shutdown {
        LoopStep::Stop
    } else if reload {
        LoopStep::RefuseReload
    } else {
        LoopStep::Capture
    }
}

/// What came of waiting for a packet.
#[derive(Debug, Clone, Copy, PartialEq, Eq, Structural)]
pub enum Captured {
    /// A frame.
    Frame,
    /// None within the time to wait.
    Timeout,
    /// The capture failed.
    Failure,
}

/// Decides whether the loop goes on after waiting for a packet. It ends only where the
/// capture failed.
pub fn after_capture(captured: Captured) -> (goes_on: bool)
    ensures
        goes_on == !(captured is Failure),
{
    match captured {
        Captured::Frame => true,
        Captured::Timeout => true,
        Captured::Failure => false,
    }
}

/// What is to be done about a packet.
#[derive(Debug, PartialEq)]
pub enum Reaction {
    /// Note that a sequence is under way.
    Progress { user: String, progress: usize, total: usize },
    /// Open the firewall for the source for `secs` seconds.
    OpenFirewall { user: String, secs: u64 },
    /// Note the refused sequence, and warn if `alert`.
    Denied { alert: bool },
    /// Do nothing.
    Ignore,
}

/// Whether `reaction` is the right one to `outcome`, as the `refused`-th refused sequence
/// if it is one.
pub open spec fn is_reaction(
    reaction: Reaction,
    outcome: Outcome,
    refused: nat,
    open_secs: u64,
) -> bool {
    match outcome {
        Outcome::Partial { user, progress, total } => {
            &&& reaction matches Reaction::Progress { user: u, progress: p, total: t }
            &&& u@ == user && p == progress && t == total
        },
        Outcome::Complete { user } => {
            &&& reaction matches Reaction::OpenFirewall { user: u, secs }
            &&& u@ == user && secs == open_secs
        },
        Outcome::Mismatch => reaction == Reaction::Denied {
            alert: refused % ALERT_INTERVAL as nat == 0,
        },
        Outcome::Unrelated => reaction == Reaction::Ignore,
    }
}

/// Counters of the capture loop.
#[derive(Debug, Clone, Copy)]
pub struct CaptureCounts {
    /// UDP packets seen.
    pub packets: u64,
    /// Sequences refused.
    pub refused: u64,
}

/// The number of refused sequences after `outcome`.
pub open spec fn refused_after(refused: u64, outcome: Outcome) -> int {
    if outcome is Mismatch {
        refused + 1
    } else {
        refused as int
    }
}

/// Whether a packet from `src` on `dst_port` was rightly taken at the time `now` on the
/// monotonic clock, with the time of day read as `reading` when it was seen, and as
/// `mark_reading` when a window was to be marked as used.
pub open spec fn is_handled_at(
    counts: CaptureCounts,
    counts_after: CaptureCounts,
    before: TrackerState,
    after: TrackerState,
    used_before: UsedWindows,
    used_after: UsedWindows,
    window_length: u64,
    src: IpAddr,
    dst_port: u16,
    config: Config,
    reading: Result<u64, ClockError>,
    now: u128,
    mark_reading: Result<u64, ClockError>,
    reaction: Result<Reaction, ClockError>,
) -> bool {
    match reading {
        Ok(unix_secs) => exists|outcome: Option<Outcome>|
            {
                &&& #[trigger] model::processed_at(
                    before,
                    after,
                    outcome,
                    src,
                    dst_port,
                    clock::skewed_windows(
                        clock::window_of(unix_secs, config.window_secs),
                        config.skew,
                    ),
                    config.rules(),
                    used_before,
                    used_after,
                    window_length,
                    now,
                    mark_reading,
                )
                &&& match outcome {
                    Some(o) => {
                        &&& reaction matches Ok(r)
                        &&& is_reaction(r, o, counts.refused as nat + 1, config.open_secs)
                        &&& counts_after.refused == refused_after(counts.refused, o)
                    },
                    None => {
                        &&& reaction matches Err(e)
                        &&& mark_reading == Err::<u64, ClockError>(e)
                        &&& counts_after.refused == counts.refused
                    },
                }
            },
        Err(e) => {
            &&& reaction == Err::<Reaction, ClockError>(e)
            &&& counts_after.refused == counts.refused
            &&& after == before
            &&& used_after == used_before
        },
    }
}

impl CaptureCounts {
    pub fn new() -> (counts: CaptureCounts)
        ensures
            counts.packets == 0,
            counts.refused == 0,
    {
        CaptureCounts { packets: 0, refused: 0 }
    }

    /// Reads a captured frame, and counts it if it is a UDP packet.
    pub fn take_frame(&mut self, data: &[u8]) -> (found: Option<(IpAddr, u16)>)
        requires
            old(self).packets < u64::MAX,
        ensures
            found == packet::frame_udp(data@),
            final(self).packets == if found is Some {
                old(self).packets + 1
            } else {
                old(self).packets as int
            },
            final(self).refused == old(self).refused,
    {
        let found = packet::parse_udp(data);
        if found.is_some() {
            self.packets += 1;
        }
        found
    }

    /// Whether the metrics are to be logged after the packet just counted.
    pub fn metrics_are_due(&self) -> (due: bool)
        ensures
            due == (self.packets % METRICS_INTERVAL == 0),
    {
        self.packets % METRICS_INTERVAL == 0
    }

    /// Decides what is to be done about what became of a packet.
    pub fn react(&mut self, result: KnockResult, config: &Config) -> (reaction: Reaction)
        requires
            old(self).refused < u64::MAX,
        ensures
            is_reaction(reaction, result@, old(self).refused as nat + 1, config.open_secs),
            final(self).refused == refused_after(old(self).refused, result@),
            final(self).packets == old(self).packets,
    {
        match result {
            KnockResult::Partial { user, progress, total } => Reaction::Progress {
                user,
                progress,
                total,
            },
            KnockResult::Complete { user } => Reaction::OpenFirewall {
                user,
                secs: config.open_secs,
            },
            KnockResult::Mismatch => {
                self.refused += 1;
                Reaction::Denied { alert: self.refused % ALERT_INTERVAL == 0 }
            },
            KnockResult::Unrelated => Reaction::Ignore,
        }
    }

    /// Takes a packet from `src` on `dst_port` at the time `now` on the monotonic clock,
    /// while the windows around the time of day, read as `reading`, are tolerated, and
    /// decides what is to be done about it. `mark_reading` is the time of day at which a
    /// window is marked as used. Fails where one of the two readings is needed and failed.
    pub fn handle_packet_at(
        &mut self,
        tracker: &mut KnockTracker,
        src: IpAddr,
        dst_port: u16,
        config: &Config,
        store: &mut ReplayStore,
        reading: Result<u64, ClockError>,
        now: u128,
        mark_reading: Result<u64, ClockError>,
    ) -> (reaction: Result<Reaction, ClockError>)
        requires
            config.window_secs > 0,
            1 <= config.knock_count <= MAX_KNOCK_COUNT,
            old(self).refused < u64::MAX,
            old(tracker)@.wf(),
            old(tracker)@.knows_only(config.users@.len()),
            old(tracker)@.has_room_for(src),
        ensures
            is_handled_at(
                *old(self),
                *final(self),
                old(tracker)@,
                final(tracker)@,
                old(store)@,
                final(store)@,
                old(store).window_length(),
                src,
                dst_port,
                *config,
                reading,
                now,
                mark_reading,
                reaction,
            ),
            reading is Ok && mark_reading is Ok ==> reaction is Ok,
            final(self).packets == old(self).packets,
            final(tracker)@.wf(),
            final(tracker)@.knows_only(config.users@.len()),
            final(tracker).origin() == old(tracker).origin(),
            final(store).window_length() == old(store).window_length(),
    {
        let windows = match clock::windows_for(reading, config.window_secs, config.skew) {
            Ok(windows) => windows,
            Err(e) => {
                return Err(e);
            },
        };
        match tracker.process_at(
            src,
            dst_port,
            windows.as_slice(),
            config,
            store,
            now,
            mark_reading,
        ) {
            Ok(result) => Ok(self.react(result, config)),
            Err(e) => Err(e),
        }
    }

    /// Takes a packet from `src` on `dst_port` while the windows around the present one
    /// are tolerated, and decides what is to be done about it. Fails where the time of day
    /// is not known.
    pub fn handle_packet(
        &mut self,
        tracker: &mut KnockTracker,
        src: IpAddr,
        dst_port: u16,
        config: &Config,
        store: &mut ReplayStore,
    ) -> (reaction: Result<Reaction, ClockError>)
        requires
            config.window_secs > 0,
            1 <= config.knock_count <= MAX_KNOCK_COUNT,
            old(self).refused < u64::MAX,
            old(tracker)@.wf(),
            old(tracker)@.knows_only(config.users@.len()),
            old(tracker)@.has_room_for(src),
        ensures
            exists|reading: Result<u64, ClockError>, now: u128, mark: Result<u64, ClockError>|
                {
                    &&& observed::time_of_day(reading)
                    &&& observed::time_since(old(tracker).origin(), now)
                    &&& observed::time_of_day(mark)
                    &&& #[trigger] is_handled_at(
                        *old(self),
                        *final(self),
                        old(tracker)@,
                        final(tracker)@,
                        old(store)@,
                        final(store)@,
                        old(store).window_length(),
                        src,
                        dst_port,
                        *config,
                        reading,
                        now,
                        mark,
                        reaction,
                    )
                },
            match reaction {
                Ok(r) => exists|unix_secs: u64, outcome: Outcome|
                    {
                        &&& #[trigger] model::processed(
                            old(tracker)@,
                            final(tracker)@,
                            Some(outcome),
                            src,
                            dst_port,
                            clock::skewed_windows(
                                clock::window_of(unix_secs, config.window_secs),
                                config.skew,
                            ),
                            config.rules(),
                            old(store)@,
                            final(store)@,
                            old(store).window_length(),
                        )
                        &&& is_reaction(r, outcome, old(self).refused as nat + 1, config.open_secs)
                        &&& final(self).refused == refused_after(old(self).refused, outcome)
                    },
                Err(_) => {
                    &&& final(self).refused == old(self).refused
                    &&& final(store)@ == old(store)@
                    &&& {
                        ||| final(tracker)@ == old(tracker)@
                        ||| exists|unix_secs: u64| #[trigger]
                            model::processed(
                                old(tracker)@,
                                final(tracker)@,
                                None,
                                src,
                                dst_port,
                                clock::skewed_windows(
                                    clock::window_of(unix_secs, config.window_secs),
                                    config.skew,
                                ),
                                config.rules(),
                                old(store)@,
                                final(store)@,
                                old(store).window_length(),
                            )
                    }
                },
            },
            final(self).packets == old(self).packets,
            final(tracker)@.wf(),
            final(tracker)@.knows_only(config.users@.len()),
            final(tracker).origin() == old(tracker).origin(),
            final(store).window_length() == old(store).window_length(),
    {
        let reading = clock::unix_now();
        let now = tracker.elapsed();
        let mark_reading = clock::unix_now();
        let reaction = self.handle_packet_at(
            tracker,
            src,
            dst_port,
            config,
            store,
            reading,
            now,
            mark_reading,
        );
        proof {
            if let Ok(unix_secs) = reading {
                let windows = clock::skewed_windows(
                    clock::window_of(unix_secs, config.window_secs),
                    config.skew,
                );
                let outcome = choose|outcome: Option<Outcome>|
                    {
                        &&& #[trigger] model::processed_at(
                            old(tracker)@,
                            tracker@,
                            outcome,
                            src,
                            dst_port,
                            windows,
                            config.rules(),
                            old(store)@,
                            store@,
                            old(store).window_length(),
                            now,
                            mark_reading,
                        )
                        &&& reaction is Ok <==> outcome is Some
                        &&& reaction matches Ok(r) ==> is_reaction(
                            r,
                            outcome->0,
                            old(self).refused as nat + 1,
                            config.open_secs,
                        ) && self.refused == refused_after(old(self).refused, outcome->0)
                    };
                model::lemma_processed_at(
                    old(tracker)@,
                    tracker@,
                    outcome,
                    src,
                    dst_port,
                    windows,
                    config.rules(),
                    old(store)@,
                    store@,
                    old(store).window_length(),
                    now,
                    mark_reading,
                );
            }
        }
        reaction
    }
}

/// The firewall is opened for a completed sequence, and for nothing else.
pub proof fn law_only_completion_opens(
    reaction: Reaction,
    outcome: Outcome,
    refused: nat,
    open_secs: u64,
)
    requires
        is_reaction(reaction, outcome, refused, open_secs),
    ensures
        reaction is OpenFirewall <==> outcome is Complete,
{
}

/// Each outcome has its reaction: progress is noted as it is, a completed sequence opens the
/// firewall for as long as the configuration says, a refused one is noted, with an alert for
/// each hundredth and no other, and what is unrelated is passed over. Only refused sequences
/// count as refused.
pub proof fn law_reaction_fits_outcome(
    reaction: Reaction,
    outcome: Outcome,
    before: u64,
    open_secs: u64,
)
    requires
        is_reaction(reaction, outcome, before as nat + 1, open_secs),
    ensures
        refused_after(before, outcome) == if outcome is Mismatch {
            before + 1
        } else {
            before as int
        },
        match reaction {
            Reaction::Progress { user, progress, total } => outcome == (Outcome::Partial {
                user: user@,
                progress: progress as nat,
                total: total as nat,
            }),
            Reaction::OpenFirewall { user, secs } => {
                &&& outcome == (Outcome::Complete { user: user@ })
                &&& secs == open_secs
            },
            Reaction::Denied { alert } => {
                &&& outcome == Outcome::Mismatch
                &&& alert <==> exists|k: int| before + 1 == #[trigger] hundreds(k)
            },
            Reaction::Ignore => outcome == Outcome::Unrelated,
        },
{
    if let Reaction::Denied { alert } = reaction {
        let n = before + 1;
        if alert {
            assert(n == hundreds(n / 100));
        }
        assert forall|k: int| n == #[trigger] hundreds(k) implies alert by {
            assert(n % 100 == 0);
        }
    }
}

/// `k` times a hundred.
pub open spec fn hundreds(k: int) -> int {
    100 * k
}

/// Metrics are logged each ten thousandth packet.
pub proof fn law_metrics_interval()
    ensures
        METRICS_INTERVAL == 10_000,
{
}

/// A packet is judged by the windows around the time at which it was seen: where `window` is
/// the one in which that time lies, exactly those are tolerated that differ from it by the
/// skew at most.
pub proof fn law_packet_is_judged_by_the_windows_around_its_time(
    counts: CaptureCounts,
    counts_after: CaptureCounts,
    before: TrackerState,
    after: TrackerState,
    used_before: UsedWindows,
    used_after: UsedWindows,
    window_length: u64,
    src: IpAddr,
    dst_port: u16,
    config: Config,
    unix_secs: u64,
    now: u128,
    mark_reading: Result<u64, ClockError>,
    reaction: Result<Reaction, ClockError>,
    window: u64,
) -> (judged: (Seq<u64>, Option<Outcome>))
    requires
        is_handled_at(
            counts,
            counts_after,
            before,
            after,
            used_before,
            used_after,
            window_length,
            src,
            dst_port,
            config,
            Ok(unix_secs),
            now,
            mark_reading,
            reaction,
        ),
        window * config.window_secs <= unix_secs < window * config.window_secs
            + config.window_secs,
    ensures
        forall|w: u64|
            judged.0.contains(w) <==> window - config.skew <= w <= window + config.skew,
        model::processed_at(
            before,
            after,
            judged.1,
            src,
            dst_port,
            judged.0,
            config.rules(),
            used_before,
            used_after,
            window_length,
            now,
            mark_reading,
        ),
        reaction matches Ok(Reaction::OpenFirewall { user, secs }) ==> {
            &&& judged.1 == Some(Outcome::Complete { user: user@ })
            &&& secs == config.open_secs
        },
        judged.1 matches Some(Outcome::Complete { user }) ==> {
            &&& reaction matches Ok(Reaction::OpenFirewall { user: u, .. })
            &&& u@ == user
        },
        judged.1 is None <==> reaction is Err,
{
    let windows = clock::skewed_windows(
        clock::window_of(unix_secs, config.window_secs),
        config.skew,
    );
    let outcome = choose|outcome: Option<Outcome>|
        {
            &&& #[trigger] model::processed_at(
                before,
                after,
                outcome,
                src,
                dst_port,
                windows,
                config.rules(),
                used_before,
                used_after,
                window_length,
                now,
                mark_reading,
            )
            &&& match outcome {
                Some(o) => {
                    &&& reaction matches Ok(r)
                    &&& is_reaction(r, o, counts.refused as nat + 1, config.open_secs)
                    &&& counts_after.refused == refused_after(counts.refused, o)
                },
                None => {
                    &&& reaction matches Err(e)
                    &&& mark_reading == Err::<u64, ClockError>(e)
                    &&& counts_after.refused == counts.refused
                },
            }
        };
    clock::lemma_window_is_the_one(unix_secs, config.window_secs, window);
    assert forall|w: u64|
        windows.contains(w) <==> window - config.skew <= w <= window + config.skew by {
        clock::law_tolerated_windows(window, config.skew, w);
    }
    (windows, outcome)
}

} // verus!
