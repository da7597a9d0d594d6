//! Throughput and reliability of one peer. Times are readings of a monotonic clock in
//! milliseconds.

use crate::ordered_map::{lemma_entry, lemma_replace, OrderedMap};
use crate::primitives::IrysAddress;
use std::collections::VecDeque;
use vstd::prelude::*;

verus! {

/// How fast a peer is.
#[derive(Clone, Copy, Debug, PartialEq, Eq, Structural)]
pub enum BandwidthRating {
    /// Up to forty megabytes per second.
    Low,
    /// Up to eighty megabytes per second.
    Medium,
    /// More.
    High,
}

/// Counts bytes over a window of time.
#[derive(Clone, Copy, Debug, PartialEq, Eq, Structural)]
pub struct BandwidthWindow {
    pub bytes_transferred: u64,
    pub window_start: u64,
    pub window_duration: u64,
}

/// How long before `now` the reading `start` was taken, zero if it was not before.
pub open spec fn elapsed(now: u64, start: u64) -> nat {
    if now >= start {
        (now - start) as nat
    } else {
        0
    }
}

impl BandwidthWindow {
    /// A window of the given length that begins at `now`.
    pub fn new(duration: u64, now: u64) -> (r: BandwidthWindow)
        ensures
            r.bytes_transferred == 0,
            r.window_start == now,
            r.window_duration == duration,
    {
        BandwidthWindow { bytes_transferred: 0, window_start: now, window_duration: duration }
    }

    /// Whether the window has passed.
    pub open spec fn expired(&self, now: u64) -> bool {
        elapsed(now, self.window_start) > self.window_duration
    }

    /// Counts `bytes`, in a new window if the old one has passed.
    pub fn add_bytes(&mut self, bytes: u64, now: u64)
        requires
            old(self).expired(now) || old(self).bytes_transferred + bytes <= u64::MAX,
        ensures
            final(self).window_duration == old(self).window_duration,
            old(self).expired(now) ==> final(self).bytes_transferred == bytes
                && final(self).window_start == now,
            !old(self).expired(now) ==> final(self).bytes_transferred
                == old(self).bytes_transferred + bytes && final(self).window_start
                == old(self).window_start,
    {
        if now.saturating_sub(self.window_start) > self.window_duration {
            self.bytes_transferred = bytes;
            self.window_start = now;
        } else {
            self.bytes_transferred = self.bytes_transferred + bytes;
        }
    }

    /// The rate in bytes per second by whole seconds, zero within the first second.
    pub open spec fn rate(&self, now: u64) -> nat {
        let seconds = elapsed(now, self.window_start) / 1000;
        if seconds == 0 {
            0
        } else {
            self.bytes_transferred as nat / seconds
        }
    }

    /// The rate in bytes per second since the window began.
    pub fn bytes_per_second(&self, now: u64) -> (r: u64)
        ensures
            r == self.rate(now),
    {
        let seconds: u64 = now.saturating_sub(self.window_start) / 1000;
        if seconds == 0 {
            return 0;
        }
        self.bytes_transferred / seconds
    }
}

/// What an event of the scheduler means for the statistics of a peer.
#[derive(Clone, Copy, Debug, PartialEq, Eq, Structural)]
pub enum PeerEffect {
    /// A request was sent: the peer has one more running.
    Started,
    /// The request is over; the peer delivered the chunk after `duration` and is credited for it.
    Completed { duration: u64 },
    /// The request is over; a missing chunk says nothing about the peer's health.
    NotFound,
    /// The request is over and the peer is penalised.
    RequestFailure,
}

/// How many completion times are kept.
pub const MAX_SAMPLES: usize = 50;

/// What is taken for the average completion time before there is one, in milliseconds.
pub const DEFAULT_COMPLETION_TIME: u64 = 100;

/// Throughput and reliability of one peer.
#[derive(Debug)]
pub struct PeerStats {
    pub chunk_size: u64,
    /// Where adjustments start from.
    pub baseline_concurrency: u32,
    pub current_max_concurrency: u32,
    pub max_concurrency: u32,
    pub bandwidth_rating: BandwidthRating,
    pub timeout: u64,
    pub consecutive_failures: u32,
    pub active_requests: usize,
    /// The last ten seconds.
    pub short_term_window: BandwidthWindow,
    /// The last half minute.
    pub medium_term_window: BandwidthWindow,
    /// The last five minutes.
    pub long_term_window: BandwidthWindow,
    /// The completion times of the last chunks, the oldest first.
    pub completion_time_samples: VecDeque<u64>,
}

/// The contents of [`PeerStats`].
#[verifier::ext_equal]
pub ghost struct PeerStatsView {
    pub chunk_size: u64,
    pub baseline_concurrency: u32,
    pub current_max_concurrency: u32,
    pub max_concurrency: u32,
    pub bandwidth_rating: BandwidthRating,
    pub timeout: u64,
    pub consecutive_failures: u32,
    pub active_requests: usize,
    pub short_term: BandwidthWindow,
    pub medium_term: BandwidthWindow,
    pub long_term: BandwidthWindow,
    pub samples: Seq<u64>,
}

impl View for PeerStats {
    type V = PeerStatsView;

    open spec fn view(&self) -> PeerStatsView {
        PeerStatsView {
            chunk_size: self.chunk_size,
            baseline_concurrency: self.baseline_concurrency,
            current_max_concurrency: self.current_max_concurrency,
            max_concurrency: self.max_concurrency,
            bandwidth_rating: self.bandwidth_rating,
            timeout: self.timeout,
            consecutive_failures: self.consecutive_failures,
            active_requests: self.active_requests,
            short_term: self.short_term_window,
            medium_term: self.medium_term_window,
            long_term: self.long_term_window,
            samples: self.completion_time_samples@,
        }
    }
}

/// A window after bytes were counted.
pub open spec fn with_bytes(w: BandwidthWindow, bytes: u64, now: u64) -> BandwidthWindow {
    if w.expired(now) {
        BandwidthWindow { bytes_transferred: bytes, window_start: now, ..w }
    } else {
        BandwidthWindow { bytes_transferred: (w.bytes_transferred + bytes) as u64, ..w }
    }
}

/// Whether the window has room for the bytes.
pub open spec fn has_room(w: BandwidthWindow, bytes: u64, now: u64) -> bool {
    w.expired(now) || w.bytes_transferred + bytes <= u64::MAX
}

/// The samples with another one; the oldest leaves where there are too many.
pub open spec fn with_sample(samples: Seq<u64>, sample: u64) -> Seq<u64> {
    if samples.len() < MAX_SAMPLES {
        samples.push(sample)
    } else {
        samples.skip(1).push(sample)
    }
}

/// How many requests run after one of them is over.
pub open spec fn one_less(active_requests: usize) -> usize {
    if active_requests > 0 {
        (active_requests - 1) as usize
    } else {
        0
    }
}

/// The statistics after the effect.
pub open spec fn with_effect(v: PeerStatsView, effect: PeerEffect, now: u64) -> PeerStatsView {
    match effect {
        PeerEffect::Started => PeerStatsView {
            active_requests: (v.active_requests + 1) as usize,
            ..v
        },
        PeerEffect::Completed { duration } => PeerStatsView {
            samples: with_sample(v.samples, duration),
            active_requests: one_less(v.active_requests),
            consecutive_failures: 0,
            short_term: with_bytes(v.short_term, v.chunk_size, now),
            medium_term: with_bytes(v.medium_term, v.chunk_size, now),
            long_term: with_bytes(v.long_term, v.chunk_size, now),
            ..v
        },
        PeerEffect::NotFound => PeerStatsView { active_requests: one_less(v.active_requests), ..v },
        PeerEffect::RequestFailure => PeerStatsView {
            active_requests: one_less(v.active_requests),
            consecutive_failures: (v.consecutive_failures + 1) as u32,
            ..v
        },
    }
}

/// Whether the statistics have room for the effect. Only a request that runs can be completed.
pub open spec fn effect_fits(v: PeerStatsView, effect: PeerEffect, now: u64) -> bool {
    match effect {
        PeerEffect::Started => v.active_requests < usize::MAX,
        PeerEffect::Completed { .. } => {
            &&& v.active_requests > 0
            &&& has_room(v.short_term, v.chunk_size, now)
            &&& has_room(v.medium_term, v.chunk_size, now)
            &&& has_room(v.long_term, v.chunk_size, now)
        },
        PeerEffect::NotFound => true,
        PeerEffect::RequestFailure => v.consecutive_failures < u32::MAX,
    }
}

/// However a request ends, the peer has as many requests running as before it was sent. A peer that
/// delivers is not blamed for what went before, one that fails is blamed once more, and a missing
/// chunk leaves the blame as it is.
pub proof fn law_every_request_is_settled_once(
    v: PeerStatsView,
    end: PeerEffect,
    started: u64,
    ended: u64,
)
    requires
        v.active_requests < usize::MAX,
        end != PeerEffect::Started,
        v.consecutive_failures < u32::MAX,
    ensures
        ({
            let after = with_effect(with_effect(v, PeerEffect::Started, started), end, ended);
            &&& after.active_requests == v.active_requests
            &&& after.consecutive_failures == match end {
                PeerEffect::Completed { .. } => 0,
                PeerEffect::RequestFailure => v.consecutive_failures + 1,
                _ => v.consecutive_failures as int,
            }
        }),
{
}

/// The sum of the samples.
pub open spec fn total(samples: Seq<u64>) -> nat
    decreases samples.len(),
{
    if samples.len() == 0 {
        0
    } else {
        total(samples.drop_last()) + samples.last() as nat
    }
}

/// The average completion time in whole milliseconds.
pub open spec fn average(samples: Seq<u64>) -> nat {
    if samples.len() == 0 {
        DEFAULT_COMPLETION_TIME as nat
    } else {
        total(samples) / samples.len()
    }
}

proof fn lemma_total_of_front(samples: Seq<u64>, n: int)
    requires
        0 <= n <= samples.len(),
    ensures
        total(samples.take(n)) <= total(samples),
    decreases samples.len(),
{
    if n < samples.len() {
        lemma_total_of_front(samples.drop_last(), n);
        assert(samples.drop_last().take(n) =~= samples.take(n));
    } else {
        assert(samples.take(n) =~= samples);
    }
}

impl PeerStats {
    /// No more samples are kept than there is room for.
    pub open spec fn wf(&self) -> bool {
        self@.samples.len() <= MAX_SAMPLES
    }

    /// The statistics of a peer of which nothing is known. `max_concurrency` is how many requests
    /// sustain the target rate.
    pub fn new(max_concurrency: u32, chunk_size: u64, timeout: u64, now: u64) -> (r: PeerStats)
        ensures
            r.wf(),
            r@ == ({
                let baseline: u32 = if max_concurrency / 2 > 1 {
                    max_concurrency / 2
                } else {
                    1
                };
                PeerStatsView {
                    chunk_size,
                    baseline_concurrency: baseline,
                    current_max_concurrency: baseline,
                    max_concurrency,
                    bandwidth_rating: BandwidthRating::Medium,
                    timeout,
                    consecutive_failures: 0,
                    active_requests: 0,
                    short_term: BandwidthWindow {
                        bytes_transferred: 0,
                        window_start: now,
                        window_duration: 10_000,
                    },
                    medium_term: BandwidthWindow {
                        bytes_transferred: 0,
                        window_start: now,
                        window_duration: 30_000,
                    },
                    long_term: BandwidthWindow {
                        bytes_transferred: 0,
                        window_start: now,
                        window_duration: 300_000,
                    },
                    samples: Seq::empty(),
                }
            }),
    {
        let half: u32 = max_concurrency / 2;
        let baseline_concurrency: u32 = if half > 1 {
            half
        } else {
            1
        };
        PeerStats {
            chunk_size,
            baseline_concurrency,
            current_max_concurrency: baseline_concurrency,
            max_concurrency,
            bandwidth_rating: BandwidthRating::Medium,
            timeout,
            consecutive_failures: 0,
            active_requests: 0,
            short_term_window: BandwidthWindow::new(10_000, now),
            medium_term_window: BandwidthWindow::new(30_000, now),
            long_term_window: BandwidthWindow::new(300_000, now),
            completion_time_samples: VecDeque::new(),
        }
    }

    /// Counts a request that was sent.
    pub fn record_request_started(&mut self)
        requires
            old(self).wf(),
            old(self).active_requests < usize::MAX,
        ensures
            final(self).wf(),
            final(self)@ == with_effect(old(self)@, PeerEffect::Started, 0),
    {
        self.active_requests = self.active_requests + 1;
    }

    /// Counts a request that was answered after `duration`.
    pub fn record_request_completed(&mut self, duration: u64, now: u64)
        requires
            old(self).wf(),
            effect_fits(old(self)@, PeerEffect::Completed { duration }, now),
        ensures
            final(self).wf(),
            final(self)@ == with_effect(old(self)@, PeerEffect::Completed { duration }, now),
    {
        let ghost samples = self.completion_time_samples@;
        if self.completion_time_samples.len() >= MAX_SAMPLES {
            let _ = self.completion_time_samples.pop_front();
            assert(self.completion_time_samples@ =~= samples.skip(1));
        }
        self.completion_time_samples.push_back(duration);
        assert(self.completion_time_samples@ =~= with_sample(samples, duration));
        self.active_requests = self.active_requests - 1;
        self.consecutive_failures = 0;
        self.short_term_window.add_bytes(self.chunk_size, now);
        self.medium_term_window.add_bytes(self.chunk_size, now);
        self.long_term_window.add_bytes(self.chunk_size, now);
    }

    /// Counts a request that failed.
    pub fn record_request_failed(&mut self)
        requires
            old(self).wf(),
            old(self).consecutive_failures < u32::MAX,
        ensures
            final(self).wf(),
            final(self)@ == with_effect(old(self)@, PeerEffect::RequestFailure, 0),
    {
        self.active_requests = self.active_requests.saturating_sub(1);
        self.consecutive_failures = self.consecutive_failures + 1;
    }

    /// Counts a request that ended with the peer lacking the chunk.
    pub fn record_request_not_found(&mut self)
        requires
            old(self).wf(),
        ensures
            final(self).wf(),
            final(self)@ == with_effect(old(self)@, PeerEffect::NotFound, 0),
    {
        self.active_requests = self.active_requests.saturating_sub(1);
    }

    /// Counts what an event of the scheduler means for the peer.
    pub fn apply(&mut self, effect: PeerEffect, now: u64)
        requires
            old(self).wf(),
            effect_fits(old(self)@, effect, now),
        ensures
            final(self).wf(),
            final(self)@ == with_effect(old(self)@, effect, now),
    {
        match effect {
            PeerEffect::Started => self.record_request_started(),
            PeerEffect::Completed { duration } => self.record_request_completed(duration, now),
            PeerEffect::NotFound => self.record_request_not_found(),
            PeerEffect::RequestFailure => self.record_request_failed(),
        }
    }

    /// The average completion time of the last chunks in whole milliseconds.
    pub fn average_completion_time(&self) -> (r: u64)
        requires
            self.wf(),
            total(self@.samples) <= u64::MAX,
        ensures
            r == average(self@.samples),
    {
        let ghost samples = self.completion_time_samples@;
        if self.completion_time_samples.len() == 0 {
            return DEFAULT_COMPLETION_TIME;
        }
        let mut sum: u64 = 0;
        let mut i: usize = 0;
        assert(samples.take(0) =~= Seq::empty());
        while i < self.completion_time_samples.len()
            invariant
                i <= samples.len(),
                samples == self.completion_time_samples@,
                sum == total(samples.take(i as int)),
                total(samples) <= u64::MAX,
            decreases samples.len() - i,
        {
            proof {
                assert(samples.take(i as int + 1).drop_last() =~= samples.take(i as int));
                lemma_total_of_front(samples, i as int + 1);
            }
            sum = sum + self.completion_time_samples[i];
            i += 1;
        }
        assert(samples.take(i as int) =~= samples);
        sum / self.completion_time_samples.len() as u64
    }

    /// The rate of the last ten seconds in bytes per second.
    pub fn short_term_bandwidth_bps(&self, now: u64) -> (r: u64)
        ensures
            r == self@.short_term.rate(now),
    {
        self.short_term_window.bytes_per_second(now)
    }

    /// The rate of the last half minute in bytes per second.
    pub fn medium_term_bandwidth_bps(&self, now: u64) -> (r: u64)
        ensures
            r == self@.medium_term.rate(now),
    {
        self.medium_term_window.bytes_per_second(now)
    }

    /// The rate of the last five minutes in bytes per second.
    pub fn long_term_bandwidth_bps(&self, now: u64) -> (r: u64)
        ensures
            r == self@.long_term.rate(now),
    {
        self.long_term_window.bytes_per_second(now)
    }

    /// Whether the throughput goes up: it is higher now than it was lately, and it was no lower
    /// lately than over a longer time.
    pub fn is_throughput_improving(&self, now: u64) -> (r: bool)
        ensures
            r == (self@.short_term.rate(now) > self@.medium_term.rate(now)
                && self@.medium_term.rate(now) >= self@.long_term.rate(now)),
    {
        let short: u64 = self.short_term_bandwidth_bps(now);
        let medium: u64 = self.medium_term_bandwidth_bps(now);
        let long: u64 = self.long_term_bandwidth_bps(now);
        short > medium && medium >= long && short > 0
    }
}

/// Counts what an event of the scheduler means for a peer, if the peer is known.
pub fn apply_effect(
    peers: &mut OrderedMap<IrysAddress, PeerStats>,
    peer: IrysAddress,
    effect: PeerEffect,
    now: u64,
)
    requires
        old(peers).wf(),
        old(peers)@.contains_key(peer) ==> old(peers)@[peer].wf() && effect_fits(
            old(peers)@[peer]@,
            effect,
            now,
        ),
    ensures
        final(peers).wf(),
        final(peers)@.dom() == old(peers)@.dom(),
        forall|a: IrysAddress| #[trigger]
            old(peers)@.contains_key(a) && a != peer ==> final(peers)@[a] == old(peers)@[a],
        old(peers)@.contains_key(peer) ==> final(peers)@[peer].wf() && final(peers)@[peer]@
            == with_effect(old(peers)@[peer]@, effect, now),
{
    if let Some(i) = peers.find(&peer) {
        let ghost before = peers.entries@;
        proof {
            lemma_entry(before, i as int);
        }
        peers.entries[i].1.apply(effect, now);
        proof {
            let after = peers.entries@;
            assert(after =~= before.update(i as int, (before[i as int].0, after[i as int].1)));
            lemma_replace(before, i as int, after[i as int].1);
            assert(peers@.dom() =~= old(peers)@.dom());
        }
    }
}

/// The time that has gone by is the difference of the two, and none where the clock went back.
pub proof fn law_time_goes_forward(now: u64, start: u64)
    ensures
        start <= now ==> elapsed(now, start) + start == now,
        now <= start ==> elapsed(now, start) == 0,
{
}

/// A window counts what came since it began; once more time has gone by than it lasts, it begins
/// anew with what comes.
pub proof fn law_window_begins_anew_once_it_is_over(w: BandwidthWindow, bytes: u64, now: u64)
    requires
        w.window_start <= now,
        w.bytes_transferred + bytes <= u64::MAX,
    ensures
        ({
            let after = with_bytes(w, bytes, now);
            &&& after.window_duration == w.window_duration
            &&& now - w.window_start > w.window_duration ==> after.bytes_transferred == bytes
                && after.window_start == now
            &&& now - w.window_start <= w.window_duration ==> after.bytes_transferred
                == w.bytes_transferred + bytes && after.window_start == w.window_start
            &&& has_room(w, bytes, now)
        }),
{
}

/// The rate of a window is what it counted over the whole seconds since it began, and nothing in
/// its first second.
pub proof fn law_rate_is_per_whole_second(w: BandwidthWindow, now: u64, seconds: u64)
    requires
        w.window_start + seconds * 1000 <= now,
        now < w.window_start + (seconds + 1) * 1000,
    ensures
        seconds == 0 ==> w.rate(now) == 0,
        seconds > 0 ==> w.rate(now) == w.bytes_transferred as nat / seconds as nat,
{
    assert(elapsed(now, w.window_start) / 1000 == seconds);
}

/// The newest completion time is kept, and of the others the newest forty-nine; a list that is not
/// full keeps all.
pub proof fn law_newest_samples_are_kept(samples: Seq<u64>, sample: u64, i: int)
    requires
        samples.len() <= 50,
    ensures
        ({
            let after = with_sample(samples, sample);
            &&& after.len() <= 50
            &&& after.last() == sample
            &&& samples.len() < 50 ==> after.len() == samples.len() + 1 && (0 <= i < samples.len()
                ==> after[i] == samples[i])
            &&& samples.len() == 50 && 0 < i < 50 ==> after[i - 1] == samples[i]
        }),
{
}

/// A request that starts runs; one that ends does not run any more. A delivery counts the chunk in
/// every window, keeps how long it took and ends a row of failures; a failure makes the row one
/// longer; a peer that lacks a chunk is not at fault.
pub proof fn law_effects_are_accounted_for(v: PeerStatsView, duration: u64, now: u64)
    requires
        0 < v.active_requests < usize::MAX,
        v.consecutive_failures < u32::MAX,
    ensures
        ({
            let started = with_effect(v, PeerEffect::Started, now);
            let done = with_effect(v, PeerEffect::Completed { duration }, now);
            let lacking = with_effect(v, PeerEffect::NotFound, now);
            let failed = with_effect(v, PeerEffect::RequestFailure, now);
            &&& started == (PeerStatsView { active_requests: started.active_requests, ..v })
            &&& started.active_requests == v.active_requests + 1
            &&& done.active_requests == v.active_requests - 1
            &&& done.consecutive_failures == 0
            &&& done.samples.last() == duration
            &&& done.short_term == with_bytes(v.short_term, v.chunk_size, now)
            &&& done.medium_term == with_bytes(v.medium_term, v.chunk_size, now)
            &&& done.long_term == with_bytes(v.long_term, v.chunk_size, now)
            &&& done.current_max_concurrency == v.current_max_concurrency
            &&& lacking == (PeerStatsView { active_requests: lacking.active_requests, ..v })
            &&& lacking.active_requests == v.active_requests - 1
            &&& failed == (PeerStatsView {
                active_requests: lacking.active_requests,
                consecutive_failures: failed.consecutive_failures,
                ..v
            })
            &&& failed.consecutive_failures == v.consecutive_failures + 1
        }),
{
}

/// The average of the completion times is their sum over their number, a tenth of a second where
/// there are none, and so never above the longest or below the shortest.
pub proof fn law_average_lies_between_the_samples(samples: Seq<u64>, low: u64, high: u64)
    requires
        forall|i: int| 0 <= i < samples.len() ==> low <= #[trigger] samples[i] <= high,
    ensures
        samples.len() == 0 ==> average(samples) == 100,
        samples.len() > 0 ==> low <= average(samples) <= high,
        total(Seq::empty()) == 0,
        total(samples.push(high)) == total(samples) + high,
{
    assert(samples.push(high).drop_last() =~= samples);
    lemma_total_bounds(samples, low, high);
    if samples.len() > 0 {
        let t = total(samples) as int;
        let n = samples.len() as int;
        assert(low <= t / n <= high) by (nonlinear_arith)
            requires
                low * n <= t <= high * n,
                n > 0,
        ;
    }
}

proof fn lemma_total_bounds(samples: Seq<u64>, low: u64, high: u64)
    requires
        forall|i: int| 0 <= i < samples.len() ==> low <= #[trigger] samples[i] <= high,
    ensures
        low * samples.len() <= total(samples) <= high * samples.len(),
    decreases samples.len(),
{
    if samples.len() > 0 {
        let rest = samples.drop_last();
        assert forall|i: int| 0 <= i < rest.len() implies low <= #[trigger] rest[i] <= high by {
            assert(rest[i] == samples[i]);
        }
        lemma_total_bounds(rest, low, high);
        assert(low <= samples[samples.len() - 1] <= high);
        let n = rest.len() as int;
        assert(low * (n + 1) == low * n + low && high * (n + 1) == high * n + high)
            by (nonlinear_arith);
    }
}

/// A missing chunk can always be recorded, the start and the failure of a request as long as they
/// can be counted, and a delivery where one was running and its bytes can be counted.
pub proof fn law_what_can_be_counted_can_be_recorded(v: PeerStatsView, duration: u64, now: u64)
    ensures
        effect_fits(v, PeerEffect::NotFound, now),
        effect_fits(v, PeerEffect::Started, now) <==> v.active_requests < usize::MAX,
        effect_fits(v, PeerEffect::RequestFailure, now) <==> v.consecutive_failures < u32::MAX,
        v.active_requests > 0 && v.short_term.bytes_transferred + v.chunk_size <= u64::MAX
            && v.medium_term.bytes_transferred + v.chunk_size <= u64::MAX
            && v.long_term.bytes_transferred + v.chunk_size <= u64::MAX ==> effect_fits(
            v,
            PeerEffect::Completed { duration },
            now,
        ),
        v.active_requests == 0 ==> !effect_fits(v, PeerEffect::Completed { duration }, now),
        effect_fits(v, PeerEffect::Completed { duration }, now) ==> {
            &&& v.short_term.expired(now) || v.short_term.bytes_transferred + v.chunk_size
                <= u64::MAX
            &&& v.medium_term.expired(now) || v.medium_term.bytes_transferred + v.chunk_size
                <= u64::MAX
            &&& v.long_term.expired(now) || v.long_term.bytes_transferred + v.chunk_size
                <= u64::MAX
        },
{
}

} // verus!
