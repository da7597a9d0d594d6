//! Backoff of offsets that no peer could deliver.

use crate::data_sync::chunk_orchestrator::{
    kind_of, offsets_of_kind, ChunkOrchestrator, ChunkRequest, ChunkRequestState, OrchestratorView,
    RequestView, StateKind,
};
use crate::ordered_map::{
    keys_where, lemma_entry, lemma_keys_where_all, lemma_keys_where_finite, lemma_position,
    lemma_replace,
};
use vstd::arithmetic::power2::pow2;
use vstd::prelude::*;

verus! {

/// The first backoff, in milliseconds.
pub const RETRY_BACKOFF_INITIAL: u64 = 1_000;

/// The longest backoff, in milliseconds.
pub const RETRY_BACKOFF_MAX: u64 = 60_000;

/// The factor that spreads neighbouring offsets over the jitter window.
pub const JITTER_FACTOR: u64 = 0x9e37_79b9;

/// The backoff without jitter: doubled after each exhausted peer cycle, and capped.
pub open spec fn backoff_base(retry_round: u32) -> nat {
    let exponent: nat = if retry_round == 0 {
        0
    } else if retry_round <= 7 {
        (retry_round - 1) as nat
    } else {
        6
    };
    let doubled = RETRY_BACKOFF_INITIAL as nat * pow2(exponent);
    if doubled <= RETRY_BACKOFF_MAX {
        doubled
    } else {
        RETRY_BACKOFF_MAX as nat
    }
}

/// The backoff of an offset: a quarter of the base is spread by the offset, within the cap.
pub open spec fn backoff(chunk_offset: u32, retry_round: u32) -> nat {
    let base = backoff_base(retry_round);
    let jitter = (chunk_offset as nat * JITTER_FACTOR as nat) % (base / 4 + 1);
    if base + jitter <= RETRY_BACKOFF_MAX {
        base + jitter
    } else {
        RETRY_BACKOFF_MAX as nat
    }
}

proof fn lemma_small_powers()
    ensures
        pow2(0) == 1,
        pow2(1) == 2,
        pow2(2) == 4,
        pow2(3) == 8,
        pow2(4) == 16,
        pow2(5) == 32,
        pow2(6) == 64,
{
    vstd::arithmetic::power2::lemma2_to64();
}

/// How long an offset is left alone after `retry_round` exhausted peer cycles, in milliseconds.
pub fn retry_delay(chunk_offset: u32, retry_round: u32) -> (r: u64)
    ensures
        r == backoff(chunk_offset, retry_round),
{
    let base: u64 = if retry_round <= 1 {
        1_000
    } else if retry_round == 2 {
        2_000
    } else if retry_round == 3 {
        4_000
    } else if retry_round == 4 {
        8_000
    } else if retry_round == 5 {
        16_000
    } else if retry_round == 6 {
        32_000
    } else {
        60_000
    };
    proof {
        lemma_small_powers();
        assert(chunk_offset as nat * JITTER_FACTOR as nat <= 0xffff_ffffnat * 0x9e37_79b9nat)
            by (nonlinear_arith)
            requires
                chunk_offset <= 0xffff_ffff,
                JITTER_FACTOR == 0x9e37_79b9,
        ;
    }
    assert(base == backoff_base(retry_round));
    let jitter: u64 = (chunk_offset as u64 * JITTER_FACTOR) % (base / 4 + 1);
    if base + jitter <= RETRY_BACKOFF_MAX {
        base + jitter
    } else {
        RETRY_BACKOFF_MAX
    }
}

/// The backoff lies between its base and the cap, adds at most a quarter, and never shrinks from
/// one round to the next.
pub proof fn law_backoff_is_exponential_and_capped(chunk_offset: u32, retry_round: u32)
    ensures
        RETRY_BACKOFF_INITIAL <= backoff_base(retry_round) <= backoff(chunk_offset, retry_round),
        backoff(chunk_offset, retry_round) <= RETRY_BACKOFF_MAX,
        backoff(chunk_offset, retry_round) <= backoff_base(retry_round) + backoff_base(retry_round)
            / 4,
        retry_round < u32::MAX ==> backoff(chunk_offset, retry_round) <= backoff(
            chunk_offset,
            (retry_round + 1) as u32,
        ),
        retry_round >= 7 ==> backoff(chunk_offset, retry_round) == RETRY_BACKOFF_MAX,
        1 <= retry_round <= 5 ==> backoff_base((retry_round + 1) as u32) == 2 * backoff_base(
            retry_round,
        ),
{
    lemma_small_powers();
    lemma_jitter_bound(chunk_offset, retry_round);
    if retry_round < u32::MAX {
        lemma_jitter_bound(chunk_offset, (retry_round + 1) as u32);
    }
}

proof fn lemma_jitter_bound(chunk_offset: u32, retry_round: u32)
    ensures
        0 <= (chunk_offset as nat * JITTER_FACTOR as nat) % (backoff_base(retry_round) / 4 + 1)
            <= backoff_base(retry_round) / 4,
{
    let m = (backoff_base(retry_round) / 4 + 1) as int;
    let x = (chunk_offset as nat * JITTER_FACTOR as nat) as int;
    vstd::arithmetic::div_mod::lemma_mod_bound(x, m);
}

/// The retry deadline of a delayed request.
pub open spec fn deadline(r: RequestView) -> u64 {
    match r.state {
        ChunkRequestState::Delayed { retry_at } => retry_at,
        _ => 0,
    }
}

/// `o` is the delayed offset with the soonest deadline, the lowest of them.
pub open spec fn is_soonest(requests: Map<u32, RequestView>, o: u32) -> bool {
    &&& offsets_of_kind(requests, StateKind::Delayed).contains(o)
    &&& forall|p: u32| #[trigger]
        offsets_of_kind(requests, StateKind::Delayed).contains(p) ==> deadline(requests[o])
            < deadline(requests[p]) || (deadline(requests[o]) == deadline(requests[p]) && o <= p)
}

/// The delayed offset with the soonest deadline.
pub open spec fn soonest(requests: Map<u32, RequestView>) -> u32 {
    choose|o: u32| is_soonest(requests, o)
}

/// The requests without the `n` delayed ones whose deadlines are soonest.
pub open spec fn without_soonest(requests: Map<u32, RequestView>, n: nat) -> Map<u32, RequestView>
    decreases n,
{
    if n == 0 {
        requests
    } else {
        without_soonest(requests.remove(soonest(requests)), (n - 1) as nat)
    }
}

/// How many delayed requests are kept.
pub open spec fn delayed_limit(budget: usize) -> nat {
    if budget == 0 {
        1
    } else {
        budget as nat
    }
}

/// The requests after those above the limit of delayed ones are discarded, soonest first.
pub open spec fn trimmed(requests: Map<u32, RequestView>, budget: usize) -> Map<u32, RequestView> {
    let delayed = offsets_of_kind(requests, StateKind::Delayed).len();
    without_soonest(
        requests,
        if delayed <= delayed_limit(budget) {
            0
        } else {
            (delayed - delayed_limit(budget)) as nat
        },
    )
}

/// A request after a peer cycle is exhausted at `now`.
pub open spec fn delayed_request(chunk_offset: u32, r: RequestView, now: u64) -> RequestView {
    let round = if r.retry_round == u32::MAX {
        u32::MAX
    } else {
        (r.retry_round + 1) as u32
    };
    RequestView {
        retry_round: round,
        state: ChunkRequestState::Delayed { retry_at: (now + backoff(chunk_offset, round)) as u64 },
        ..r
    }
}

/// The scheduler after `chunk_offset` is delayed at `now`.
pub open spec fn after_delay(v: OrchestratorView, chunk_offset: u32, now: u64) -> OrchestratorView {
    if v.requests.contains_key(chunk_offset) {
        OrchestratorView {
            requests: trimmed(
                v.requests.insert(
                    chunk_offset,
                    delayed_request(chunk_offset, v.requests[chunk_offset], now),
                ),
                v.budget,
            ),
            ..v
        }
    } else {
        v
    }
}

/// No two offsets are both the soonest.
pub proof fn lemma_soonest_is(requests: Map<u32, RequestView>, o: u32)
    requires
        is_soonest(requests, o),
    ensures
        soonest(requests) == o,
{
    let p = soonest(requests);
    assert(is_soonest(requests, p));
}

impl ChunkOrchestrator {
    /// The delayed offset with the soonest deadline.
    fn find_soonest(&self) -> (r: Option<u32>)
        requires
            self.wf(),
        ensures
            match r {
                Some(o) => is_soonest(self@.requests, o),
                None => offsets_of_kind(self@.requests, StateKind::Delayed) =~= Set::<u32>::empty(),
            },
    {
        let ghost entries = self.chunk_requests.entries@;
        let mut best: Option<(u64, u32)> = None;
        let mut i: usize = 0;
        while i < self.chunk_requests.entries.len()
            invariant
                i <= entries.len(),
                self.wf(),
                entries == self.chunk_requests.entries@,
                match best {
                    Some((at, o)) => exists|j: int|
                        0 <= j < i && (#[trigger] entries[j]).0 == o && entries[j].1.request_state
                            == (ChunkRequestState::Delayed { retry_at: at }),
                    None => true,
                },
                forall|j: int|
                    0 <= j < i && kind_of((#[trigger] entries[j]).1.request_state)
                        == StateKind::Delayed ==> best is Some && (best->Some_0.0 < deadline(
                        entries[j].1@,
                    ) || (best->Some_0.0 == deadline(entries[j].1@) && best->Some_0.1
                        <= entries[j].0)),
            decreases entries.len() - i,
        {
            let offset = self.chunk_requests.entries[i].0;
            if let ChunkRequestState::Delayed { retry_at } =
                self.chunk_requests.entries[i].1.request_state {
                let sooner = match best {
                    Some((at, _)) => retry_at < at,
                    None => true,
                };
                proof {
                    if best is Some {
                        let at = best->Some_0.0;
                        let o = best->Some_0.1;
                        let j = choose|j: int|
                            0 <= j < i && (#[trigger] entries[j]).0 == o
                                && entries[j].1.request_state == (ChunkRequestState::Delayed {
                                retry_at: at,
                            });
                        assert(entries[j].0 < entries[i as int].0);
                    }
                }
                if sooner {
                    best = Some((retry_at, offset));
                    assert(entries[i as int].0 == offset);
                }
            }
            i += 1;
        }
        proof {
            let delayed = offsets_of_kind(self@.requests, StateKind::Delayed);
            assert forall|p: u32| #[trigger] delayed.contains(p) implies best is Some && (
            best->Some_0.0 < deadline(self@.requests[p]) || (best->Some_0.0 == deadline(
                self@.requests[p],
            ) && best->Some_0.1 <= p)) by {
                let j = lemma_position(entries, p);
                assert(kind_of(entries[j].1.request_state) == StateKind::Delayed);
            }
            if best is Some {
                let at = best->Some_0.0;
                let o = best->Some_0.1;
                let j = choose|j: int|
                    0 <= j < entries.len() && (#[trigger] entries[j]).0 == o
                        && entries[j].1.request_state == (ChunkRequestState::Delayed {
                        retry_at: at,
                    });
                lemma_entry(entries, j);
                assert(is_soonest(self@.requests, o));
            }
        }
        match best {
            Some((_, o)) => Some(o),
            None => None,
        }
    }

    /// Discards delayed requests above the limit, those with the soonest deadlines first.
    pub fn trim_delayed_requests(&mut self)
        requires
            old(self).wf(),
        ensures
            final(self).wf(),
            final(self)@ == (OrchestratorView {
                requests: trimmed(old(self)@.requests, old(self)@.budget),
                ..old(self)@
            }),
    {
        let ghost v = self@;
        let limit: usize = if self.max_pending_chunk_requests == 0 {
            1
        } else {
            self.max_pending_chunk_requests
        };
        let mut delayed_count: usize = self.count_kind(StateKind::Delayed);
        let ghost goal = trimmed(v.requests, v.budget);
        while delayed_count > limit
            invariant
                self.wf(),
                limit == delayed_limit(v.budget),
                delayed_count == offsets_of_kind(self@.requests, StateKind::Delayed).len(),
                goal == without_soonest(
                    self@.requests,
                    if delayed_count <= limit {
                        0
                    } else {
                        (delayed_count - limit) as nat
                    },
                ),
                goal == trimmed(v.requests, v.budget),
                self@ == (OrchestratorView { requests: self@.requests, ..v }),
            decreases delayed_count,
        {
            let ghost before = self@.requests;
            let ghost delayed = offsets_of_kind(before, StateKind::Delayed);
            match self.find_soonest() {
                Some(offset) => {
                    proof {
                        lemma_soonest_is(before, offset);
                        let p = |o: u32, r: ChunkRequest|
                            kind_of(r.request_state) == StateKind::Delayed;
                        let entries = self.chunk_requests.entries@;
                        lemma_keys_where_all(entries, p);
                        lemma_keys_where_finite(entries, entries.len() as int, p);
                        assert(keys_where(entries, entries.len() as int, p) =~= delayed);
                    }
                    let _ = self.chunk_requests.remove(&offset);
                    proof {
                        assert(self@.requests =~= before.remove(offset));
                        assert(offsets_of_kind(self@.requests, StateKind::Delayed)
                            =~= delayed.remove(offset));
                    }
                    delayed_count = delayed_count - 1;
                },
                None => {
                    assert(delayed.len() == 0);
                },
            }
        }
    }

    /// Delays an offset whose every eligible peer has failed.
    pub fn delay_request(&mut self, chunk_offset: u32, now: u64)
        requires
            old(self).wf(),
            now + RETRY_BACKOFF_MAX <= u64::MAX,
        ensures
            final(self).wf(),
            final(self)@ == after_delay(old(self)@, chunk_offset, now),
    {
        let ghost v = self@;
        let i: usize = match self.chunk_requests.find(&chunk_offset) {
            Some(i) => i,
            None => {
                return;
            },
        };
        let ghost before = self.chunk_requests.entries@;
        let round: u32 = self.chunk_requests.entries[i].1.retry_round.saturating_add(1);
        let delay: u64 = retry_delay(chunk_offset, round);
        self.chunk_requests.entries[i].1.retry_round = round;
        self.chunk_requests.entries[i].1.request_state = ChunkRequestState::Delayed {
            retry_at: now + delay,
        };
        proof {
            let after = self.chunk_requests.entries@;
            assert(after =~= before.update(i as int, (before[i as int].0, after[i as int].1)));
            lemma_replace(before, i as int, after[i as int].1);
            lemma_entry(before, i as int);
            assert(self@.requests =~= v.requests.insert(
                chunk_offset,
                delayed_request(chunk_offset, v.requests[chunk_offset], now),
            ));
        }
        self.trim_delayed_requests();
    }
}

/// The wait doubles from one second up to thirty-two, and is a minute from then on; it is stretched
/// by a quarter at most, and never beyond the minute.
pub proof fn law_wait_doubles_up_to_a_minute(chunk_offset: u32, retry_round: u32)
    ensures
        backoff_base(1) == 1_000,
        backoff_base(2) == 2_000,
        backoff_base(3) == 4_000,
        backoff_base(4) == 8_000,
        backoff_base(5) == 16_000,
        backoff_base(6) == 32_000,
        retry_round >= 7 ==> backoff_base(retry_round) == 60_000,
        1_000 <= backoff(chunk_offset, retry_round) <= 60_000,
        backoff(chunk_offset, 1) <= 1_250,
        backoff(chunk_offset, 6) <= 40_000,
{
    lemma_small_powers();
    law_backoff_is_exponential_and_capped(chunk_offset, retry_round);
    law_backoff_is_exponential_and_capped(chunk_offset, 1);
    law_backoff_is_exponential_and_capped(chunk_offset, 6);
}

/// A request that is delayed waits as long as its next round says, and keeps what it knows of peers.
pub proof fn law_delayed_request_waits_its_round(chunk_offset: u32, r: RequestView, now: u64)
    requires
        now + 60_000 <= u64::MAX,
        r.retry_round < u32::MAX,
    ensures
        ({
            let d = delayed_request(chunk_offset, r, now);
            &&& d.retry_round == r.retry_round + 1
            &&& d.state matches ChunkRequestState::Delayed { retry_at } && retry_at == now
                + backoff(chunk_offset, (r.retry_round + 1) as u32)
            &&& deadline(d) == now + backoff(chunk_offset, (r.retry_round + 1) as u32)
            &&& d.excluded == r.excluded
            &&& d.attempt_count == r.attempt_count
            &&& d.ready_since == r.ready_since
        }),
{
    law_backoff_is_exponential_and_capped(chunk_offset, (r.retry_round + 1) as u32);
}

/// As many delayed requests are kept as the budget has places, and at least one.
pub proof fn law_delayed_requests_are_as_many_as_the_budget(budget: usize)
    ensures
        budget > 0 ==> delayed_limit(budget) == budget,
        delayed_limit(0) == 1,
{
}

/// The soonest of the delayed requests has the earliest deadline, and the lowest offset of those
/// that share it.
pub proof fn law_soonest_has_the_earliest_deadline(
    requests: Map<u32, RequestView>,
    o: u32,
    p: u32,
    first: u64,
    later: u64,
)
    requires
        is_soonest(requests, o),
        requests[o].state == (ChunkRequestState::Delayed { retry_at: first }),
        requests.contains_key(p),
        requests[p].state == (ChunkRequestState::Delayed { retry_at: later }),
    ensures
        requests.contains_key(o),
        first <= later,
        first == later ==> o <= p,
{
    assert(offsets_of_kind(requests, StateKind::Delayed).contains(p));
}

} // verus!
