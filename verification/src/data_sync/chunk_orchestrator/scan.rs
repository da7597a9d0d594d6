//! Discovery of Entropy and the periodic refresh of the scheduler.

use crate::data_sync::chunk_orchestrator::{
    after_drop_settled, after_enqueue, after_rearm, after_reconcile, hot_count, intervals_contain,
    ChunkInterval, ChunkOrchestrator, OrchestratorView, StateKind, StorageSnapshot,
    DURABILITY_WAIT_TIMEOUT,
};
use crate::primitives::DataLedger;
use vstd::prelude::*;

verus! {

/// A scan for Entropy in progress.
#[verifier::ext_equal]
pub ghost struct ScanView {
    pub scheduler: OrchestratorView,
    pub probes: nat,
    pub to_add: nat,
    pub stopped: bool,
}

/// Where a scan goes on after it has looked at `offset`.
pub open spec fn cursor_after(offset: u32, max_offset: u32, reverse: bool) -> u32 {
    if reverse {
        if offset == 0 {
            u32::MAX
        } else {
            (offset - 1) as u32
        }
    } else if offset == max_offset || offset == u32::MAX {
        if offset == max_offset {
            0
        } else {
            u32::MAX
        }
    } else {
        (offset + 1) as u32
    }
}

/// A scan after it has looked at one more offset.
pub open spec fn scan_step(
    s: ScanView,
    offset: u32,
    max_offset: u32,
    reverse: bool,
    now: u64,
    max_probes: nat,
) -> ScanView {
    if s.stopped {
        s
    } else {
        let moved = OrchestratorView {
            scan_cursor: cursor_after(offset, max_offset, reverse),
            ..s.scheduler
        };
        let added = !s.scheduler.requests.contains_key(offset);
        let to_add = if added && s.to_add > 0 {
            (s.to_add - 1) as nat
        } else {
            s.to_add
        };
        ScanView {
            scheduler: after_enqueue(moved, offset, now, false),
            probes: s.probes + 1,
            to_add,
            stopped: (added && to_add == 0) || s.probes + 1 >= max_probes,
        }
    }
}

/// A scan after it has looked at the offsets of `order` in turn.
pub open spec fn scan_all(
    s: ScanView,
    order: Seq<u32>,
    max_offset: u32,
    reverse: bool,
    now: u64,
    max_probes: nat,
) -> ScanView
    decreases order.len(),
{
    if order.len() == 0 {
        s
    } else {
        scan_step(
            scan_all(s, order.drop_last(), max_offset, reverse, now, max_probes),
            order.last(),
            max_offset,
            reverse,
            now,
            max_probes,
        )
    }
}

/// The offsets from `start` to `end`, both included.
pub open spec fn offsets_up(start: u32, end: u32) -> Seq<u32> {
    if start <= end {
        Seq::new((end - start + 1) as nat, |i: int| (start + i) as u32)
    } else {
        Seq::empty()
    }
}

/// The offsets from `end` down to `start`, both included.
pub open spec fn offsets_down(start: u32, end: u32) -> Seq<u32> {
    if start <= end {
        Seq::new((end - start + 1) as nat, |i: int| (end - i) as u32)
    } else {
        Seq::empty()
    }
}

pub open spec fn max_u32(a: u32, b: u32) -> u32 {
    if a < b {
        b
    } else {
        a
    }
}

pub open spec fn min_u32(a: u32, b: u32) -> u32 {
    if b < a {
        b
    } else {
        a
    }
}

/// The offsets of `intervals` between `low` and `high` from the first interval to the last, each
/// interval upwards.
pub open spec fn walk_up(intervals: Seq<ChunkInterval>, low: u32, high: u32) -> Seq<u32>
    decreases intervals.len(),
{
    if intervals.len() == 0 || low > high {
        Seq::empty()
    } else {
        walk_up(intervals.drop_last(), low, high) + offsets_up(
            max_u32(intervals.last().start, low),
            min_u32(intervals.last().end, high),
        )
    }
}

/// The offsets of `intervals` between `low` and `high` from the last interval to the first, each
/// interval downwards.
pub open spec fn walk_down(intervals: Seq<ChunkInterval>, low: u32, high: u32) -> Seq<u32>
    decreases intervals.len(),
{
    if intervals.len() == 0 || low > high {
        Seq::empty()
    } else {
        walk_down(intervals.drop_first(), low, high) + offsets_down(
            max_u32(intervals.first().start, low),
            min_u32(intervals.first().end, high),
        )
    }
}

/// The order in which a scan visits Entropy. Upwards from the cursor and then from zero to the
/// cursor, or downwards from the cursor and then from the highest offset to the cursor.
pub open spec fn visit_order(
    intervals: Seq<ChunkInterval>,
    cursor: u32,
    max_offset: u32,
    reverse: bool,
) -> Seq<u32> {
    let c = min_u32(cursor, max_offset);
    if reverse {
        if c == max_offset {
            walk_down(intervals, 0, max_offset)
        } else {
            walk_down(intervals, 0, c) + walk_down(intervals, (c + 1) as u32, max_offset)
        }
    } else {
        walk_up(intervals, c, max_offset) + walk_up(
            intervals,
            0,
            if c == 0 {
                0
            } else {
                (c - 1) as u32
            },
        )
    }
}

/// A scan that has stopped looks at nothing more.
proof fn lemma_scan_stopped(
    s: ScanView,
    order: Seq<u32>,
    max_offset: u32,
    reverse: bool,
    now: u64,
    max_probes: nat,
)
    requires
        s.stopped,
    ensures
        scan_all(s, order, max_offset, reverse, now, max_probes) == s,
    decreases order.len(),
{
    if order.len() > 0 {
        lemma_scan_stopped(s, order.drop_last(), max_offset, reverse, now, max_probes);
    }
}

/// Scanning one list and then another is scanning both.
proof fn lemma_scan_concat(
    s: ScanView,
    a: Seq<u32>,
    b: Seq<u32>,
    max_offset: u32,
    reverse: bool,
    now: u64,
    max_probes: nat,
)
    ensures
        scan_all(s, a + b, max_offset, reverse, now, max_probes) == scan_all(
            scan_all(s, a, max_offset, reverse, now, max_probes),
            b,
            max_offset,
            reverse,
            now,
            max_probes,
        ),
    decreases b.len(),
{
    if b.len() == 0 {
        assert(a + b =~= a);
    } else {
        lemma_scan_concat(s, a, b.drop_last(), max_offset, reverse, now, max_probes);
        assert((a + b).drop_last() =~= a + b.drop_last());
        assert((a + b).last() == b.last());
    }
}

/// The offsets of one interval in the direction of the scan.
pub open spec fn offsets_between(start: u32, end: u32, reverse: bool) -> Seq<u32> {
    if reverse {
        offsets_down(start, end)
    } else {
        offsets_up(start, end)
    }
}

/// The offsets of the intervals within bounds in the direction of the scan.
pub open spec fn walk(
    intervals: Seq<ChunkInterval>,
    low: u32,
    high: u32,
    reverse: bool,
) -> Seq<u32> {
    if reverse {
        walk_down(intervals, low, high)
    } else {
        walk_up(intervals, low, high)
    }
}

/// Whether a ledger's newest data comes first. Submit and the term ledgers are a small write head
/// on a packed tail; Publish is filled from the start of the slot.
pub open spec fn write_frontier_first(ledger: Option<DataLedger>) -> bool {
    match ledger {
        Some(DataLedger::Submit) => true,
        Some(DataLedger::OneYear) => true,
        Some(DataLedger::ThirtyDay) => true,
        _ => false,
    }
}

/// How many offsets one scan may look at.
pub open spec fn probe_limit(budget: usize) -> nat {
    if budget * 4 <= usize::MAX {
        (budget * 4) as nat
    } else {
        usize::MAX as nat
    }
}

/// How much of the hot-work budget is free.
pub open spec fn free_budget(v: OrchestratorView) -> nat {
    if hot_count(v.requests) <= v.budget {
        (v.budget - hot_count(v.requests)) as nat
    } else {
        0
    }
}

/// The scheduler after the write head of a ledger whose newest data comes first is put at the
/// front of the queue.
pub open spec fn after_frontier(
    v: OrchestratorView,
    storage: StorageSnapshot,
    max_offset: u32,
    now: u64,
) -> OrchestratorView {
    if free_budget(v) > 0 && write_frontier_first(v.ledger) && storage.entropy_at(max_offset) {
        after_enqueue(v, max_offset, now, true)
    } else {
        v
    }
}

/// What is left of the free budget of `before` when the scheduler has become `v`.
pub open spec fn left_after_frontier(before: OrchestratorView, v: OrchestratorView) -> nat {
    if v.requests == before.requests {
        free_budget(before)
    } else {
        (free_budget(before) - 1) as nat
    }
}

/// The scheduler after new Entropy up to `max_offset` has been discovered within the budget.
pub open spec fn after_discovery(
    v: OrchestratorView,
    storage: StorageSnapshot,
    max_offset: u32,
    now: u64,
) -> OrchestratorView {
    let front = after_frontier(v, storage, max_offset, now);
    let to_add = left_after_frontier(v, front);
    if to_add == 0 {
        front
    } else {
        let reverse = write_frontier_first(v.ledger);
        let begun = if reverse {
            front
        } else {
            OrchestratorView { scan_cursor: min_u32(v.scan_cursor, max_offset), ..front }
        };
        scan_all(
            ScanView { scheduler: begun, probes: 0, to_add, stopped: false },
            visit_order(storage.entropy_intervals@, v.scan_cursor, max_offset, reverse),
            max_offset,
            reverse,
            now,
            probe_limit(v.budget),
        ).scheduler
    }
}

/// The scheduler after one refresh at `now`.
pub open spec fn after_populate(
    v: OrchestratorView,
    storage: StorageSnapshot,
    max_offset: Option<u32>,
    now: u64,
) -> OrchestratorView {
    let settled = after_rearm(
        after_drop_settled(after_reconcile(v, storage, now, DURABILITY_WAIT_TIMEOUT), storage),
        now,
    );
    match max_offset {
        None => settled,
        Some(max) => after_discovery(settled, storage, max, now),
    }
}

/// What has been visited after `j` intervals.
spec fn visited(
    intervals: Seq<ChunkInterval>,
    j: int,
    low: u32,
    high: u32,
    reverse: bool,
) -> Seq<u32> {
    if reverse {
        walk_down(intervals.skip(intervals.len() - j), low, high)
    } else {
        walk_up(intervals.take(j), low, high)
    }
}

proof fn lemma_visited_step(
    intervals: Seq<ChunkInterval>,
    j: int,
    low: u32,
    high: u32,
    reverse: bool,
)
    requires
        0 <= j < intervals.len(),
        low <= high,
    ensures
        visited(intervals, j + 1, low, high, reverse) == visited(intervals, j, low, high, reverse)
            + ({
            let interval = if reverse {
                intervals[intervals.len() - 1 - j]
            } else {
                intervals[j]
            };
            offsets_between(max_u32(interval.start, low), min_u32(interval.end, high), reverse)
        }),
{
    if reverse {
        let longer = intervals.skip(intervals.len() - (j + 1));
        assert(longer.drop_first() =~= intervals.skip(intervals.len() - j));
        assert(longer.first() == intervals[intervals.len() - 1 - j]);
    } else {
        let longer = intervals.take(j + 1);
        assert(longer.drop_last() =~= intervals.take(j));
        assert(longer.last() == intervals[j]);
    }
}

proof fn lemma_visited_stops(
    intervals: Seq<ChunkInterval>,
    j: int,
    low: u32,
    high: u32,
    s0: ScanView,
    max_offset: u32,
    reverse: bool,
    now: u64,
    max_probes: nat,
)
    requires
        0 <= j <= intervals.len(),
        low <= high,
        scan_all(
            s0,
            visited(intervals, j, low, high, reverse),
            max_offset,
            reverse,
            now,
            max_probes,
        ).stopped,
    ensures
        scan_all(s0, walk(intervals, low, high, reverse), max_offset, reverse, now, max_probes)
            == scan_all(
            s0,
            visited(intervals, j, low, high, reverse),
            max_offset,
            reverse,
            now,
            max_probes,
        ),
    decreases intervals.len() - j,
{
    if j == intervals.len() {
        assert(intervals.take(j) =~= intervals);
        assert(intervals.skip(0) =~= intervals);
    } else {
        let here = visited(intervals, j, low, high, reverse);
        let interval = if reverse {
            intervals[intervals.len() - 1 - j]
        } else {
            intervals[j]
        };
        let more = offsets_between(
            max_u32(interval.start, low),
            min_u32(interval.end, high),
            reverse,
        );
        lemma_visited_step(intervals, j, low, high, reverse);
        lemma_scan_concat(s0, here, more, max_offset, reverse, now, max_probes);
        lemma_scan_stopped(
            scan_all(s0, here, max_offset, reverse, now, max_probes),
            more,
            max_offset,
            reverse,
            now,
            max_probes,
        );
        lemma_visited_stops(
            intervals,
            j + 1,
            low,
            high,
            s0,
            max_offset,
            reverse,
            now,
            max_probes,
        );
    }
}

/// Whether the newest data of the ledger comes first.
pub fn ledger_prioritizes_write_frontier(ledger: Option<DataLedger>) -> (r: bool)
    ensures
        r == write_frontier_first(ledger),
{
    match ledger {
        Some(DataLedger::Submit) => true,
        Some(DataLedger::OneYear) => true,
        Some(DataLedger::ThirtyDay) => true,
        _ => false,
    }
}

/// The first and the last ledger offset of a storage module.
#[derive(Clone, Copy, Debug, PartialEq, Eq, Structural)]
pub struct LedgerRange {
    pub start: u64,
    pub end: u64,
}

/// What a migrated block says of a data ledger.
#[derive(Clone, Copy, Debug, PartialEq, Eq, Structural)]
pub enum DataLedgerLookup {
    /// The ledger holds this many chunks.
    Present { total_chunks: u64 },
    /// The block is older than the ledger.
    ExpectedAbsent,
    /// The ledger is missing from a block that should have it.
    UnexpectedAbsent,
}

/// The position of the most recently migrated block in a canonical chain of `chain_len` blocks.
pub fn migrated_block_index(chain_len: usize, block_migration_depth: usize) -> (r: Option<usize>)
    requires
        block_migration_depth > 0,
    ensures
        r == if chain_len >= block_migration_depth {
            Some((chain_len - block_migration_depth) as usize)
        } else {
            None
        },
        r matches Some(i) ==> i < chain_len,
{
    if chain_len >= block_migration_depth {
        Some(chain_len - block_migration_depth)
    } else {
        None
    }
}

/// The highest chunk of the ledger that is to be synced, and its place in the partition: the last
/// migrated chunk, as far as it lies in the storage module's range.
pub open spec fn max_synced_chunk(
    ledger_range: LedgerRange,
    lookup: Option<DataLedgerLookup>,
) -> Option<(nat, nat)> {
    match lookup {
        Some(DataLedgerLookup::Present { total_chunks }) => if total_chunks == 0
            || ledger_range.start > total_chunks - 1 {
            None
        } else {
            let last = (total_chunks - 1) as nat;
            let within = if ledger_range.end > last {
                last
            } else {
                ledger_range.end as nat
            };
            Some(((within - ledger_range.start) as nat, last))
        },
        _ => None,
    }
}

/// The highest partition offset that is to be synced, with the ledger offset of the last migrated
/// chunk. `lookup` is what the most recently migrated block says, if there is one.
pub fn get_max_chunk_offset(ledger_range: LedgerRange, lookup: Option<DataLedgerLookup>) -> (r:
    Option<(u32, u64)>)
    requires
        ledger_range.start <= ledger_range.end,
        ledger_range.end - ledger_range.start <= u32::MAX,
    ensures
        match max_synced_chunk(ledger_range, lookup) {
            Some((offset, last)) => r == Some((offset as u32, last as u64)) && offset <= u32::MAX
                && last <= u64::MAX,
            None => r is None,
        },
{
    let total_chunks: u64 = match lookup {
        Some(DataLedgerLookup::Present { total_chunks }) => total_chunks,
        _ => {
            return None;
        },
    };
    if total_chunks == 0 {
        return None;
    }
    let last: u64 = total_chunks - 1;
    if ledger_range.start > last {
        return None;
    }
    let within: u64 = if ledger_range.end > last {
        last
    } else {
        ledger_range.end
    };
    Some(((within - ledger_range.start) as u32, last))
}

impl ChunkOrchestrator {
    /// Whether the newest data of this orchestrator's ledger comes first.
    pub fn prioritizes_write_frontier(&self) -> (r: bool)
        ensures
            r == write_frontier_first(self.ledger),
    {
        ledger_prioritizes_write_frontier(self.ledger)
    }

    /// Moves the cursor past `interval_step` and offers the offset to the scheduler. Says whether
    /// the scan is to stop, for want of budget or of probes.
    fn note_scan_offset(
        &mut self,
        interval_step: u32,
        max_offset: u32,
        reverse: bool,
        now: u64,
        probes: &mut usize,
        max_probes: usize,
        requests_to_add: &mut usize,
    ) -> (stop: bool)
        requires
            old(self).wf(),
            *old(probes) < usize::MAX,
        ensures
            final(self).wf(),
            (ScanView {
                scheduler: final(self)@,
                probes: *final(probes) as nat,
                to_add: *final(requests_to_add) as nat,
                stopped: stop,
            }) == scan_step(
                ScanView {
                    scheduler: old(self)@,
                    probes: *old(probes) as nat,
                    to_add: *old(requests_to_add) as nat,
                    stopped: false,
                },
                interval_step,
                max_offset,
                reverse,
                now,
                max_probes as nat,
            ),
    {
        *probes = *probes + 1;
        self.scan_cursor = if reverse {
            if interval_step == 0 {
                u32::MAX
            } else {
                interval_step - 1
            }
        } else if interval_step == max_offset {
            0
        } else {
            interval_step.saturating_add(1)
        };
        if self.enqueue_pending(interval_step, now, false) {
            *requests_to_add = requests_to_add.saturating_sub(1);
            if *requests_to_add == 0 {
                return true;
            }
        }
        *probes >= max_probes
    }

    /// Scans the offsets of one interval.
    fn scan_interval(
        &mut self,
        start: u32,
        end: u32,
        max_offset: u32,
        reverse: bool,
        now: u64,
        probes: &mut usize,
        max_probes: usize,
        requests_to_add: &mut usize,
    ) -> (stop: bool)
        requires
            old(self).wf(),
            *old(probes) < max_probes,
        ensures
            final(self).wf(),
            !stop ==> *final(probes) < max_probes,
            (ScanView {
                scheduler: final(self)@,
                probes: *final(probes) as nat,
                to_add: *final(requests_to_add) as nat,
                stopped: stop,
            }) == scan_all(
                ScanView {
                    scheduler: old(self)@,
                    probes: *old(probes) as nat,
                    to_add: *old(requests_to_add) as nat,
                    stopped: false,
                },
                offsets_between(start, end, reverse),
                max_offset,
                reverse,
                now,
                max_probes as nat,
            ),
    {
        let ghost order = offsets_between(start, end, reverse);
        let ghost s0 = ScanView {
            scheduler: self@,
            probes: *probes as nat,
            to_add: *requests_to_add as nat,
            stopped: false,
        };
        if start > end {
            return false;
        }
        let count: u64 = (end - start) as u64 + 1;
        let mut k: u64 = 0;
        while k < count
            invariant
                start <= end,
                k <= count,
                count == end - start + 1,
                count == order.len(),
                order == offsets_between(start, end, reverse),
                self.wf(),
                *probes < max_probes,
                (ScanView {
                    scheduler: self@,
                    probes: *probes as nat,
                    to_add: *requests_to_add as nat,
                    stopped: false,
                }) == scan_all(
                    s0,
                    order.take(k as int),
                    max_offset,
                    reverse,
                    now,
                    max_probes as nat,
                ),
                s0 == (ScanView {
                    scheduler: old(self)@,
                    probes: *old(probes) as nat,
                    to_add: *old(requests_to_add) as nat,
                    stopped: false,
                }),
            decreases count - k,
        {
            let step: u32 = if reverse {
                end - (k as u32)
            } else {
                start + (k as u32)
            };
            assert(order[k as int] == step);
            let stop = self.note_scan_offset(
                step,
                max_offset,
                reverse,
                now,
                probes,
                max_probes,
                requests_to_add,
            );
            proof {
                let next = order.take(k as int + 1);
                assert(next.drop_last() =~= order.take(k as int));
                assert(next.last() == step);
                assert((ScanView {
                    scheduler: self@,
                    probes: *probes as nat,
                    to_add: *requests_to_add as nat,
                    stopped: stop,
                }) == scan_all(s0, next, max_offset, reverse, now, max_probes as nat));
            }
            if stop {
                proof {
                    let next = order.take(k as int + 1);
                    let rest = order.skip(k as int + 1);
                    let s1 = scan_all(s0, next, max_offset, reverse, now, max_probes as nat);
                    assert(next + rest =~= order);
                    lemma_scan_concat(s0, next, rest, max_offset, reverse, now, max_probes as nat);
                    lemma_scan_stopped(s1, rest, max_offset, reverse, now, max_probes as nat);
                }
                return true;
            }
            k += 1;
        }
        assert(order.take(k as int) =~= order);
        false
    }

    /// Scans the intervals within bounds.
    fn scan_range(
        &mut self,
        intervals: &Vec<ChunkInterval>,
        low: u32,
        high: u32,
        max_offset: u32,
        reverse: bool,
        now: u64,
        probes: &mut usize,
        max_probes: usize,
        requests_to_add: &mut usize,
    ) -> (stop: bool)
        requires
            old(self).wf(),
            *old(probes) < max_probes,
        ensures
            final(self).wf(),
            !stop ==> *final(probes) < max_probes,
            (ScanView {
                scheduler: final(self)@,
                probes: *final(probes) as nat,
                to_add: *final(requests_to_add) as nat,
                stopped: stop,
            }) == scan_all(
                ScanView {
                    scheduler: old(self)@,
                    probes: *old(probes) as nat,
                    to_add: *old(requests_to_add) as nat,
                    stopped: false,
                },
                walk(intervals@, low, high, reverse),
                max_offset,
                reverse,
                now,
                max_probes as nat,
            ),
    {
        let ghost s0 = ScanView {
            scheduler: self@,
            probes: *probes as nat,
            to_add: *requests_to_add as nat,
            stopped: false,
        };
        if low > high {
            return false;
        }
        let n: usize = intervals.len();
        let mut j: usize = 0;
        proof {
            assert(visited(intervals@, 0, low, high, reverse) =~= Seq::<u32>::empty());
        }
        while j < n
            invariant
                low <= high,
                n == intervals@.len(),
                j <= n,
                self.wf(),
                *probes < max_probes,
                (ScanView {
                    scheduler: self@,
                    probes: *probes as nat,
                    to_add: *requests_to_add as nat,
                    stopped: false,
                }) == scan_all(
                    s0,
                    visited(intervals@, j as int, low, high, reverse),
                    max_offset,
                    reverse,
                    now,
                    max_probes as nat,
                ),
                s0 == (ScanView {
                    scheduler: old(self)@,
                    probes: *old(probes) as nat,
                    to_add: *old(requests_to_add) as nat,
                    stopped: false,
                }),
            decreases n - j,
        {
            let interval = if reverse {
                intervals[n - 1 - j]
            } else {
                intervals[j]
            };
            let start: u32 = if interval.start < low {
                low
            } else {
                interval.start
            };
            let end: u32 = if high < interval.end {
                high
            } else {
                interval.end
            };
            let stop = self.scan_interval(
                start,
                end,
                max_offset,
                reverse,
                now,
                probes,
                max_probes,
                requests_to_add,
            );
            proof {
                let here = visited(intervals@, j as int, low, high, reverse);
                let more = offsets_between(start, end, reverse);
                lemma_visited_step(intervals@, j as int, low, high, reverse);
                lemma_scan_concat(s0, here, more, max_offset, reverse, now, max_probes as nat);
            }
            if stop {
                proof {
                    let s1 = scan_all(
                        s0,
                        visited(intervals@, j as int + 1, low, high, reverse),
                        max_offset,
                        reverse,
                        now,
                        max_probes as nat,
                    );
                    lemma_visited_stops(
                        intervals@,
                        j as int + 1,
                        low,
                        high,
                        s0,
                        max_offset,
                        reverse,
                        now,
                        max_probes as nat,
                    );
                }
                return true;
            }
            j += 1;
        }
        proof {
            assert(intervals@.take(n as int) =~= intervals@);
            assert(intervals@.skip(0) =~= intervals@);
        }
        false
    }

    /// Discovers new Entropy up to `max_offset`, as far as the hot-work budget goes.
    fn discover(&mut self, storage: &StorageSnapshot, max_offset: u32, now: u64)
        requires
            old(self).wf(),
        ensures
            final(self).wf(),
            final(self)@ == after_discovery(old(self)@, *storage, max_offset, now),
    {
        let ghost v = self@;
        let max_requests: usize = self.max_pending_chunk_requests;
        let pending: usize = self.count_kind(StateKind::Pending);
        let requested: usize = self.count_kind(StateKind::Requested);
        let awaiting: usize = self.count_kind(StateKind::AwaitingDurability);
        let mut requests_to_add: usize = max_requests.saturating_sub(pending).saturating_sub(
            requested,
        ).saturating_sub(awaiting);
        assert(requests_to_add == free_budget(v));
        let reverse = self.prioritizes_write_frontier();
        if requests_to_add > 0 && reverse && intervals_contain(
            &storage.entropy_intervals,
            max_offset,
        ) {
            if self.enqueue_pending(max_offset, now, true) {
                assert(self@.requests.contains_key(max_offset));
                requests_to_add = requests_to_add - 1;
            }
        }
        assert(self@ == after_frontier(v, *storage, max_offset, now));
        assert(requests_to_add == left_after_frontier(v, self@));
        if requests_to_add == 0 {
            return;
        }
        let max_probes: usize = match max_requests.checked_mul(4) {
            Some(n) => n,
            None => usize::MAX,
        };
        let mut probes: usize = 0;
        let cursor: u32 = if max_offset < self.scan_cursor {
            max_offset
        } else {
            self.scan_cursor
        };
        if !reverse {
            self.scan_cursor = cursor;
        }
        let ghost s0 = ScanView {
            scheduler: self@,
            probes: 0,
            to_add: requests_to_add as nat,
            stopped: false,
        };
        let (low, high): (u32, u32) = if reverse {
            (0, cursor)
        } else {
            (cursor, max_offset)
        };
        let stop = self.scan_range(
            &storage.entropy_intervals,
            low,
            high,
            max_offset,
            reverse,
            now,
            &mut probes,
            max_probes,
            &mut requests_to_add,
        );
        let ghost first = walk(storage.entropy_intervals@, low, high, reverse);
        let ghost order = visit_order(
            storage.entropy_intervals@,
            v.scan_cursor,
            max_offset,
            reverse,
        );
        if reverse && cursor == max_offset {
            assert(order =~= first);
            return;
        }
        let (low, high): (u32, u32) = if reverse {
            (cursor + 1, max_offset)
        } else {
            (0, cursor.saturating_sub(1))
        };
        let ghost second = walk(storage.entropy_intervals@, low, high, reverse);
        proof {
            assert(order =~= first + second);
            lemma_scan_concat(s0, first, second, max_offset, reverse, now, max_probes as nat);
        }
        if stop {
            proof {
                lemma_scan_stopped(
                    scan_all(s0, first, max_offset, reverse, now, max_probes as nat),
                    second,
                    max_offset,
                    reverse,
                    now,
                    max_probes as nat,
                );
            }
            return;
        }
        let _ = self.scan_range(
            &storage.entropy_intervals,
            low,
            high,
            max_offset,
            reverse,
            now,
            &mut probes,
            max_probes,
            &mut requests_to_add,
        );
    }

    /// Refreshes the scheduler at `now`: polls durability, drops settled requests, rearms due
    /// ones, and discovers new Entropy up to the highest offset that is to be synced, if any.
    pub fn populate_request_queue_at(
        &mut self,
        storage: &StorageSnapshot,
        max_chunk_offset: Option<u32>,
        now: u64,
    )
        requires
            old(self).wf(),
        ensures
            final(self).wf(),
            final(self)@ == after_populate(old(self)@, *storage, max_chunk_offset, now),
    {
        self.reconcile_awaiting_durability(storage, now, DURABILITY_WAIT_TIMEOUT);
        self.drop_settled(storage);
        self.rearm_due(now);
        if let Some(max_offset) = max_chunk_offset {
            self.discover(storage, max_offset, now);
        }
    }

    /// Refreshes the scheduler if the partition is still assigned to a data ledger.
    pub fn prepare_tick(
        &mut self,
        assigned_to_ledger: bool,
        storage: &StorageSnapshot,
        max_chunk_offset: Option<u32>,
        now: u64,
    )
        requires
            old(self).wf(),
        ensures
            final(self).wf(),
            final(self)@ == if assigned_to_ledger {
                after_populate(old(self)@, *storage, max_chunk_offset, now)
            } else {
                old(self)@
            },
    {
        if assigned_to_ledger {
            self.populate_request_queue_at(storage, max_chunk_offset, now);
        }
    }
}

} // verus!
