//! How many slots a ledger needs, and which free partitions fill them.

use crate::primitives::H256;
use vstd::prelude::*;

verus! {

/// The slots of a list of needs, each as many times as it needs a partition.
pub open spec fn wanted(needs: Seq<(usize, usize)>) -> Seq<usize>
    decreases needs.len(),
{
    if needs.len() == 0 {
        Seq::empty()
    } else {
        wanted(needs.drop_last()) + Seq::new(needs.last().1 as nat, |i: int| needs.last().0)
    }
}

/// `s` after the item at `i` was taken out and the last one was put in its place.
pub open spec fn swap_removed(s: Seq<H256>, i: int) -> Seq<H256> {
    s.update(i, s.last()).drop_last()
}

/// What is left of `s` after `k` draws.
pub open spec fn left_over(s: Seq<H256>, draws: Seq<u32>, k: nat) -> Seq<H256>
    decreases k,
{
    if k == 0 {
        s
    } else {
        let before = left_over(s, draws, (k - 1) as nat);
        swap_removed(before, draws[k - 1] as int)
    }
}

/// The item that draw `k` takes.
pub open spec fn drawn(s: Seq<H256>, draws: Seq<u32>, k: nat) -> H256 {
    left_over(s, draws, k)[draws[k as int] as int]
}

/// How many of `n` wanted partitions can be had from `available` ones.
pub open spec fn served(n: nat, available: nat) -> nat {
    if n < available {
        n
    } else {
        available
    }
}

/// Every draw picks one of the partitions that are left.
pub open spec fn draws_fit(draws: Seq<u32>, n: nat, available: nat) -> bool {
    &&& served(n, available) <= draws.len()
    &&& forall|j: int| 0 <= j < served(n, available) ==> #[trigger] draws[j] < available - j
}

/// The slots that get a partition, and which.
pub open spec fn fills(needs: Seq<(usize, usize)>, s: Seq<H256>, draws: Seq<u32>) -> Seq<
    (usize, H256),
> {
    Seq::new(
        served(wanted(needs).len(), s.len()),
        |j: int| (wanted(needs)[j], drawn(s, draws, j as nat)),
    )
}

/// The slots of need `i` stand behind those of the needs before it.
pub proof fn lemma_wanted_at(needs: Seq<(usize, usize)>, i: int)
    requires
        0 <= i < needs.len(),
    ensures
        wanted(needs.take(i + 1)).len() == wanted(needs.take(i)).len() + needs[i].1,
        wanted(needs.take(i + 1)).len() <= wanted(needs).len(),
        forall|t: int|
            wanted(needs.take(i)).len() <= t < wanted(needs.take(i + 1)).len() ==> (
            #[trigger] wanted(needs)[t]) == needs[i].0,
    decreases needs.len(),
{
    let front = needs.drop_last();
    assert(needs.take(i + 1).drop_last() =~= needs.take(i));
    if i + 1 == needs.len() {
        assert(needs.take(i + 1) =~= needs);
        assert(needs.take(i) =~= front);
    } else {
        lemma_wanted_at(front, i);
        assert(front.take(i) =~= needs.take(i));
        assert(front.take(i + 1) =~= needs.take(i + 1));
        assert forall|t: int|
            wanted(needs.take(i)).len() <= t < wanted(needs.take(i + 1)).len() implies (
        #[trigger] wanted(needs)[t]) == needs[i].0 by {
            assert(wanted(front)[t] == needs[i].0);
        }
    }
}

/// Each draw leaves one partition fewer.
pub proof fn lemma_left_over_len(s: Seq<H256>, draws: Seq<u32>, k: nat)
    requires
        k <= s.len(),
        forall|j: int| 0 <= j < k ==> #[trigger] draws[j] < s.len() - j,
    ensures
        left_over(s, draws, k).len() == s.len() - k,
    decreases k,
{
    if k > 0 {
        lemma_left_over_len(s, draws, (k - 1) as nat);
    }
}

/// The partitions of the first `k` draws.
pub open spec fn all_drawn(s: Seq<H256>, draws: Seq<u32>, k: nat) -> Seq<H256> {
    Seq::new(k, |j: int| drawn(s, draws, j as nat))
}

/// What was drawn and what is left over are together what there was.
pub proof fn law_draws_lose_nothing(s: Seq<H256>, draws: Seq<u32>, k: nat)
    requires
        k <= s.len(),
        k <= draws.len(),
        forall|j: int| 0 <= j < k ==> #[trigger] draws[j] < s.len() - j,
    ensures
        left_over(s, draws, k).to_multiset().add(all_drawn(s, draws, k).to_multiset())
            =~= s.to_multiset(),
    decreases k,
{
    broadcast use vstd::seq_lib::group_to_multiset_ensures;

    if k == 0 {
        assert(all_drawn(s, draws, 0) =~= Seq::empty());
    } else {
        let n = (k - 1) as nat;
        law_draws_lose_nothing(s, draws, n);
        lemma_left_over_len(s, draws, n);
        let before = left_over(s, draws, n);
        let i = draws[k - 1] as int;
        let x = before[i];
        assert(all_drawn(s, draws, k) =~= all_drawn(s, draws, n).push(x));
        lemma_swap_removed(before, i);
    }
}

proof fn lemma_swap_removed(s: Seq<H256>, i: int)
    requires
        0 <= i < s.len(),
    ensures
        swap_removed(s, i).to_multiset().insert(s[i]) =~= s.to_multiset(),
{
    broadcast use vstd::seq_lib::group_to_multiset_ensures;

    let after = swap_removed(s, i);
    if i == s.len() - 1 {
        assert(after =~= s.drop_last());
        assert(s =~= s.drop_last().push(s[i]));
    } else {
        assert(s =~= s.drop_last().push(s.last()));
        assert(after =~= s.drop_last().update(i, s.last()));
        assert(s.drop_last().update(i, s.last()).to_multiset() =~= s.drop_last().to_multiset().insert(
            s.last(),
        ).remove(s[i])) by {
            vstd::seq_lib::to_multiset_update(s.drop_last(), i, s.last());
        }
        assert(s.drop_last()[i] == s[i]);
        assert(s.drop_last().to_multiset().count(s[i]) > 0);
    }
}

/// How many draws it takes to fill the slots from `available` partitions.
pub fn draws_needed(needs: &Vec<(usize, usize)>, available: u32) -> (r: u32)
    ensures
        r == served(wanted(needs@).len(), available as nat),
{
    let mut r: u32 = 0;
    let mut i: usize = 0;
    assert(needs@.take(0) =~= Seq::empty());
    while i < needs.len()
        invariant
            i <= needs@.len(),
            r == served(wanted(needs@.take(i as int)).len(), available as nat),
        decreases needs@.len() - i,
    {
        proof {
            lemma_wanted_at(needs@, i as int);
        }
        let left: u32 = available - r;
        if needs[i].1 < left as usize {
            assert(left as usize <= usize::MAX);
            r = r + needs[i].1 as u32;
        } else {
            r = available;
        }
        i += 1;
    }
    assert(needs@.take(i as int) =~= needs@);
    r
}

/// Half a partition, in chunks.
pub open spec fn half(chunks: u64) -> int {
    chunks as int / 2
}

/// How far the ledger is above what its slots hold.
pub open spec fn excess(num_slots: u64, chunks: u64, ledger_size: u64) -> int {
    if ledger_size > num_slots * chunks {
        ledger_size - num_slots * chunks
    } else {
        0
    }
}

/// The slots that room for the data asks for: none as long as half a partition is free, else one,
/// and as many as the excess fills, the last one when it is at least half full.
pub open spec fn slots_for_size(num_slots: u64, chunks: u64, ledger_size: u64) -> int {
    let over = excess(num_slots, chunks, ledger_size);
    if num_slots * chunks - half(chunks) <= ledger_size {
        1 + over / (chunks as int) + (if over % (chunks as int) >= half(chunks) {
            1int
        } else {
            0
        })
    } else {
        0
    }
}

/// The slots that the data of the last epoch fills, the last one in part.
pub open spec fn slots_for_growth(chunks: u64, ledger_size: u64, previous_size: Option<u64>) -> int {
    match previous_size {
        None => 0,
        Some(p) => (ledger_size - p + chunks - 1) / (chunks as int),
    }
}

/// How many slots are added to a ledger of `num_slots` slots that holds `ledger_size` chunks. A
/// partition holds `chunks` of them. `previous_size` is what it held an epoch ago, from the second
/// epoch on.
pub fn calculate_additional_slots(
    num_slots: u64,
    chunks: u64,
    ledger_size: u64,
    previous_size: Option<u64>,
) -> (r: u64)
    requires
        chunks > 0,
        num_slots * chunks <= u64::MAX,
        previous_size matches Some(p) ==> p <= ledger_size,
        slots_for_size(num_slots, chunks, ledger_size) + slots_for_growth(
            chunks,
            ledger_size,
            previous_size,
        ) <= u64::MAX,
    ensures
        r == slots_for_size(num_slots, chunks, ledger_size) + slots_for_growth(
            chunks,
            ledger_size,
            previous_size,
        ),
{
    let capacity: u64 = num_slots * chunks;
    let threshold: u64 = capacity.saturating_sub(chunks / 2);
    let mut slots: u64 = 0;
    proof {
        if let Some(p) = previous_size {
            assert((ledger_size - p + chunks - 1) / (chunks as int) >= 0) by (nonlinear_arith)
                requires
                    chunks > 0,
                    p <= ledger_size,
            ;
        }
    }
    if ledger_size >= threshold {
        let over: u64 = ledger_size.saturating_sub(capacity);
        assert(over == excess(num_slots, chunks, ledger_size));
        slots = 1 + (over / chunks);
        if over % chunks >= chunks / 2 {
            slots += 1;
        }
    }
    if let Some(p) = previous_size {
        let added: u64 = ledger_size - p;
        let whole: u64 = added / chunks;
        let rest: u64 = added % chunks;
        assert((added + chunks - 1) / (chunks as int) == whole + (if rest > 0 {
            1int
        } else {
            0
        })) by {
            lemma_round_up(added as int, chunks as int);
        }
        slots = slots + whole;
        if rest > 0 {
            slots = slots + 1;
        }
    }
    slots
}

proof fn lemma_round_up(n: int, d: int)
    requires
        n >= 0,
        d > 0,
    ensures
        (n + d - 1) / d == n / d + (if n % d > 0 {
            1int
        } else {
            0
        }),
{
    let q = n / d;
    let r = n % d;
    vstd::arithmetic::div_mod::lemma_fundamental_div_mod(n, d);
    vstd::arithmetic::div_mod::lemma_mod_bound(n, d);
    if r > 0 {
        assert(n + d - 1 == (q + 1) * d + (r - 1)) by (nonlinear_arith)
            requires
                n == d * q + r,
        ;
        vstd::arithmetic::div_mod::lemma_fundamental_div_mod_converse(n + d - 1, d, q + 1, r - 1);
    } else {
        assert(n + d - 1 == q * d + (d - 1)) by (nonlinear_arith)
            requires
                n == d * q + r,
                r == 0,
        ;
        vstd::arithmetic::div_mod::lemma_fundamental_div_mod_converse(n + d - 1, d, q, d - 1);
    }
}

/// How many slots are added to a ledger, if that can be told: partitions hold chunks, the ledger
/// has not shrunk, and the chunks of its slots and the slots to add can be counted.
pub fn checked_additional_slots(
    num_slots: u64,
    chunks: u64,
    ledger_size: u64,
    previous_size: Option<u64>,
) -> (r: Option<u64>)
    ensures
        ({
            let slots = slots_for_size(num_slots, chunks, ledger_size) + slots_for_growth(
                chunks,
                ledger_size,
                previous_size,
            );
            if chunks > 0 && num_slots * chunks <= u64::MAX && (previous_size matches Some(p)
                ==> p <= ledger_size) && slots <= u64::MAX {
                r == Some(slots as u64) && 0 <= slots
            } else {
                r is None
            }
        }),
{
    if chunks == 0 || num_slots.checked_mul(chunks).is_none() {
        return None;
    }
    let capacity: u64 = num_slots * chunks;
    let over: u64 = ledger_size.saturating_sub(capacity);
    assert(over == excess(num_slots, chunks, ledger_size));
    let mut slots: u128 = 0;
    if ledger_size >= capacity.saturating_sub(chunks / 2) {
        slots = 1 + (over / chunks) as u128;
        if over % chunks >= chunks / 2 {
            slots = slots + 1;
        }
    }
    assert(slots == slots_for_size(num_slots, chunks, ledger_size));
    if let Some(p) = previous_size {
        if p > ledger_size {
            return None;
        }
        let added: u64 = ledger_size - p;
        proof {
            lemma_round_up(added as int, chunks as int);
        }
        slots = slots + (added / chunks) as u128;
        if added % chunks > 0 {
            slots = slots + 1;
        }
    }
    if slots > u64::MAX as u128 {
        return None;
    }
    Some(calculate_additional_slots(num_slots, chunks, ledger_size, previous_size))
}

/// With the added slots a ledger has room for more than it holds: more than half a partition is
/// free.
pub proof fn law_added_slots_leave_room(
    num_slots: u64,
    chunks: u64,
    ledger_size: u64,
    previous_size: Option<u64>,
)
    requires
        chunks > 0,
        previous_size matches Some(p) ==> p <= ledger_size,
    ensures
        (num_slots + slots_for_size(num_slots, chunks, ledger_size) + slots_for_growth(
            chunks,
            ledger_size,
            previous_size,
        )) * chunks > ledger_size,
        2 * ((num_slots + slots_for_size(num_slots, chunks, ledger_size) + slots_for_growth(
            chunks,
            ledger_size,
            previous_size,
        )) * chunks - ledger_size) > chunks,
{
    let over = excess(num_slots, chunks, ledger_size);
    let size = slots_for_size(num_slots, chunks, ledger_size);
    let growth = slots_for_growth(chunks, ledger_size, previous_size);
    if let Some(p) = previous_size {
        assert((ledger_size - p + chunks - 1) / (chunks as int) >= 0) by (nonlinear_arith)
            requires
                chunks > 0,
                p <= ledger_size,
        ;
    }
    assert(num_slots * chunks >= 0) by (nonlinear_arith);
    assert((num_slots + size + growth) * chunks >= num_slots * chunks + size * chunks)
        by (nonlinear_arith)
        requires
            growth >= 0,
            chunks > 0,
    ;
    if num_slots * chunks - half(chunks) <= ledger_size {
        let q = over / (chunks as int);
        vstd::arithmetic::div_mod::lemma_fundamental_div_mod(over, chunks as int);
        vstd::arithmetic::div_mod::lemma_mod_bound(over, chunks as int);
        let rest = over % (chunks as int);
        assert((1 + q) * chunks == over - rest + chunks) by (nonlinear_arith)
            requires
                over == chunks * q + rest,
        ;
        if rest >= half(chunks) {
            assert(size * chunks == (1 + q) * chunks + chunks) by (nonlinear_arith)
                requires
                    size == 2 + q,
            ;
        } else {
            assert(size == 1 + q);
        }
    } else {
        assert(size * chunks == 0) by (nonlinear_arith)
            requires
                size == 0,
        ;
    }
}

/// No slot is added for its size to a ledger with more than half a partition free; to another one
/// as few as leave more than the larger half of a partition free.
pub proof fn law_slots_are_added_when_half_a_partition_is_left(
    num_slots: u64,
    chunks: u64,
    ledger_size: u64,
)
    requires
        chunks > 0,
    ensures
        ({
            let added = slots_for_size(num_slots, chunks, ledger_size);
            let larger_half = (chunks + 1) / 2;
            &&& added >= 0
            &&& added == 0 <==> num_slots * chunks - ledger_size > chunks as int / 2
            &&& added > 0 ==> (num_slots + added) * chunks - ledger_size > larger_half
            &&& added > 0 ==> (num_slots + added - 1) * chunks - ledger_size <= larger_half
        }),
{
    let c = chunks as int;
    let n = num_slots as int;
    let added = slots_for_size(num_slots, chunks, ledger_size);
    if n * c - c / 2 <= ledger_size {
        let over = excess(num_slots, chunks, ledger_size);
        let q = over / c;
        let rest = over % c;
        vstd::arithmetic::div_mod::lemma_fundamental_div_mod(over, c);
        vstd::arithmetic::div_mod::lemma_mod_bound(over, c);
        assert(q >= 0) by (nonlinear_arith)
            requires
                q == over / c,
                over >= 0,
                c > 0,
        ;
        let extra = added - 1 - q;
        assert((n + added) * c == n * c + c + over - rest + extra * c) by (nonlinear_arith)
            requires
                added == 1 + q + extra,
                over == c * q + rest,
        ;
        assert((n + added - 1) * c == (n + added) * c - c) by (nonlinear_arith);
        assert(extra == 0 || extra == 1);
        assert(0 * c == 0 && 1 * c == c);
        if over == 0 {
            assert(rest == 0) by (nonlinear_arith)
                requires
                    rest == over % c,
                    over == 0,
                    c > 0,
            ;
        }
    }
}

/// The slots that are added for the growth hold what was added to the ledger, and one less would
/// not.
pub proof fn law_slots_are_added_for_the_growth(
    chunks: u64,
    ledger_size: u64,
    previous_size: Option<u64>,
)
    requires
        chunks > 0,
        previous_size matches Some(p) ==> p <= ledger_size,
    ensures
        previous_size is None ==> slots_for_growth(chunks, ledger_size, previous_size) == 0,
        previous_size matches Some(p) ==> ({
            let added = slots_for_growth(chunks, ledger_size, previous_size);
            &&& added * chunks >= ledger_size - p
            &&& ledger_size > p ==> (added - 1) * chunks < ledger_size - p
            &&& ledger_size == p ==> added == 0
        }),
{
    if let Some(p) = previous_size {
        let c = chunks as int;
        let top = ledger_size - p + c - 1;
        let added = slots_for_growth(chunks, ledger_size, previous_size);
        vstd::arithmetic::div_mod::lemma_fundamental_div_mod(top, c);
        vstd::arithmetic::div_mod::lemma_mod_bound(top, c);
        assert(added * c == top - top % c) by (nonlinear_arith)
            requires
                top == c * added + top % c,
        ;
        assert((added - 1) * c == added * c - c) by (nonlinear_arith);
        if ledger_size == p {
            vstd::arithmetic::div_mod::lemma_basic_div(top, c);
        }
    }
}

/// Every slot is listed as often as it needs a partition, and the needs are listed one after the
/// other.
pub proof fn law_needs_are_listed_in_order(
    needs: Seq<(usize, usize)>,
    more: Seq<(usize, usize)>,
    slot: usize,
    count: usize,
)
    ensures
        wanted(seq![(slot, count)]).len() == count,
        forall|j: int| 0 <= j < count ==> #[trigger] wanted(seq![(slot, count)])[j] == slot,
        wanted(needs + more) == wanted(needs) + wanted(more),
    decreases more.len(),
{
    let one = seq![(slot, count)];
    assert(one.drop_last() =~= Seq::<(usize, usize)>::empty());
    assert(wanted(one.drop_last()) =~= Seq::<usize>::empty());
    if more.len() == 0 {
        assert(needs + more =~= needs);
    } else {
        law_needs_are_listed_in_order(needs, more.drop_last(), slot, count);
        assert((needs + more).drop_last() =~= needs + more.drop_last());
    }
}

/// The draws pick one after the other: the first one takes the partition at the place that was
/// drawn, the last partition moves there, and the rest goes on with what is left.
pub proof fn law_a_draw_takes_the_partition_at_its_place(
    needs: Seq<(usize, usize)>,
    s: Seq<H256>,
    draws: Seq<u32>,
    k: nat,
)
    requires
        draws_fit(draws, wanted(needs).len(), s.len()),
        1 <= k <= wanted(needs).len(),
        k <= s.len(),
    ensures
        ({
            let r = fills(needs, s, draws);
            let first = draws[0] as int;
            &&& r.len() == if wanted(needs).len() <= s.len() {
                wanted(needs).len()
            } else {
                s.len()
            }
            &&& r[0].1 == s[first]
            &&& forall|j: int| 0 <= j < r.len() ==> (#[trigger] r[j]).0 == wanted(needs)[j]
            &&& forall|i: int| 0 <= i < s.len() - 1 ==> #[trigger] left_over(s, draws, 1)[i]
                == if i == first { s.last() } else { s[i] }
            &&& left_over(s, draws, k) == left_over(
                left_over(s, draws, 1),
                draws.skip(1),
                (k - 1) as nat,
            )
            &&& k < r.len() ==> r[k as int].1 == drawn(
                left_over(s, draws, 1),
                draws.skip(1),
                (k - 1) as nat,
            )
        }),
{
    assert(draws[0] < s.len() - 0);
    assert(left_over(s, draws, 0) == s);
    assert(left_over(s, draws, 1) =~= swap_removed(s, draws[0] as int));
    lemma_draws_go_on(s, draws, k);
    let r = fills(needs, s, draws);
    assert(r[0].1 == drawn(s, draws, 0));
    if k < r.len() {
        assert(r[k as int].1 == drawn(s, draws, k));
        assert(draws.skip(1)[k - 1] == draws[k as int]);
    }
}

/// Drawing goes on with what the first draw left.
proof fn lemma_draws_go_on(s: Seq<H256>, draws: Seq<u32>, k: nat)
    requires
        1 <= k <= draws.len(),
    ensures
        left_over(s, draws, k) == left_over(
            left_over(s, draws, 1),
            draws.skip(1),
            (k - 1) as nat,
        ),
    decreases k,
{
    if k > 1 {
        lemma_draws_go_on(s, draws, (k - 1) as nat);
        assert(draws.skip(1)[k - 2] == draws[k - 1]);
    }
}

} // verus!
