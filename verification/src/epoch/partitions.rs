//! Which partitions hold data and which are free.

use crate::mempool::lru_caches::lemma_filtered_comes_from;
use crate::mempool::priority::{
    in_order, lemma_ordered_holds_the_same, ordered, sort, Prioritized,
};
use crate::ordered_map::{lemma_entry, OrderedMap};
use crate::primitives::{DataLedger, H256, IrysAddress};
use vstd::prelude::*;

verus! {

/// A partition and the miner that holds it. A partition that holds data belongs to a slot of a
/// ledger.
#[derive(Clone, Copy, Debug, PartialEq, Eq, Structural)]
pub struct PartitionAssignment {
    pub partition_hash: H256,
    pub miner_address: IrysAddress,
    pub ledger: Option<DataLedger>,
    pub slot_index: Option<usize>,
}

/// The partitions that miners hold.
#[derive(Debug)]
pub struct PartitionAssignments {
    /// Partitions that hold data.
    pub data_partitions: OrderedMap<H256, PartitionAssignment>,
    /// Partitions that are free.
    pub capacity_partitions: OrderedMap<H256, PartitionAssignment>,
}

/// The contents of [`PartitionAssignments`].
#[verifier::ext_equal]
pub ghost struct AssignmentsView {
    pub data: Map<H256, PartitionAssignment>,
    pub capacity: Map<H256, PartitionAssignment>,
}

impl View for PartitionAssignments {
    type V = AssignmentsView;

    open spec fn view(&self) -> AssignmentsView {
        AssignmentsView { data: self.data_partitions@, capacity: self.capacity_partitions@ }
    }
}

/// Every partition that holds data belongs to a slot of a ledger, and no free one does.
pub open spec fn placed(v: AssignmentsView) -> bool {
    &&& forall|h: H256| #[trigger]
        v.data.contains_key(h) ==> v.data[h].ledger is Some && v.data[h].slot_index is Some
    &&& forall|h: H256| #[trigger]
        v.capacity.contains_key(h) ==> v.capacity[h].ledger is None && v.capacity[h].slot_index
            is None
}

/// No partition both holds data and is free.
pub open spec fn separate(v: AssignmentsView) -> bool {
    forall|h: H256| #[trigger] v.data.contains_key(h) ==> !v.capacity.contains_key(h)
}

/// The view after a free partition was given to a slot.
pub open spec fn given_to_slot(
    v: AssignmentsView,
    hash: H256,
    ledger: DataLedger,
    slot_index: usize,
) -> AssignmentsView {
    if v.capacity.contains_key(hash) {
        AssignmentsView {
            data: v.data.insert(
                hash,
                PartitionAssignment {
                    ledger: Some(ledger),
                    slot_index: Some(slot_index),
                    ..v.capacity[hash]
                },
            ),
            capacity: v.capacity.remove(hash),
        }
    } else {
        v
    }
}

/// The view after a partition that held data became free.
pub open spec fn freed(v: AssignmentsView, hash: H256) -> AssignmentsView {
    if v.data.contains_key(hash) {
        AssignmentsView {
            data: v.data.remove(hash),
            capacity: v.capacity.insert(
                hash,
                PartitionAssignment { ledger: None, slot_index: None, ..v.data[hash] },
            ),
        }
    } else {
        v
    }
}

/// Giving a partition to a slot and freeing one keep the partitions that hold data and the free
/// ones apart.
pub proof fn law_moves_keep_partitions_apart(
    v: AssignmentsView,
    hash: H256,
    ledger: DataLedger,
    slot_index: usize,
)
    requires
        separate(v),
    ensures
        separate(given_to_slot(v, hash, ledger, slot_index)),
        separate(freed(v, hash)),
{
}

/// A free partition that is given to a slot and freed again is free as before.
pub proof fn law_freeing_undoes_giving(
    v: AssignmentsView,
    hash: H256,
    ledger: DataLedger,
    slot_index: usize,
)
    requires
        placed(v),
        separate(v),
        v.capacity.contains_key(hash),
    ensures
        freed(given_to_slot(v, hash, ledger, slot_index), hash) == v,
{
    let given = given_to_slot(v, hash, ledger, slot_index);
    let back = freed(given, hash);
    assert(!v.data.contains_key(hash));
    assert(back.capacity[hash] == v.capacity[hash]);
    assert(back.data =~= v.data);
    assert(back.capacity =~= v.capacity);
}

/// An assignment in the order of its slot.
#[derive(Clone, Copy, Debug)]
pub struct BySlot(pub PartitionAssignment);

/// Where an assignment stands among those of its ledger: one without a slot comes first.
pub open spec fn slot_rank(a: PartitionAssignment) -> int {
    match a.slot_index {
        None => -1,
        Some(i) => i as int,
    }
}

impl Prioritized for BySlot {
    open spec fn before(self, other: Self) -> bool {
        slot_rank(self.0) < slot_rank(other.0)
    }

    proof fn before_is_asymmetric(a: Self, b: Self) {
    }

    proof fn before_is_negatively_transitive(a: Self, b: Self, c: Self) {
    }

    fn comes_before(&self, other: &Self) -> (r: bool) {
        match (self.0.slot_index, other.0.slot_index) {
            (None, None) => false,
            (None, Some(_)) => true,
            (Some(_), None) => false,
            (Some(a), Some(b)) => a < b,
        }
    }
}

/// The assignments that satisfy `p`, in the order of their partitions.
pub open spec fn assignments_where(
    entries: Seq<(H256, PartitionAssignment)>,
    p: spec_fn(PartitionAssignment) -> bool,
) -> Seq<PartitionAssignment> {
    entries.map_values(|e: (H256, PartitionAssignment)| e.1).filter(p)
}

/// The assignments of a ledger.
pub open spec fn in_ledger(ledger: Option<DataLedger>) -> spec_fn(PartitionAssignment) -> bool {
    |a: PartitionAssignment| a.ledger == ledger
}

/// The assignments of a miner.
pub open spec fn of_miner(miner: IrysAddress) -> spec_fn(PartitionAssignment) -> bool {
    |a: PartitionAssignment| a.miner_address == miner
}

/// The assignments, each by its slot.
pub open spec fn all_by_slot(s: Seq<PartitionAssignment>) -> Seq<BySlot> {
    s.map_values(|a: PartitionAssignment| BySlot(a))
}

impl Default for PartitionAssignments {
    fn default() -> (r: PartitionAssignments)
        ensures
            r.wf(),
            r@ == (AssignmentsView { data: Map::empty(), capacity: Map::empty() }),
    {
        PartitionAssignments::new()
    }
}

impl PartitionAssignments {
    /// The partitions are held in the order of their hashes, and only those that hold data belong
    /// to a slot.
    pub open spec fn wf(&self) -> bool {
        &&& self.data_partitions.wf()
        &&& self.capacity_partitions.wf()
        &&& placed(self@)
    }

    /// No partitions.
    pub fn new() -> (r: PartitionAssignments)
        ensures
            r.wf(),
            r@ == (AssignmentsView { data: Map::empty(), capacity: Map::empty() }),
    {
        PartitionAssignments {
            data_partitions: OrderedMap::new(),
            capacity_partitions: OrderedMap::new(),
        }
    }

    /// The assignment of a partition, if a miner holds it.
    pub fn get_assignment(&self, partition_hash: H256) -> (r: Option<PartitionAssignment>)
        requires
            self.wf(),
        ensures
            r == if self@.data.contains_key(partition_hash) {
                Some(self@.data[partition_hash])
            } else if self@.capacity.contains_key(partition_hash) {
                Some(self@.capacity[partition_hash])
            } else {
                None
            },
    {
        if let Some(assignment) = self.data_partitions.get(&partition_hash) {
            return Some(*assignment);
        }
        match self.capacity_partitions.get(&partition_hash) {
            Some(assignment) => Some(*assignment),
            None => None,
        }
    }

    /// The assignments of a ledger in the order of their slots.
    pub fn ledger_assignments(&self, ledger: DataLedger) -> (r: Vec<BySlot>)
        ensures
            ordered(
                all_by_slot(
                    assignments_where(self.data_partitions.entries@, in_ledger(Some(ledger))),
                ),
                r@,
            ),
    {
        let ghost entries = self.data_partitions.entries@;
        let ghost all = entries.map_values(|e: (H256, PartitionAssignment)| e.1);
        let ghost p = in_ledger(Some(ledger));
        let mut found: Vec<BySlot> = Vec::new();
        let mut i: usize = 0;
        assert(all_by_slot(all.take(0).filter(p)) =~= Seq::empty()) by {
            reveal(Seq::filter);
        }
        while i < self.data_partitions.entries.len()
            invariant
                i <= entries.len(),
                entries == self.data_partitions.entries@,
                all == entries.map_values(|e: (H256, PartitionAssignment)| e.1),
                p == in_ledger(Some(ledger)),
                found@ == all_by_slot(all.take(i as int).filter(p)),
            decreases entries.len() - i,
        {
            let a = self.data_partitions.entries[i].1;
            proof {
                reveal(Seq::filter);
                let next = all.take(i as int + 1);
                assert(next.drop_last() =~= all.take(i as int));
                assert(next.last() == a);
                if p(a) {
                    assert(next.filter(p) == all.take(i as int).filter(p).push(a));
                    assert(all_by_slot(next.filter(p)) =~= all_by_slot(
                        all.take(i as int).filter(p),
                    ).push(BySlot(a)));
                }
            }
            let matching = match a.ledger {
                Some(l) => l == ledger,
                None => false,
            };
            if matching {
                found.push(BySlot(a));
            }
            i += 1;
        }
        assert(all.take(i as int) =~= all);
        sort(&found)
    }

    /// Gives a free partition to a slot of a ledger.
    pub fn assign_partition_to_slot(
        &mut self,
        partition_hash: H256,
        ledger: DataLedger,
        slot_index: usize,
    )
        requires
            old(self).wf(),
        ensures
            final(self).wf(),
            final(self)@ == given_to_slot(old(self)@, partition_hash, ledger, slot_index),
    {
        if let Some(assignment) = self.capacity_partitions.remove(&partition_hash) {
            self.data_partitions.insert(
                partition_hash,
                PartitionAssignment {
                    ledger: Some(ledger),
                    slot_index: Some(slot_index),
                    ..assignment
                },
            );
        }
        assert(self@ =~= given_to_slot(old(self)@, partition_hash, ledger, slot_index));
    }

    /// Frees a partition that holds data. Gives the slot that it held, from which it has to be
    /// removed.
    pub fn return_expired_partition_to_capacity(&mut self, partition_hash: H256) -> (r: Option<
        PartitionAssignment,
    >)
        requires
            old(self).wf(),
        ensures
            final(self).wf(),
            final(self)@ == freed(old(self)@, partition_hash),
            r == if old(self)@.data.contains_key(partition_hash) {
                Some(old(self)@.data[partition_hash])
            } else {
                None
            },
    {
        let removed = self.data_partitions.remove(&partition_hash);
        if let Some(assignment) = removed {
            self.capacity_partitions.insert(
                partition_hash,
                PartitionAssignment { ledger: None, slot_index: None, ..assignment },
            );
            assert(self@ =~= freed(old(self)@, partition_hash));
            return Some(assignment);
        }
        assert(self@ =~= freed(old(self)@, partition_hash));
        None
    }

    /// The assignments of a miner: those that hold data first, then the free ones, each in the
    /// order of their partitions.
    pub fn get_partition_assignments(&self, miner_address: IrysAddress) -> (r: Vec<
        PartitionAssignment,
    >)
        ensures
            r@ == miner_assignments(*self, miner_address),
    {
        let mut r: Vec<PartitionAssignment> = Vec::new();
        push_of_miner(&self.data_partitions.entries, miner_address, &mut r);
        push_of_miner(&self.capacity_partitions.entries, miner_address, &mut r);
        r
    }
}

/// The assignments of a miner: those that hold data first, then the free ones, each in the order of
/// their partitions.
pub open spec fn miner_assignments(a: PartitionAssignments, miner: IrysAddress) -> Seq<
    PartitionAssignment,
> {
    assignments_where(a.data_partitions.entries@, of_miner(miner)) + assignments_where(
        a.capacity_partitions.entries@,
        of_miner(miner),
    )
}

fn push_of_miner(
    entries: &Vec<(H256, PartitionAssignment)>,
    miner: IrysAddress,
    r: &mut Vec<PartitionAssignment>,
)
    ensures
        final(r)@ == old(r)@ + assignments_where(entries@, of_miner(miner)),
{
    let ghost start = r@;
    let ghost all = entries@.map_values(|e: (H256, PartitionAssignment)| e.1);
    let ghost p = of_miner(miner);
    let mut i: usize = 0;
    assert(start + all.take(0).filter(p) =~= start) by {
        reveal(Seq::filter);
    }
    while i < entries.len()
        invariant
            i <= entries@.len(),
            all == entries@.map_values(|e: (H256, PartitionAssignment)| e.1),
            p == of_miner(miner),
            r@ == start + all.take(i as int).filter(p),
        decreases entries@.len() - i,
    {
        let a = entries[i].1;
        proof {
            reveal(Seq::filter);
            let next = all.take(i as int + 1);
            assert(next.drop_last() =~= all.take(i as int));
            assert(next.last() == a);
            if p(a) {
                assert(next.filter(p) == all.take(i as int).filter(p).push(a));
                assert(start + next.filter(p) =~= (start + all.take(i as int).filter(p)).push(a));
            }
        }
        if a.miner_address == miner {
            r.push(a);
        }
        i += 1;
    }
    assert(all.take(i as int) =~= all);
}

/// A partition that is given to a slot stays with its miner and is no longer spare; no other one
/// moves, and one that is not spare stays where it is.
pub proof fn law_given_partition_stays_with_its_miner(
    v: AssignmentsView,
    hash: H256,
    ledger: DataLedger,
    slot_index: usize,
    other: H256,
)
    ensures
        ({
            let after = given_to_slot(v, hash, ledger, slot_index);
            &&& v.capacity.contains_key(hash) ==> {
                &&& !after.capacity.contains_key(hash)
                &&& after.data.contains_key(hash)
                &&& after.data[hash].partition_hash == v.capacity[hash].partition_hash
                &&& after.data[hash].miner_address == v.capacity[hash].miner_address
                &&& after.data[hash].ledger == Some(ledger)
                &&& after.data[hash].slot_index == Some(slot_index)
            }
            &&& !v.capacity.contains_key(hash) ==> after == v
            &&& other != hash ==> {
                &&& after.data.contains_key(other) <==> v.data.contains_key(other)
                &&& after.capacity.contains_key(other) <==> v.capacity.contains_key(other)
                &&& v.data.contains_key(other) ==> after.data[other] == v.data[other]
                &&& v.capacity.contains_key(other) ==> after.capacity[other] == v.capacity[other]
            }
        }),
{
}

/// A partition that leaves its slot stays with its miner as a spare one; no other one moves, and
/// one that is in no slot stays where it is.
pub proof fn law_freed_partition_stays_with_its_miner(
    v: AssignmentsView,
    hash: H256,
    other: H256,
)
    ensures
        ({
            let after = freed(v, hash);
            &&& v.data.contains_key(hash) ==> {
                &&& !after.data.contains_key(hash)
                &&& after.capacity.contains_key(hash)
                &&& after.capacity[hash].partition_hash == v.data[hash].partition_hash
                &&& after.capacity[hash].miner_address == v.data[hash].miner_address
                &&& after.capacity[hash].ledger is None
                &&& after.capacity[hash].slot_index is None
            }
            &&& !v.data.contains_key(hash) ==> after == v
            &&& other != hash ==> {
                &&& after.data.contains_key(other) <==> v.data.contains_key(other)
                &&& after.capacity.contains_key(other) <==> v.capacity.contains_key(other)
                &&& v.data.contains_key(other) ==> after.data[other] == v.data[other]
                &&& v.capacity.contains_key(other) ==> after.capacity[other] == v.capacity[other]
            }
        }),
{
}

/// The assignments that are listed are those of the entries of which the condition holds, in the
/// order of the entries.
proof fn lemma_assignments_where(
    entries: Seq<(H256, PartitionAssignment)>,
    p: spec_fn(PartitionAssignment) -> bool,
    i: int,
)
    requires
        0 <= i < entries.len(),
    ensures
        assignments_where(entries, p).contains(entries[i].1) <==> p(entries[i].1),
        forall|a: PartitionAssignment| #[trigger]
            assignments_where(entries, p).contains(a) ==> p(a) && exists|k: int|
                0 <= k < entries.len() && (#[trigger] entries[k]).1 == a,
{
    let all = entries.map_values(|e: (H256, PartitionAssignment)| e.1);
    assert(all[i] == entries[i].1);
    if p(all[i]) {
        assert(all.filter(p).contains(all[i]));
    }
    assert forall|a: PartitionAssignment| #[trigger] assignments_where(entries, p).contains(a)
        implies p(a) && exists|k: int| 0 <= k < entries.len() && (#[trigger] entries[k]).1 == a by {
        let j = all.filter(p).index_of(a);
        lemma_filtered_comes_from(all, p, j);
        let k = choose|k: int| 0 <= k < all.len() && #[trigger] all[k] == all.filter(p)[j];
        assert(all[k] == entries[k].1);
    }
}

/// The assignments of a ledger are those in its slots, the lower slots first.
pub proof fn law_ledger_lists_its_slots_in_order(
    a: PartitionAssignments,
    ledger: DataLedger,
    r: Seq<BySlot>,
    i: int,
    j: int,
    k: int,
)
    requires
        placed(a@),
        a.wf(),
        ordered(
            all_by_slot(assignments_where(a.data_partitions.entries@, in_ledger(Some(ledger)))),
            r,
        ),
        0 <= i < j < r.len(),
        0 <= k < a.data_partitions.entries@.len(),
    ensures
        r[i].0.ledger == Some(ledger),
        r[j].0.ledger == Some(ledger),
        r[i].0.slot_index matches Some(low) && r[j].0.slot_index matches Some(high) && low <= high,
        a.data_partitions.entries@[k].1.ledger == Some(ledger) ==> r.contains(
            BySlot(a.data_partitions.entries@[k].1),
        ),
{
    let entries = a.data_partitions.entries@;
    let found = assignments_where(entries, in_ledger(Some(ledger)));
    let listed = all_by_slot(found);
    lemma_ordered_holds_the_same(listed, r);
    lemma_assignments_where(entries, in_ledger(Some(ledger)), k);
    lemma_listed_in_slot(a, ledger, r, i);
    lemma_listed_in_slot(a, ledger, r, j);
    if entries[k].1.ledger == Some(ledger) {
        let m = found.index_of(entries[k].1);
        assert(listed[m] == BySlot(entries[k].1));
    }
    let p = choose|p: Seq<int>| in_order(listed, r, p);
    assert(in_order(listed, r, p));
}

/// Whatever is listed for a ledger is in a slot of it.
proof fn lemma_listed_in_slot(
    a: PartitionAssignments,
    ledger: DataLedger,
    r: Seq<BySlot>,
    i: int,
)
    requires
        placed(a@),
        a.wf(),
        ordered(
            all_by_slot(assignments_where(a.data_partitions.entries@, in_ledger(Some(ledger)))),
            r,
        ),
        0 <= i < r.len(),
    ensures
        r[i].0.ledger == Some(ledger),
        r[i].0.slot_index is Some,
{
    let entries = a.data_partitions.entries@;
    let found = assignments_where(entries, in_ledger(Some(ledger)));
    let listed = all_by_slot(found);
    lemma_ordered_holds_the_same(listed, r);
    assert(r.contains(r[i]));
    let m = listed.index_of(r[i]);
    assert(found[m] == r[i].0);
    assert(found.contains(found[m]));
    assert(entries.len() > 0) by {
        if entries.len() == 0 {
            assert(entries.map_values(|e: (H256, PartitionAssignment)| e.1).len() == 0);
            lemma_filtered_comes_from(
                entries.map_values(|e: (H256, PartitionAssignment)| e.1),
                in_ledger(Some(ledger)),
                m,
            );
        }
    }
    lemma_assignments_where(entries, in_ledger(Some(ledger)), 0);
    let k = choose|k: int| 0 <= k < entries.len() && (#[trigger] entries[k]).1 == found[m];
    lemma_entry(entries, k);
    assert(a@.data.contains_key(entries[k].0));
}

/// A miner's assignments are those with its address, those in slots before the spare ones.
pub proof fn law_miner_has_the_partitions_with_its_address(
    a: PartitionAssignments,
    miner: IrysAddress,
    i: int,
    k: int,
)
    requires
        0 <= i < a.data_partitions.entries@.len(),
        0 <= k < a.capacity_partitions.entries@.len(),
    ensures
        ({
            let all = miner_assignments(a, miner);
            let slotted = assignments_where(a.data_partitions.entries@, of_miner(miner)).len();
            let data = a.data_partitions.entries@[i].1;
            let spare = a.capacity_partitions.entries@[k].1;
            &&& all.take(slotted as int).contains(data) <==> data.miner_address == miner
            &&& all.skip(slotted as int).contains(spare) <==> spare.miner_address == miner
            &&& forall|j: int| 0 <= j < all.len() ==> (#[trigger] all[j]).miner_address == miner
        }),
{
    let data = assignments_where(a.data_partitions.entries@, of_miner(miner));
    let spare = assignments_where(a.capacity_partitions.entries@, of_miner(miner));
    let all = miner_assignments(a, miner);
    lemma_assignments_where(a.data_partitions.entries@, of_miner(miner), i);
    lemma_assignments_where(a.capacity_partitions.entries@, of_miner(miner), k);
    assert(all.take(data.len() as int) =~= data);
    assert(all.skip(data.len() as int) =~= spare);
    assert forall|j: int| 0 <= j < all.len() implies (#[trigger] all[j]).miner_address == miner by {
        if j < data.len() {
            assert(data.contains(data[j]));
        } else {
            assert(spare.contains(spare[j - data.len()]));
        }
    }
}

} // verus!
