//! Which partitions the storage modules of a node hold.

use crate::epoch::partitions::{
    in_ledger, miner_assignments, PartitionAssignment, PartitionAssignments,
};
use crate::mempool::lru_caches::lemma_filtered_comes_from;
use crate::primitives::{DataLedger, IrysAddress};
use vstd::prelude::*;
use vstd::string::StringExecFns;

verus! {

/// A directory and the chunks of a partition that it holds.
#[derive(Clone, Debug)]
pub struct Submodule {
    /// The first chunk.
    pub start: u32,
    /// The chunk behind the last.
    pub end: u32,
    pub path: String,
}

/// A storage module and the partition that it holds.
#[derive(Debug)]
pub struct StorageModuleInfo {
    pub id: usize,
    pub partition_assignment: Option<PartitionAssignment>,
    pub submodules: Vec<Submodule>,
}

/// Whether module `m` is the `i`-th one, holds the partition as a whole and keeps it in the
/// directory.
pub open spec fn holds(
    m: StorageModuleInfo,
    i: int,
    assignment: PartitionAssignment,
    num_chunks: u32,
    path: Seq<char>,
) -> bool {
    &&& m.id == i
    &&& m.partition_assignment == Some(assignment)
    &&& m.submodules@.len() == 1
    &&& m.submodules@[0].start == 0
    &&& m.submodules@[0].end == num_chunks
    &&& m.submodules@[0].path@ == path
}

/// The partitions of a miner that hold data: those of the publish ledger, then those of the submit
/// ledger.
pub open spec fn data_assignments(a: PartitionAssignments, miner: IrysAddress) -> Seq<
    PartitionAssignment,
> {
    let all = miner_assignments(a, miner);
    all.filter(in_ledger(Some(DataLedger::Publish))) + all.filter(
        in_ledger(Some(DataLedger::Submit)),
    )
}

/// The partitions of a miner that modules hold when there are `modules` of them: those that hold
/// data, then free ones for the modules that are left.
pub open spec fn module_assignments(
    a: PartitionAssignments,
    miner: IrysAddress,
    modules: nat,
) -> Seq<PartitionAssignment> {
    let data = data_assignments(a, miner);
    let free = miner_assignments(a, miner).filter(in_ledger(None));
    if a.capacity_partitions.entries@.len() == 0 {
        data
    } else if free.len() <= modules - data.len() {
        data + free
    } else {
        data + free.take(modules - data.len())
    }
}

fn select(all: &Vec<PartitionAssignment>, ledger: Option<DataLedger>, r: &mut Vec<
    PartitionAssignment,
>)
    ensures
        final(r)@ == old(r)@ + all@.filter(in_ledger(ledger)),
{
    let ghost start = r@;
    let ghost p = in_ledger(ledger);
    let mut i: usize = 0;
    assert(start + all@.take(0).filter(p) =~= start) by {
        reveal(Seq::filter);
    }
    while i < all.len()
        invariant
            i <= all@.len(),
            p == in_ledger(ledger),
            r@ == start + all@.take(i as int).filter(p),
        decreases all@.len() - i,
    {
        let a = all[i];
        proof {
            reveal(Seq::filter);
            let next = all@.take(i as int + 1);
            assert(next.drop_last() =~= all@.take(i as int));
            if p(a) {
                assert(start + next.filter(p) =~= (start + all@.take(i as int).filter(p)).push(a));
            }
        }
        let matching = match (a.ledger, ledger) {
            (None, None) => true,
            (Some(x), Some(y)) => x == y,
            _ => false,
        };
        if matching {
            r.push(a);
        }
        i += 1;
    }
    assert(all@.take(i as int) =~= all@);
}

/// Spreads the partitions of a miner over its storage modules, one for each directory: first those
/// of the publish ledger, then those of the submit ledger, then free ones as long as there are
/// directories.
pub fn map_storage_modules_to_partition_assignments(
    assignments: &PartitionAssignments,
    miner_address: IrysAddress,
    num_chunks_in_partition: u64,
    submodule_paths: &Vec<String>,
) -> (r: Vec<StorageModuleInfo>)
    requires
        data_assignments(*assignments, miner_address).len() <= submodule_paths@.len(),
    ensures
        r@.len() == module_assignments(
            *assignments,
            miner_address,
            submodule_paths@.len(),
        ).len(),
        r@.len() <= submodule_paths@.len(),
        forall|i: int|
            0 <= i < r@.len() ==> holds(
                #[trigger] r@[i],
                i,
                module_assignments(*assignments, miner_address, submodule_paths@.len())[i],
                num_chunks_in_partition as u32,
                submodule_paths@[i]@,
            ),
{
    let all = assignments.get_partition_assignments(miner_address);
    let mut chosen: Vec<PartitionAssignment> = Vec::new();
    select(&all, Some(DataLedger::Publish), &mut chosen);
    select(&all, Some(DataLedger::Submit), &mut chosen);
    assert(chosen@ =~= data_assignments(*assignments, miner_address));
    if assignments.capacity_partitions.entries.len() > 0 {
        let ghost data = chosen@;
        let mut free: Vec<PartitionAssignment> = Vec::new();
        select(&all, None, &mut free);
        assert(free@ =~= all@.filter(in_ledger(None)));
        let remaining: usize = submodule_paths.len() - chosen.len();
        let mut i: usize = 0;
        assert(data + free@.take(0) =~= data);
        while i < free.len() && i < remaining
            invariant
                i <= free@.len(),
                i <= remaining,
                chosen@ == data + free@.take(i as int),
            decreases free@.len() - i,
        {
            chosen.push(free[i]);
            assert(chosen@ =~= data + free@.take(i as int + 1));
            i += 1;
        }
        assert(free@.take(free@.len() as int) =~= free@);
        assert(data + free@.take(0) =~= data);
    }
    let ghost want = module_assignments(*assignments, miner_address, submodule_paths@.len());
    assert(chosen@ == want);
    let num_chunks: u32 = #[verifier::truncate] (num_chunks_in_partition as u32);
    let mut r: Vec<StorageModuleInfo> = Vec::new();
    let mut i: usize = 0;
    while i < chosen.len()
        invariant
            i <= chosen@.len(),
            chosen@ == want,
            chosen@.len() <= submodule_paths@.len(),
            r@.len() == i,
            num_chunks == num_chunks_in_partition as u32,
            forall|j: int|
                0 <= j < i ==> holds(
                    #[trigger] r@[j],
                    j,
                    want[j],
                    num_chunks,
                    submodule_paths@[j]@,
                ),
        decreases chosen@.len() - i,
    {
        let mut submodules: Vec<Submodule> = Vec::new();
        let path = String::from_str(submodule_paths[i].as_str());
        submodules.push(Submodule { start: 0, end: num_chunks, path });
        r.push(
            StorageModuleInfo { id: i, partition_assignment: Some(chosen[i]), submodules },
        );
        i += 1;
    }
    r
}

/// Whatever a module gets is the miner's; what is in Publish comes before what is in Submit, and
/// that before what is spare. No more is given than there are modules.
pub proof fn law_modules_take_data_before_spare_partitions(
    a: PartitionAssignments,
    miner: IrysAddress,
    modules: nat,
    i: int,
    j: int,
)
    requires
        data_assignments(a, miner).len() <= modules,
        0 <= i < j < module_assignments(a, miner, modules).len(),
    ensures
        ({
            let r = module_assignments(a, miner, modules);
            &&& r.len() <= modules
            &&& miner_assignments(a, miner).contains(r[i])
            &&& miner_assignments(a, miner).contains(r[j])
            &&& r[j].ledger == Some(DataLedger::Publish) ==> r[i].ledger == Some(
                DataLedger::Publish,
            )
            &&& r[j].ledger == Some(DataLedger::Submit) ==> r[i].ledger is Some
            &&& r[i].ledger is None || r[i].ledger == Some(DataLedger::Publish) || r[i].ledger
                == Some(DataLedger::Submit)
            &&& r[j].ledger is None || r[j].ledger == Some(DataLedger::Publish) || r[j].ledger
                == Some(DataLedger::Submit)
        }),
{
    lemma_module_assignment(a, miner, modules, i);
    lemma_module_assignment(a, miner, modules, j);
}

/// Where a module's assignment comes from.
proof fn lemma_module_assignment(
    a: PartitionAssignments,
    miner: IrysAddress,
    modules: nat,
    i: int,
)
    requires
        data_assignments(a, miner).len() <= modules,
        0 <= i < module_assignments(a, miner, modules).len(),
    ensures
        ({
            let all = miner_assignments(a, miner);
            let r = module_assignments(a, miner, modules);
            let publish = all.filter(in_ledger(Some(DataLedger::Publish))).len();
            let data = data_assignments(a, miner).len();
            &&& all.contains(r[i])
            &&& i < publish ==> r[i].ledger == Some(DataLedger::Publish)
            &&& publish <= i < data ==> r[i].ledger == Some(DataLedger::Submit)
            &&& i >= data ==> r[i].ledger is None
        }),
{
    let all = miner_assignments(a, miner);
    let r = module_assignments(a, miner, modules);
    let publish = all.filter(in_ledger(Some(DataLedger::Publish)));
    let submit = all.filter(in_ledger(Some(DataLedger::Submit)));
    let free = all.filter(in_ledger(None));
    let data = data_assignments(a, miner);
    if i < publish.len() {
        assert(r[i] == publish[i]);
        lemma_filtered_comes_from(all, in_ledger(Some(DataLedger::Publish)), i);
    } else if i < data.len() {
        assert(r[i] == submit[i - publish.len()]);
        lemma_filtered_comes_from(
            all,
            in_ledger(Some(DataLedger::Submit)),
            i - publish.len(),
        );
    } else {
        assert(r[i] == free[i - data.len()]);
        lemma_filtered_comes_from(all, in_ledger(None), i - data.len());
    }
}

/// Every partition of the miner in Publish or Submit gets a module, and a spare one gets one unless
/// all modules are taken.
pub proof fn law_no_module_is_left_empty_in_vain(
    a: PartitionAssignments,
    miner: IrysAddress,
    modules: nat,
    x: PartitionAssignment,
)
    requires
        data_assignments(a, miner).len() <= modules,
        miner_assignments(a, miner).contains(x),
    ensures
        ({
            let r = module_assignments(a, miner, modules);
            &&& x.ledger == Some(DataLedger::Publish) || x.ledger == Some(DataLedger::Submit)
                ==> r.contains(x)
            &&& x.ledger is None && a.capacity_partitions.entries@.len() > 0 ==> r.contains(x)
                || r.len() == modules
        }),
{
    let all = miner_assignments(a, miner);
    let r = module_assignments(a, miner, modules);
    let publish = all.filter(in_ledger(Some(DataLedger::Publish)));
    let submit = all.filter(in_ledger(Some(DataLedger::Submit)));
    let free = all.filter(in_ledger(None));
    let data = data_assignments(a, miner);
    if x.ledger == Some(DataLedger::Publish) {
        assert(in_ledger(Some(DataLedger::Publish))(x));
        assert(publish.contains(x));
        let k = publish.index_of(x);
        assert(publish[k] == x);
        assert(data == publish + submit);
        assert(data[k] == x);
        assert(r[k] == x);
    } else if x.ledger == Some(DataLedger::Submit) {
        assert(in_ledger(Some(DataLedger::Submit))(x));
        assert(submit.contains(x));
        let k = submit.index_of(x);
        assert(submit[k] == x);
        assert(data == publish + submit);
        assert(data[publish.len() + k] == x);
        assert(r[publish.len() + k] == x);
    } else if x.ledger is None && a.capacity_partitions.entries@.len() > 0 {
        assert(in_ledger(None)(x));
        assert(free.contains(x));
        let k = free.index_of(x);
        if free.len() <= modules - data.len() {
            assert(r[data.len() + k] == x);
        }
    }
}

/// A module has the place of its assignment as its id, and one submodule, which holds the whole
/// partition at the module's path.
pub proof fn law_module_holds_the_whole_partition(
    m: StorageModuleInfo,
    i: int,
    assignment: PartitionAssignment,
    num_chunks: u32,
    path: Seq<char>,
)
    requires
        holds(m, i, assignment, num_chunks, path),
    ensures
        m.id == i,
        m.partition_assignment == Some(assignment),
        m.submodules@.len() == 1,
        m.submodules@[0].start == 0,
        m.submodules@[0].end == num_chunks,
        m.submodules@[0].path@ == path,
{
}

} // verus!
