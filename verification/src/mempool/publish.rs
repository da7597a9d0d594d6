//! Which data transactions are promoted to permanent storage, and with which proofs.

use crate::data_sync::address_set::AddressSet;
use crate::mempool::anchors::{
    lowered, validate_ingress_proof_anchor_for_inclusion, AnchorLookup,
};
use crate::mempool::errors::{TxIngressError, TxIngressErrorView};
use crate::mempool::lru_caches::lemma_filtered_comes_from;
use crate::mempool::priority::{
    in_order, lemma_ordered_holds_the_same, ordered, sort, Prioritized,
};
use crate::ordered_map::OrderedMap;
use crate::primitives::{H256, IrysAddress, OrderedKey};
use crate::transactions::DataTransactionHeader;
use vstd::prelude::*;

verus! {

/// A miner's proof that it holds a transaction's data.
#[derive(Clone, Copy, Debug, PartialEq, Eq, Structural)]
pub struct IngressProof {
    pub data_root: H256,
    /// The proof itself, which tells one proof from another.
    pub proof: H256,
    pub anchor: H256,
    pub chain_id: u64,
}

/// A proof with the address of the miner that signed it.
#[derive(Clone, Copy, Debug, PartialEq, Eq, Structural)]
pub struct CachedIngressProof {
    pub address: IrysAddress,
    pub proof: IngressProof,
}

/// A proof of the database with what is known of it.
#[derive(Clone, Debug)]
pub struct ProofCandidate {
    pub cached: CachedIngressProof,
    pub expired_or_invalid: bool,
    pub anchor: AnchorLookup,
}

/// What the database keeps of a data root.
#[derive(Clone, Copy, Debug, PartialEq, Eq, Structural)]
pub struct CachedDataRoot {
    pub data_size: u64,
    /// Whether the size has been confirmed by the last chunk.
    pub data_size_confirmed: bool,
}

/// A data transaction that has proofs, with what is known of it.
#[derive(Debug)]
pub struct PublishCandidate {
    pub tx: DataTransactionHeader,
    /// Whether a block of the database includes the transaction.
    pub in_database: bool,
    pub proofs: Vec<ProofCandidate>,
}

/// A data transaction with the proofs that may promote it.
#[derive(Debug)]
pub struct PromotionRequest {
    pub tx: DataTransactionHeader,
    pub proofs: Vec<CachedIngressProof>,
}

/// Which of the proofs come from miners that were assigned to the data, and how many such miners
/// there are.
#[derive(Debug)]
pub struct ProofAssignment {
    pub assigned_proofs: Vec<IngressProof>,
    pub assigned_miners: usize,
}

/// The transactions to promote, with the proofs of all of them.
#[derive(Debug)]
pub struct PublishLedgerWithTxs {
    pub txs: Vec<DataTransactionHeader>,
    /// The proofs, if there are any.
    pub proofs: Option<Vec<IngressProof>>,
}

/// A transaction in the order of its id.
#[derive(Clone, Copy, Debug)]
pub struct ById(pub DataTransactionHeader);

impl Prioritized for ById {
    open spec fn before(self, other: Self) -> bool {
        self.0.id.rank() < other.0.id.rank()
    }

    proof fn before_is_asymmetric(a: Self, b: Self) {
    }

    proof fn before_is_negatively_transitive(a: Self, b: Self, c: Self) {
    }

    fn comes_before(&self, other: &Self) -> (r: bool) {
        self.0.id.precedes(&other.0.id)
    }
}

/// Whether the transaction has the size that its data is known to have.
pub open spec fn size_agrees(
    tx: DataTransactionHeader,
    roots: Map<H256, CachedDataRoot>,
) -> bool {
    roots.contains_key(tx.data_root) && roots[tx.data_root].data_size_confirmed ==> tx.data_size
        == roots[tx.data_root].data_size
}

/// The transactions, each by its id.
pub open spec fn all_by_id(s: Seq<DataTransactionHeader>) -> Seq<ById> {
    s.map_values(|tx: DataTransactionHeader| ById(tx))
}

/// `r` is the transactions of `s` in the order of their ids, without those whose size is wrong.
pub open spec fn candidates_in_order(
    s: Seq<DataTransactionHeader>,
    r: Seq<DataTransactionHeader>,
    roots: Map<H256, CachedDataRoot>,
) -> bool {
    exists|by_id: Seq<ById>|
        {
            &&& #[trigger] ordered(all_by_id(s), by_id)
            &&& r == by_id.map_values(|t: ById| t.0).filter(
                |tx: DataTransactionHeader| size_agrees(tx, roots),
            )
        }
}

/// The transactions that may be promoted, in the order of their ids: those whose size is known to
/// be wrong are left out.
pub fn publish_candidates(
    txs: &Vec<DataTransactionHeader>,
    roots: &OrderedMap<H256, CachedDataRoot>,
) -> (r: Vec<DataTransactionHeader>)
    requires
        roots.wf(),
    ensures
        candidates_in_order(txs@, r@, roots@),
{
    let mut unsorted: Vec<ById> = Vec::new();
    let mut i: usize = 0;
    while i < txs.len()
        invariant
            i <= txs@.len(),
            unsorted@.len() == i,
            forall|j: int| 0 <= j < i ==> #[trigger] unsorted@[j] == ById(txs@[j]),
        decreases txs@.len() - i,
    {
        unsorted.push(ById(txs[i]));
        i += 1;
    }
    assert(unsorted@ =~= all_by_id(txs@));
    let by_id = sort(&unsorted);
    let ghost all = by_id@.map_values(|t: ById| t.0);
    let ghost p = |tx: DataTransactionHeader| size_agrees(tx, roots@);
    let mut r: Vec<DataTransactionHeader> = Vec::new();
    let mut k: usize = 0;
    assert(all.take(0).filter(p) =~= Seq::empty()) by {
        reveal(Seq::filter);
    }
    while k < by_id.len()
        invariant
            k <= by_id@.len(),
            roots.wf(),
            all == by_id@.map_values(|t: ById| t.0),
            p == (|tx: DataTransactionHeader| size_agrees(tx, roots@)),
            r@ == all.take(k as int).filter(p),
        decreases by_id@.len() - k,
    {
        let tx = by_id[k].0;
        proof {
            reveal(Seq::filter);
            assert(all.take(k as int + 1).drop_last() =~= all.take(k as int));
            assert(all.take(k as int + 1).last() == tx);
        }
        let keep = match roots.get(&tx.data_root) {
            None => true,
            Some(root) => !root.data_size_confirmed || tx.data_size == root.data_size,
        };
        if keep {
            r.push(tx);
        }
        k += 1;
    }
    assert(all.take(k as int) =~= all);
    r
}

/// Whether a block includes the transaction: one of the canonical chain, the one that is being
/// made, or one of the database.
pub open spec fn submitted(
    id: H256,
    canonical: Map<H256, ()>,
    submit_tx: Seq<DataTransactionHeader>,
    in_database: bool,
) -> bool {
    ||| canonical.contains_key(id)
    ||| exists|i: int| 0 <= i < submit_tx.len() && (#[trigger] submit_tx[i]).id == id
    ||| in_database
}

/// Whether a block includes the transaction: one of the canonical chain, the one that is being
/// made, or one of the database.
pub fn has_submit_inclusion(
    id: H256,
    canonical: &OrderedMap<H256, ()>,
    submit_tx: &Vec<DataTransactionHeader>,
    in_database: bool,
) -> (r: bool)
    requires
        canonical.wf(),
    ensures
        r == submitted(id, canonical@, submit_tx@, in_database),
{
    if canonical.contains_key(&id) {
        return true;
    }
    let mut i: usize = 0;
    while i < submit_tx.len()
        invariant
            i <= submit_tx@.len(),
            forall|j: int| 0 <= j < i ==> (#[trigger] submit_tx@[j]).id != id,
        decreases submit_tx@.len() - i,
    {
        if submit_tx[i].id == id {
            assert(submit_tx@[i as int].id == id);
            return true;
        }
        i += 1;
    }
    in_database
}

/// The proofs that have not expired, the first of each miner.
pub open spec fn current_proofs(proofs: Seq<ProofCandidate>) -> Seq<ProofCandidate>
    decreases proofs.len(),
{
    if proofs.len() == 0 {
        Seq::empty()
    } else {
        let before = current_proofs(proofs.drop_last());
        let p = proofs.last();
        if p.expired_or_invalid || has_signer(before, p.cached.address) {
            before
        } else {
            before.push(p)
        }
    }
}

/// Whether one of the proofs is the miner's.
pub open spec fn has_signer(proofs: Seq<ProofCandidate>, a: IrysAddress) -> bool {
    exists|i: int| 0 <= i < proofs.len() && (#[trigger] proofs[i]).cached.address == a
}

/// Whether the search for the proof's anchor failed.
pub open spec fn anchor_failed(p: ProofCandidate) -> bool {
    p.anchor is Failed
}

/// Whether the proof's anchor is young enough.
pub open spec fn anchor_young(p: ProofCandidate, min_anchor_height: u64) -> bool {
    p.anchor matches AnchorLookup::Height(h) && h >= min_anchor_height
}

/// The proofs whose anchor is young enough.
pub open spec fn young_proofs(proofs: Seq<ProofCandidate>, min_anchor_height: u64) -> Seq<
    CachedIngressProof,
> {
    proofs.filter(|p: ProofCandidate| anchor_young(p, min_anchor_height)).map_values(
        |p: ProofCandidate| p.cached,
    )
}

/// Whether the error is that of the first proof for whose anchor the search failed.
pub open spec fn fails_with(proofs: Seq<ProofCandidate>, e: TxIngressError) -> bool {
    exists|i: int|
        {
            &&& 0 <= i < proofs.len()
            &&& (#[trigger] proofs[i]).anchor matches AnchorLookup::Failed(reason)
            &&& e matches TxIngressError::DatabaseError(m)
            &&& m@ == reason@
            &&& forall|j: int| 0 <= j < i ==> !anchor_failed(#[trigger] proofs[j])
        }
}

/// The proofs that may promote a transaction: those that have not expired, the first of each
/// miner, if there are as many as are needed, and of those the ones whose anchor is young enough.
/// Fails if the search for an anchor does.
pub fn usable_proofs(
    proofs: &Vec<ProofCandidate>,
    proofs_per_tx: usize,
    min_anchor_height: u64,
) -> (r: Result<Option<Vec<CachedIngressProof>>, TxIngressError>)
    ensures
        ({
            let current = current_proofs(proofs@);
            match r {
                Ok(None) => current.len() < proofs_per_tx,
                Ok(Some(usable)) => {
                    &&& current.len() >= proofs_per_tx
                    &&& forall|i: int|
                        0 <= i < current.len() ==> !anchor_failed(#[trigger] current[i])
                    &&& usable@ == young_proofs(current, min_anchor_height)
                },
                Err(e) => current.len() >= proofs_per_tx && fails_with(current, e),
            }
        }),
{
    let mut seen: AddressSet = AddressSet::new();
    let mut kept: Vec<usize> = Vec::new();
    let mut i: usize = 0;
    while i < proofs.len()
        invariant
            i <= proofs@.len(),
            kept@.len() == current_proofs(proofs@.take(i as int)).len(),
            forall|k: int|
                0 <= k < kept@.len() ==> (#[trigger] kept@[k]) < i && proofs@[kept@[k] as int]
                    == current_proofs(proofs@.take(i as int))[k],
            forall|a: IrysAddress| #[trigger]
                seen@.contains(a) <==> has_signer(current_proofs(proofs@.take(i as int)), a),
        decreases proofs@.len() - i,
    {
        let ghost before = current_proofs(proofs@.take(i as int));
        let ghost was_seen = seen@;
        proof {
            assert(proofs@.take(i as int + 1).drop_last() =~= proofs@.take(i as int));
        }
        let address = proofs[i].cached.address;
        if !proofs[i].expired_or_invalid && !seen.contains(address) {
            seen.insert(address);
            kept.push(i);
            proof {
                let after = current_proofs(proofs@.take(i as int + 1));
                assert(after == before.push(proofs@[i as int]));
                assert forall|a: IrysAddress| #[trigger] seen@.contains(a) <==> has_signer(
                    after,
                    a,
                ) by {
                    assert(was_seen.contains(a) <==> has_signer(before, a));
                    if has_signer(before, a) {
                        let k = choose|k: int|
                            0 <= k < before.len() && (#[trigger] before[k]).cached.address == a;
                        assert(after[k].cached.address == a);
                    }
                    if a == address {
                        assert(after[before.len() as int].cached.address == a);
                    }
                    if has_signer(after, a) {
                        let k = choose|k: int|
                            0 <= k < after.len() && (#[trigger] after[k]).cached.address == a;
                        if k < before.len() {
                            assert(before[k].cached.address == a);
                        }
                    }
                }
            }
        }
        i += 1;
    }
    assert(proofs@.take(i as int) =~= proofs@);
    let ghost current = current_proofs(proofs@);
    if kept.len() < proofs_per_tx {
        return Ok(None);
    }
    let mut usable: Vec<CachedIngressProof> = Vec::new();
    let mut n: usize = 0;
    assert(young_proofs(current.take(0), min_anchor_height) =~= Seq::empty()) by {
        reveal(Seq::filter);
    }
    while n < kept.len()
        invariant
            n <= kept@.len(),
            kept@.len() == current.len(),
            current == current_proofs(proofs@),
            current.len() >= proofs_per_tx,
            forall|k: int|
                0 <= k < kept@.len() ==> (#[trigger] kept@[k]) < proofs@.len()
                    && proofs@[kept@[k] as int] == current[k],
            forall|k: int| 0 <= k < n ==> !anchor_failed(#[trigger] current[k]),
            usable@ == young_proofs(current.take(n as int), min_anchor_height),
        decreases kept@.len() - n,
    {
        assert(kept@[n as int] < proofs@.len());
        let p = &proofs[kept[n]];
        assert(*p == current[n as int]);
        proof {
            reveal(Seq::filter);
            let young = |p: ProofCandidate| anchor_young(p, min_anchor_height);
            let next = current.take(n as int + 1);
            assert(next.drop_last() =~= current.take(n as int));
            assert(next.last() == *p);
            let cached = |p: ProofCandidate| p.cached;
            if anchor_young(*p, min_anchor_height) {
                assert(next.filter(young) == current.take(n as int).filter(young).push(*p));
                assert(young_proofs(next, min_anchor_height) =~= young_proofs(
                    current.take(n as int),
                    min_anchor_height,
                ).push(p.cached));
            } else {
                assert(next.filter(young) == current.take(n as int).filter(young));
            }
        }
        match validate_ingress_proof_anchor_for_inclusion(min_anchor_height, &p.anchor) {
            Ok(young) => {
                if young {
                    usable.push(p.cached);
                }
            },
            Err(e) => {
                assert(current[n as int].anchor is Failed);
                return Err(e);
            },
        }
        n += 1;
    }
    assert(current.take(n as int) =~= current);
    Ok(Some(usable))
}

/// No miner has two proofs among those that may promote a transaction.
pub proof fn law_each_miner_counts_once(proofs: Seq<ProofCandidate>, i: int, j: int)
    requires
        0 <= i < j < current_proofs(proofs).len(),
    ensures
        current_proofs(proofs)[i].cached.address != current_proofs(proofs)[j].cached.address,
    decreases proofs.len(),
{
    let rest = proofs.drop_last();
    let before = current_proofs(rest);
    if j < before.len() {
        law_each_miner_counts_once(rest, i, j);
    } else {
        assert(!has_signer(before, proofs.last().cached.address));
        assert(before[i].cached.address != proofs.last().cached.address);
    }
}

proof fn lemma_filter_keeps_apart<T>(
    s: Seq<T>,
    p: spec_fn(T) -> bool,
    signer: spec_fn(T) -> IrysAddress,
)
    requires
        forall|i: int, j: int|
            0 <= i < j < s.len() ==> #[trigger] signer(s[i]) != #[trigger] signer(s[j]),
    ensures
        forall|i: int, j: int|
            0 <= i < j < s.filter(p).len() ==> #[trigger] signer(s.filter(p)[i])
                != #[trigger] signer(s.filter(p)[j]),
        forall|i: int|
            0 <= i < s.filter(p).len() ==> s.contains(#[trigger] s.filter(p)[i]) && p(
                s.filter(p)[i],
            ),
    decreases s.len(),
{
    reveal(Seq::filter);
    if s.len() > 0 {
        let rest = s.drop_last();
        assert forall|i: int, j: int| 0 <= i < j < rest.len() implies #[trigger] signer(rest[i])
            != #[trigger] signer(rest[j]) by {
            assert(signer(s[i]) != signer(s[j]));
        }
        lemma_filter_keeps_apart(rest, p, signer);
        let kept = rest.filter(p);
        assert(s[s.len() - 1] == s.last());
        assert forall|i: int| 0 <= i < kept.len() implies s.contains(#[trigger] kept[i]) && signer(
            kept[i],
        ) != signer(s.last()) by {
            let k = rest.index_of(kept[i]);
            assert(s[k] == kept[i]);
            assert(signer(s[k]) != signer(s[s.len() - 1]));
        }
    }
}

/// Whether each of the proofs `chosen` is one of `proofs`, and no two are those of one signer.
pub open spec fn signed_apart(
    chosen: Seq<IngressProof>,
    proofs: Seq<CachedIngressProof>,
) -> bool {
    exists|signed: Seq<CachedIngressProof>|
        {
            &&& signed.len() == chosen.len()
            &&& forall|i: int|
                0 <= i < signed.len() ==> proofs.contains(#[trigger] signed[i]) && signed[i].proof
                    == chosen[i]
            &&& #[trigger] different_signers(signed)
        }
}

/// Whether no two of the proofs have one signer.
pub open spec fn different_signers(proofs: Seq<CachedIngressProof>) -> bool {
    forall|i: int, j: int|
        0 <= i < j < proofs.len() ==> (#[trigger] proofs[i]).address != (
        #[trigger] proofs[j]).address
}

/// Whether the assigned proofs are different ones of `proofs`.
pub open spec fn assigned_from(
    assigned: Seq<IngressProof>,
    proofs: Seq<CachedIngressProof>,
) -> bool {
    &&& assigned.no_duplicates()
    &&& forall|i: int| 0 <= i < assigned.len() ==> is_proof_of(proofs, #[trigger] assigned[i])
}

/// Whether `p` is one of the proofs.
pub open spec fn is_proof_of(proofs: Seq<CachedIngressProof>, p: IngressProof) -> bool {
    exists|k: int| 0 <= k < proofs.len() && (#[trigger] proofs[k]).proof == p
}

/// The proofs that may promote a transaction have different signers.
pub proof fn law_usable_proofs_have_different_signers(
    candidates: Seq<ProofCandidate>,
    min_anchor_height: u64,
)
    ensures
        different_signers(young_proofs(current_proofs(candidates), min_anchor_height)),
{
    let current = current_proofs(candidates);
    let signer = |p: ProofCandidate| p.cached.address;
    let young = |p: ProofCandidate| anchor_young(p, min_anchor_height);
    assert forall|i: int, j: int| 0 <= i < j < current.len() implies #[trigger] signer(current[i])
        != #[trigger] signer(current[j]) by {
        law_each_miner_counts_once(candidates, i, j);
    }
    lemma_filter_keeps_apart(current, young, signer);
    let usable = young_proofs(current, min_anchor_height);
    assert forall|i: int, j: int| 0 <= i < j < usable.len() implies (#[trigger] usable[i]).address
        != (#[trigger] usable[j]).address by {
        assert(signer(current.filter(young)[i]) != signer(current.filter(young)[j]));
    }
}

/// The proofs that promote a transaction come from different signers, where those of the request
/// do and the assigned ones are different proofs of the request.
pub proof fn law_promoting_proofs_have_different_signers(
    proofs: Seq<CachedIngressProof>,
    assigned: Seq<IngressProof>,
    assigned_miners: usize,
    from_assignees: usize,
    total: usize,
    staked: Set<IrysAddress>,
)
    requires
        different_signers(proofs),
        assigned_from(assigned, proofs),
    ensures
        promoting_proofs(
            proofs,
            assigned,
            assigned_miners,
            from_assignees,
            total,
            staked,
        ) matches Some(chosen) ==> signed_apart(chosen, proofs),
{
    if let Some(chosen) = promoting_proofs(
        proofs,
        assigned,
        assigned_miners,
        from_assignees,
        total,
        staked,
    ) {
        let open = |c: CachedIngressProof|
            !has_proof(assigned, c.proof.proof) && staked.contains(c.address);
        let signer = |c: CachedIngressProof| c.address;
        assert forall|i: int, j: int| 0 <= i < j < proofs.len() implies #[trigger] signer(proofs[i])
            != #[trigger] signer(proofs[j]) by {}
        lemma_filter_keeps_apart(proofs, open, signer);
        let others = proofs.filter(open);
        let held = Seq::new(
            assigned.len(),
            |i: int|
                proofs[choose|k: int|
                    0 <= k < proofs.len() && (#[trigger] proofs[k]).proof == assigned[i]],
        );
        assert forall|i: int| 0 <= i < held.len() implies proofs.contains(#[trigger] held[i])
            && held[i].proof == assigned[i] by {
            assert(is_proof_of(proofs, assigned[i]));
            let k = choose|k: int|
                0 <= k < proofs.len() && (#[trigger] proofs[k]).proof == assigned[i];
            assert(held[i] == proofs[k]);
        }
        let all = held + others;
        let signed = all.take(total as int);
        assert forall|i: int| 0 <= i < all.len() implies proofs.contains(#[trigger] all[i])
            && all[i].proof == (assigned + unassigned_proofs(proofs, assigned, staked))[i] by {
            if i < held.len() {
                assert(all[i] == held[i]);
            } else {
                assert(all[i] == others[i - held.len()]);
            }
        }
        assert forall|i: int, j: int| 0 <= i < j < signed.len() implies (
        #[trigger] signed[i]).address != (#[trigger] signed[j]).address by {
            assert(signed[i] == all[i] && signed[j] == all[j]);
            assert(proofs.contains(all[i]) && proofs.contains(all[j]));
            let k = proofs.index_of(all[i]);
            let l = proofs.index_of(all[j]);
            if j < held.len() {
                assert(assigned[i] != assigned[j]);
            } else if i < held.len() {
                let c = others[j - held.len()];
                assert(open(c));
                assert(assigned[i].proof != c.proof.proof);
            } else {
                assert(signer(others[i - held.len()]) != signer(others[j - held.len()]));
            }
        }
        assert(different_signers(signed));
        assert forall|i: int| 0 <= i < signed.len() implies proofs.contains(#[trigger] signed[i])
            && signed[i].proof == chosen[i] by {
            assert(signed[i] == all[i]);
        }
        assert(signed.len() == chosen.len());
        assert(signed_apart(chosen, proofs));
    }
}

/// Whether one of the proofs is `p`.
pub open spec fn has_proof(proofs: Seq<IngressProof>, p: H256) -> bool {
    exists|i: int| 0 <= i < proofs.len() && (#[trigger] proofs[i]).proof == p
}

/// The proofs that come from no assigned miner but from one that has staked.
pub open spec fn unassigned_proofs(
    proofs: Seq<CachedIngressProof>,
    assigned: Seq<IngressProof>,
    staked: Set<IrysAddress>,
) -> Seq<IngressProof> {
    proofs.filter(
        |c: CachedIngressProof| !has_proof(assigned, c.proof.proof) && staked.contains(c.address),
    ).map_values(|c: CachedIngressProof| c.proof)
}

/// The proofs that promote a transaction: those of assigned miners first, then those of others
/// that have staked, as many as the network asks for. There are none if too few come from assigned
/// miners, of whom no more are asked than there are, or if there are too few in all.
pub open spec fn promoting_proofs(
    proofs: Seq<CachedIngressProof>,
    assigned: Seq<IngressProof>,
    assigned_miners: usize,
    from_assignees: usize,
    total: usize,
    staked: Set<IrysAddress>,
) -> Option<Seq<IngressProof>> {
    let expected = if assigned_miners < from_assignees {
        assigned_miners
    } else {
        from_assignees
    };
    let all = assigned + unassigned_proofs(proofs, assigned, staked);
    if assigned.len() < expected || all.len() < total {
        None
    } else {
        Some(all.take(total as int))
    }
}

fn find_proof(proofs: &Vec<IngressProof>, p: H256) -> (r: bool)
    ensures
        r == has_proof(proofs@, p),
{
    let mut i: usize = 0;
    while i < proofs.len()
        invariant
            i <= proofs@.len(),
            forall|j: int| 0 <= j < i ==> (#[trigger] proofs@[j]).proof != p,
        decreases proofs@.len() - i,
    {
        if proofs[i].proof == p {
            assert(proofs@[i as int].proof == p);
            return true;
        }
        i += 1;
    }
    false
}

/// The proofs that promote a transaction, if there are enough.
pub fn choose_proofs(
    proofs: &Vec<CachedIngressProof>,
    assignment: &ProofAssignment,
    from_assignees: usize,
    total: usize,
    staked: &AddressSet,
) -> (r: Option<Vec<IngressProof>>)
    ensures
        match promoting_proofs(
            proofs@,
            assignment.assigned_proofs@,
            assignment.assigned_miners,
            from_assignees,
            total,
            staked@,
        ) {
            Some(chosen) => r matches Some(v) && v@ == chosen,
            None => r is None,
        },
{
    let ghost assigned = assignment.assigned_proofs@;
    let ghost unassigned = unassigned_proofs(proofs@, assigned, staked@);
    let mut expected: usize = from_assignees;
    if assignment.assigned_miners < expected {
        expected = assignment.assigned_miners;
    }
    if assignment.assigned_proofs.len() < expected {
        return None;
    }
    let mut chosen: Vec<IngressProof> = Vec::new();
    let mut i: usize = 0;
    while i < assignment.assigned_proofs.len() && chosen.len() < total
        invariant
            i <= assigned.len(),
            assigned == assignment.assigned_proofs@,
            chosen@.len() == i,
            chosen@ == assigned.take(i as int),
            i <= total,
        decreases assigned.len() - i,
    {
        chosen.push(assignment.assigned_proofs[i]);
        assert(assigned.take(i as int + 1) =~= assigned.take(i as int).push(assigned[i as int]));
        i += 1;
    }
    let ghost p = |c: CachedIngressProof|
        !has_proof(assigned, c.proof.proof) && staked@.contains(c.address);
    let ghost f = |c: CachedIngressProof| c.proof;
    let ghost head = chosen@;
    let mut k: usize = 0;
    assert(proofs@.take(0).filter(p).map_values(f) =~= Seq::empty()) by {
        reveal(Seq::filter);
    }
    assert(head + Seq::<IngressProof>::empty() =~= head);
    while k < proofs.len() && chosen.len() < total
        invariant
            k <= proofs@.len(),
            assigned == assignment.assigned_proofs@,
            p == (|c: CachedIngressProof|
                !has_proof(assigned, c.proof.proof) && staked@.contains(c.address)),
            f == (|c: CachedIngressProof| c.proof),
            chosen@.len() <= total,
            chosen@ == head + proofs@.take(k as int).filter(p).map_values(f),
        decreases proofs@.len() - k,
    {
        let c = proofs[k];
        proof {
            reveal(Seq::filter);
            let next = proofs@.take(k as int + 1);
            assert(next.drop_last() =~= proofs@.take(k as int));
            assert(next.last() == c);
            if p(c) {
                assert(next.filter(p) == proofs@.take(k as int).filter(p).push(c));
                assert(next.filter(p).map_values(f) =~= proofs@.take(k as int).filter(
                    p,
                ).map_values(f).push(c.proof));
            }
        }
        let ghost before = chosen@;
        if !find_proof(&assignment.assigned_proofs, c.proof.proof) && staked.contains(c.address) {
            chosen.push(c.proof);
            assert(chosen@ =~= head + proofs@.take(k as int + 1).filter(p).map_values(f));
        }
        k += 1;
    }
    proof {
        let so_far = proofs@.take(k as int).filter(p).map_values(f);
        lemma_filter_prefix(proofs@, k as int, p);
        assert(so_far.len() <= unassigned.len());
        assert(so_far =~= unassigned.take(so_far.len() as int));
        if i < assigned.len() {
            assert(head.len() == total);
            assert(so_far.len() == 0);
            assert(chosen@ =~= (assigned + unassigned).take(total as int));
        } else {
            assert(head =~= assigned);
            if k == proofs@.len() {
                assert(proofs@.take(k as int) =~= proofs@);
                assert(so_far =~= unassigned);
            }
            if chosen@.len() == total {
                assert(chosen@ =~= (assigned + unassigned).take(total as int));
            }
        }
    }
    if chosen.len() < total {
        return None;
    }
    Some(chosen)
}

/// Filtering the first elements gives the first of what passes.
proof fn lemma_filter_prefix<A>(s: Seq<A>, n: int, p: spec_fn(A) -> bool)
    requires
        0 <= n <= s.len(),
    ensures
        s.take(n).filter(p).len() <= s.filter(p).len(),
        s.filter(p).take(s.take(n).filter(p).len() as int) == s.take(n).filter(p),
    decreases s.len() - n,
{
    reveal(Seq::filter);
    if n < s.len() {
        lemma_filter_prefix(s, n + 1, p);
        assert(s.take(n + 1).drop_last() =~= s.take(n));
        let short = s.take(n).filter(p);
        let long = s.take(n + 1).filter(p);
        assert(short =~= long.take(short.len() as int));
        assert(s.filter(p).take(short.len() as int) =~= short);
    } else {
        assert(s.take(n) =~= s);
        assert(s.filter(p).take(s.filter(p).len() as int) =~= s.filter(p));
    }
}

/// A transaction is promoted with exactly as many proofs as the network asks for.
pub proof fn law_promotion_has_all_its_proofs(
    proofs: Seq<CachedIngressProof>,
    assigned: Seq<IngressProof>,
    assigned_miners: usize,
    from_assignees: usize,
    total: usize,
    staked: Set<IrysAddress>,
)
    ensures
        promoting_proofs(
            proofs,
            assigned,
            assigned_miners,
            from_assignees,
            total,
            staked,
        ) matches Some(chosen) ==> chosen.len() == total && forall|i: int|
            0 <= i < total && i < assigned.len() ==> chosen[i] == assigned[i],
{
}

/// What becomes of a candidate that is neither promoted yet nor left out.
pub open spec fn awaits_promotion(
    c: PublishCandidate,
    canonical: Map<H256, ()>,
    submit_tx: Seq<DataTransactionHeader>,
) -> bool {
    &&& c.tx.metadata.promoted_height is None
    &&& submitted(c.tx.id, canonical, submit_tx, c.in_database)
}

/// Whether the candidate has enough proofs to be looked at further.
pub open spec fn requested(
    c: PublishCandidate,
    canonical: Map<H256, ()>,
    submit_tx: Seq<DataTransactionHeader>,
    proofs_per_tx: usize,
) -> bool {
    &&& awaits_promotion(c, canonical, submit_tx)
    &&& current_proofs(c.proofs@).len() >= proofs_per_tx
}

/// Whether the search for the anchor of a proof of the candidate failed.
pub open spec fn proofs_failed(c: PublishCandidate) -> bool {
    exists|i: int|
        0 <= i < current_proofs(c.proofs@).len() && anchor_failed(
            #[trigger] current_proofs(c.proofs@)[i],
        )
}

/// How many proofs a transaction needs: as many as the network asks for, but no more than there
/// are miners that have staked.
pub open spec fn needed_proofs(total: usize, total_miners: usize) -> usize {
    if total <= total_miners {
        total
    } else {
        total_miners
    }
}

/// `request` asks for the promotion of the candidate.
pub open spec fn requests(
    c: PublishCandidate,
    request: PromotionRequest,
    min_anchor_height: u64,
) -> bool {
    &&& request.tx == c.tx
    &&& request.proofs@ == young_proofs(current_proofs(c.proofs@), min_anchor_height)
}

/// `picked` are the candidates whose promotion is requested, in their order.
pub open spec fn requested_candidates(
    candidates: Seq<PublishCandidate>,
    canonical: Map<H256, ()>,
    submit_tx: Seq<DataTransactionHeader>,
    proofs_per_tx: usize,
) -> Seq<PublishCandidate> {
    candidates.filter(|c: PublishCandidate| requested(c, canonical, submit_tx, proofs_per_tx))
}

/// The transactions whose promotion is to be decided, each with the proofs that may promote it:
/// they are not promoted yet, a block includes them, and they have enough proofs. Proofs must not
/// have expired at `current_height + 1`. Fails if the search for an anchor does.
pub fn promotion_requests(
    candidates: &Vec<PublishCandidate>,
    canonical: &OrderedMap<H256, ()>,
    submit_tx: &Vec<DataTransactionHeader>,
    current_height: u64,
    ingress_proof_anchor_expiry_depth: u64,
    number_of_ingress_proofs_total: usize,
    total_miners: usize,
) -> (r: Result<Vec<PromotionRequest>, TxIngressError>)
    requires
        canonical.wf(),
        current_height < u64::MAX,
    ensures
        ({
            let proofs_per_tx = needed_proofs(number_of_ingress_proofs_total, total_miners);
            let min_anchor_height = lowered(
                (current_height + 1) as u64,
                ingress_proof_anchor_expiry_depth,
            );
            let picked = requested_candidates(
                candidates@,
                canonical@,
                submit_tx@,
                proofs_per_tx,
            );
            match r {
                Ok(found) => {
                    &&& found@.len() == picked.len()
                    &&& forall|i: int|
                        0 <= i < picked.len() ==> !proofs_failed(#[trigger] picked[i]) && requests(
                            picked[i],
                            found@[i],
                            min_anchor_height,
                        )
                },
                Err(e) => exists|i: int|
                    {
                        &&& 0 <= i < picked.len()
                        &&& fails_with(current_proofs((#[trigger] picked[i]).proofs@), e)
                        &&& forall|j: int| 0 <= j < i ==> !proofs_failed(#[trigger] picked[j])
                    },
            }
        }),
{
    let next_block_height: u64 = current_height + 1;
    let min_anchor_height = next_block_height.saturating_sub(ingress_proof_anchor_expiry_depth);
    let proofs_per_tx: usize = if number_of_ingress_proofs_total <= total_miners {
        number_of_ingress_proofs_total
    } else {
        total_miners
    };
    let ghost p = |c: PublishCandidate| requested(c, canonical@, submit_tx@, proofs_per_tx);
    let mut found: Vec<PromotionRequest> = Vec::new();
    let mut i: usize = 0;
    assert(candidates@.take(0).filter(p) =~= Seq::empty()) by {
        reveal(Seq::filter);
    }
    while i < candidates.len()
        invariant
            i <= candidates@.len(),
            canonical.wf(),
            proofs_per_tx == needed_proofs(number_of_ingress_proofs_total, total_miners),
            min_anchor_height == lowered(
                (current_height + 1) as u64,
                ingress_proof_anchor_expiry_depth,
            ),
            p == (|c: PublishCandidate| requested(c, canonical@, submit_tx@, proofs_per_tx)),
            found@.len() == candidates@.take(i as int).filter(p).len(),
            forall|k: int|
                0 <= k < found@.len() ==> !proofs_failed(
                    #[trigger] candidates@.take(i as int).filter(p)[k],
                ) && requests(
                    candidates@.take(i as int).filter(p)[k],
                    found@[k],
                    min_anchor_height,
                ),
        decreases candidates@.len() - i,
    {
        let c = &candidates[i];
        let ghost before = candidates@.take(i as int).filter(p);
        proof {
            reveal(Seq::filter);
            let next = candidates@.take(i as int + 1);
            assert(next.drop_last() =~= candidates@.take(i as int));
            assert(next.last() == *c);
            if p(*c) {
                assert(next.filter(p) == before.push(*c));
            } else {
                assert(next.filter(p) == before);
            }
            lemma_filter_prefix(candidates@, i as int + 1, p);
        }
        if c.tx.metadata.promoted_height.is_none() && has_submit_inclusion(
            c.tx.id,
            canonical,
            submit_tx,
            c.in_database,
        ) {
            match usable_proofs(&c.proofs, proofs_per_tx, min_anchor_height) {
                Err(e) => {
                    proof {
                        let picked = candidates@.filter(p);
                        let next = candidates@.take(i as int + 1).filter(p);
                        assert(next[before.len() as int] == *c);
                        assert(picked.take(next.len() as int)[before.len() as int] == *c);
                        assert(picked[before.len() as int] == *c);
                        assert(picked == requested_candidates(
                            candidates@,
                            canonical@,
                            submit_tx@,
                            proofs_per_tx,
                        ));
                        assert forall|j: int| 0 <= j < before.len() implies !proofs_failed(
                            #[trigger] picked[j],
                        ) by {
                            assert(picked.take(next.len() as int)[j] == before[j]);
                        }
                    }
                    return Err(e);
                },
                Ok(None) => {},
                Ok(Some(proofs)) => {
                    found.push(PromotionRequest { tx: c.tx, proofs });
                },
            }
        }
        i += 1;
    }
    assert(candidates@.take(i as int) =~= candidates@);
    Ok(found)
}

/// The proofs with which a request succeeds, if it does. Without an assignment it does not.
pub open spec fn granted(
    request: PromotionRequest,
    assignment: Option<ProofAssignment>,
    from_assignees: usize,
    total: usize,
    staked: Set<IrysAddress>,
) -> Option<Seq<IngressProof>> {
    match assignment {
        None => None,
        Some(a) => promoting_proofs(
            request.proofs@,
            a.assigned_proofs@,
            a.assigned_miners,
            from_assignees,
            total,
            staked,
        ),
    }
}

/// The transactions of the first `n` requests that succeed, and the proofs of all of them.
pub open spec fn promoted(
    requests: Seq<PromotionRequest>,
    assignments: Seq<Option<ProofAssignment>>,
    n: int,
    from_assignees: usize,
    total: usize,
    staked: Set<IrysAddress>,
) -> (Seq<DataTransactionHeader>, Seq<IngressProof>)
    decreases n,
{
    if n <= 0 {
        (Seq::empty(), Seq::empty())
    } else {
        let (txs, proofs) = promoted(requests, assignments, n - 1, from_assignees, total, staked);
        match granted(requests[n - 1], assignments[n - 1], from_assignees, total, staked) {
            Some(chosen) => (txs.push(requests[n - 1].tx), proofs + chosen),
            None => (txs, proofs),
        }
    }
}

/// The number of the request of the `i`-th transaction that is promoted, among the first `n`.
pub open spec fn request_of(
    requests: Seq<PromotionRequest>,
    assignments: Seq<Option<ProofAssignment>>,
    n: int,
    from_assignees: usize,
    total: usize,
    staked: Set<IrysAddress>,
    i: int,
) -> int
    decreases n,
{
    if n <= 0 {
        0
    } else if granted(requests[n - 1], assignments[n - 1], from_assignees, total, staked) is Some
        && i == promoted(requests, assignments, n - 1, from_assignees, total, staked).0.len() {
        n - 1
    } else {
        request_of(requests, assignments, n - 1, from_assignees, total, staked, i)
    }
}

/// The proofs stand in the order of the transactions: each transaction that is promoted has as many
/// as the network asks for, and the `i`-th run of that many is that of the `i`-th transaction.
pub proof fn law_proofs_stand_in_runs(
    requests: Seq<PromotionRequest>,
    assignments: Seq<Option<ProofAssignment>>,
    n: int,
    from_assignees: usize,
    total: usize,
    staked: Set<IrysAddress>,
    i: int,
)
    requires
        0 <= n <= requests.len(),
        n <= assignments.len(),
        0 <= i < promoted(requests, assignments, n, from_assignees, total, staked).0.len(),
    ensures
        ({
            let (txs, proofs) = promoted(
                requests,
                assignments,
                n,
                from_assignees,
                total,
                staked,
            );
            let k = request_of(requests, assignments, n, from_assignees, total, staked, i);
            &&& 0 <= k < n
            &&& txs[i] == requests[k].tx
            &&& proofs.len() == txs.len() * total
            &&& 0 <= i * total
            &&& (i + 1) * total <= proofs.len()
            &&& granted(requests[k], assignments[k], from_assignees, total, staked) == Some(
                proofs.subrange(i * total, (i + 1) * total),
            )
        }),
    decreases n,
{
    let (txs, proofs) = promoted(requests, assignments, n, from_assignees, total, staked);
    let (before, front) = promoted(requests, assignments, n - 1, from_assignees, total, staked);
    lemma_runs_fill(requests, assignments, n, from_assignees, total, staked);
    lemma_runs_fill(requests, assignments, n - 1, from_assignees, total, staked);
    let len = txs.len();
    assert(0 <= i * total && (i + 1) * total <= len * total && (i + 1) * total == i * total
        + total) by (nonlinear_arith)
        requires
            0 <= i < len,
            total >= 0,
    ;
    match granted(requests[n - 1], assignments[n - 1], from_assignees, total, staked) {
        Some(chosen) => {
            if i == before.len() {
                assert(front.len() == i * total);
                assert(proofs == front + chosen);
                assert(proofs.subrange(i * total, (i + 1) * total) =~= chosen);
            } else {
                law_proofs_stand_in_runs(
                    requests,
                    assignments,
                    n - 1,
                    from_assignees,
                    total,
                    staked,
                    i,
                );
                assert(proofs.subrange(i * total, (i + 1) * total) =~= front.subrange(
                    i * total,
                    (i + 1) * total,
                ));
            }
        },
        None => {
            law_proofs_stand_in_runs(
                requests,
                assignments,
                n - 1,
                from_assignees,
                total,
                staked,
                i,
            );
        },
    }
}

proof fn lemma_runs_fill(
    requests: Seq<PromotionRequest>,
    assignments: Seq<Option<ProofAssignment>>,
    n: int,
    from_assignees: usize,
    total: usize,
    staked: Set<IrysAddress>,
)
    ensures
        ({
            let (txs, proofs) = promoted(
                requests,
                assignments,
                n,
                from_assignees,
                total,
                staked,
            );
            proofs.len() == txs.len() * total
        }),
    decreases n,
{
    if n > 0 {
        lemma_runs_fill(requests, assignments, n - 1, from_assignees, total, staked);
        let before = promoted(requests, assignments, n - 1, from_assignees, total, staked).0.len();
        assert((before + 1) * total == before * total + total) by (nonlinear_arith);
    }
}

/// The transactions to promote, with the proofs of all of them, given for each request which of
/// its proofs come from assigned miners.
pub fn get_publish_txs_and_proofs(
    requests: &Vec<PromotionRequest>,
    assignments: &Vec<Option<ProofAssignment>>,
    number_of_ingress_proofs_from_assignees: usize,
    number_of_ingress_proofs_total: usize,
    staked: &AddressSet,
) -> (r: PublishLedgerWithTxs)
    requires
        assignments@.len() == requests@.len(),
    ensures
        ({
            let (txs, proofs) = promoted(
                requests@,
                assignments@,
                requests@.len() as int,
                number_of_ingress_proofs_from_assignees,
                number_of_ingress_proofs_total,
                staked@,
            );
            &&& r.txs@ == txs
            &&& match r.proofs {
                Some(list) => list@ == proofs && proofs.len() > 0,
                None => proofs.len() == 0,
            }
        }),
{
    let mut txs: Vec<DataTransactionHeader> = Vec::new();
    let mut proofs: Vec<IngressProof> = Vec::new();
    let mut i: usize = 0;
    while i < requests.len()
        invariant
            i <= requests@.len(),
            assignments@.len() == requests@.len(),
            (txs@, proofs@) == promoted(
                requests@,
                assignments@,
                i as int,
                number_of_ingress_proofs_from_assignees,
                number_of_ingress_proofs_total,
                staked@,
            ),
        decreases requests@.len() - i,
    {
        let request = &requests[i];
        if let Some(assignment) = &assignments[i] {
            if let Some(mut chosen) = choose_proofs(
                &request.proofs,
                assignment,
                number_of_ingress_proofs_from_assignees,
                number_of_ingress_proofs_total,
                staked,
            ) {
                txs.push(request.tx);
                proofs.append(&mut chosen);
            }
        }
        i += 1;
    }
    let list = if proofs.len() == 0 {
        None
    } else {
        Some(proofs)
    };
    PublishLedgerWithTxs { txs, proofs: list }
}

/// A promotion is asked for only of a transaction that has not been promoted, that a block
/// includes, and of which as many miners as are needed have proofs that have not expired: as many
/// as the network asks for, but no more than there are miners.
pub proof fn law_no_tx_is_promoted_twice(
    candidates: Seq<PublishCandidate>,
    canonical: Map<H256, ()>,
    submit_tx: Seq<DataTransactionHeader>,
    total: usize,
    total_miners: usize,
    min_anchor_height: u64,
    request: PromotionRequest,
    i: int,
)
    requires
        ({
            let picked = requested_candidates(
                candidates,
                canonical,
                submit_tx,
                needed_proofs(total, total_miners),
            );
            0 <= i < picked.len() && requests(picked[i], request, min_anchor_height)
        }),
    ensures
        request.tx.metadata.promoted_height is None,
        exists|k: int|
            {
                &&& 0 <= k < candidates.len()
                &&& (#[trigger] candidates[k]).tx == request.tx
                &&& candidates[k].in_database || canonical.contains_key(request.tx.id) || exists|
                    n: int,
                |
                    0 <= n < submit_tx.len() && (#[trigger] submit_tx[n]).id == request.tx.id
                &&& current_proofs(candidates[k].proofs@).len() >= total
                    || current_proofs(candidates[k].proofs@).len() >= total_miners
                &&& request.proofs@ == young_proofs(
                    current_proofs(candidates[k].proofs@),
                    min_anchor_height,
                )
            },
{
    let needed = needed_proofs(total, total_miners);
    let p = |c: PublishCandidate| requested(c, canonical, submit_tx, needed);
    let picked = requested_candidates(candidates, canonical, submit_tx, needed);
    lemma_filtered_comes_from(candidates, p, i);
    let k = candidates.index_of(picked[i]);
    assert(candidates[k].tx == request.tx);
}

/// A promotion is asked for of every transaction that has not been promoted, that a block includes,
/// and of which enough miners have proofs that have not expired.
pub proof fn law_every_ready_tx_is_requested(
    candidates: Seq<PublishCandidate>,
    canonical: Map<H256, ()>,
    submit_tx: Seq<DataTransactionHeader>,
    total: usize,
    total_miners: usize,
    k: int,
    n: int,
)
    requires
        0 <= k < candidates.len(),
        candidates[k].tx.metadata.promoted_height is None,
        candidates[k].in_database || canonical.contains_key(candidates[k].tx.id) || (0 <= n
            < submit_tx.len() && submit_tx[n].id == candidates[k].tx.id),
        current_proofs(candidates[k].proofs@).len() >= total || current_proofs(
            candidates[k].proofs@,
        ).len() >= total_miners,
    ensures
        requested_candidates(
            candidates,
            canonical,
            submit_tx,
            needed_proofs(total, total_miners),
        ).contains(candidates[k]),
{
    let needed = needed_proofs(total, total_miners);
    let p = |c: PublishCandidate| requested(c, canonical, submit_tx, needed);
    assert(p(candidates[k]));
    candidates.lemma_filter_contains(p, k);
}

/// The proofs that count are proofs of the candidate that have not expired, and every miner with
/// such a proof has one that counts.
pub proof fn law_unexpired_proofs_count(proofs: Seq<ProofCandidate>, i: int)
    requires
        0 <= i < proofs.len(),
    ensures
        forall|k: int|
            0 <= k < current_proofs(proofs).len() ==> proofs.contains(
                #[trigger] current_proofs(proofs)[k],
            ) && !current_proofs(proofs)[k].expired_or_invalid,
        !proofs[i].expired_or_invalid ==> exists|k: int|
            0 <= k < current_proofs(proofs).len() && (
            #[trigger] current_proofs(proofs)[k]).cached.address == proofs[i].cached.address,
    decreases proofs.len(),
{
    let rest = proofs.drop_last();
    let before = current_proofs(rest);
    let after = current_proofs(proofs);
    if rest.len() > 0 {
        law_unexpired_proofs_count(
            rest,
            if i < rest.len() {
                i
            } else {
                0
            },
        );
    }
    assert forall|k: int| 0 <= k < after.len() implies proofs.contains(#[trigger] after[k])
        && !after[k].expired_or_invalid by {
        if k < before.len() {
            assert(before[k] == after[k]);
            let m = rest.index_of(before[k]);
            assert(proofs[m] == after[k]);
        } else {
            assert(proofs[proofs.len() - 1] == after[k]);
        }
    }
    if !proofs[i].expired_or_invalid {
        let a = proofs[i].cached.address;
        if i < rest.len() {
            assert(rest[i] == proofs[i]);
            let k = choose|k: int|
                0 <= k < before.len() && (#[trigger] before[k]).cached.address == a;
            assert(after[k].cached.address == a);
        } else if has_signer(before, a) {
            let k = choose|k: int|
                0 <= k < before.len() && (#[trigger] before[k]).cached.address == a;
            assert(after[k].cached.address == a);
        } else {
            assert(after[before.len() as int].cached.address == a);
        }
    }
}

/// The proofs that may promote a transaction are those whose anchor was found and is not older than
/// the limit.
pub proof fn law_usable_proofs_have_young_anchors(
    proofs: Seq<ProofCandidate>,
    min_anchor_height: u64,
    i: int,
)
    ensures
        0 <= i < proofs.len() && proofs[i].anchor is Height && proofs[i].anchor->Height_0
            >= min_anchor_height ==> young_proofs(proofs, min_anchor_height).contains(
            proofs[i].cached,
        ),
        0 <= i < young_proofs(proofs, min_anchor_height).len() ==> exists|k: int|
            {
                &&& 0 <= k < proofs.len()
                &&& (#[trigger] proofs[k]).cached == young_proofs(proofs, min_anchor_height)[i]
                &&& proofs[k].anchor is Height
                &&& proofs[k].anchor->Height_0 >= min_anchor_height
            },
{
    let p = |p: ProofCandidate| anchor_young(p, min_anchor_height);
    let young = young_proofs(proofs, min_anchor_height);
    if 0 <= i < proofs.len() && p(proofs[i]) {
        proofs.lemma_filter_contains(p, i);
        let k = proofs.filter(p).index_of(proofs[i]);
        assert(young[k] == proofs[i].cached);
    }
    if 0 <= i < young.len() {
        lemma_filtered_comes_from(proofs, p, i);
        let k = proofs.index_of(proofs.filter(p)[i]);
        assert(proofs[k].cached == young[i]);
    }
}

/// A transaction is promoted only with enough proofs of assigned miners: as many as the network
/// asks for, or one of each assigned miner where there are fewer of these. The other proofs are
/// those of the request whose signers have staked.
pub proof fn law_promotion_needs_assigned_and_staked_miners(
    proofs: Seq<CachedIngressProof>,
    assigned: Seq<IngressProof>,
    assigned_miners: usize,
    from_assignees: usize,
    total: usize,
    staked: Set<IrysAddress>,
    i: int,
)
    requires
        promoting_proofs(proofs, assigned, assigned_miners, from_assignees, total, staked) is Some,
        0 <= i < total,
    ensures
        ({
            let chosen = promoting_proofs(
                proofs,
                assigned,
                assigned_miners,
                from_assignees,
                total,
                staked,
            )->0;
            &&& assigned.len() >= from_assignees || assigned.len() >= assigned_miners
            &&& chosen.len() == total
            &&& i < assigned.len() ==> chosen[i] == assigned[i]
            &&& i >= assigned.len() ==> exists|k: int|
                0 <= k < proofs.len() && (#[trigger] proofs[k]).proof == chosen[i]
                    && staked.contains(proofs[k].address)
        }),
{
    let open = |c: CachedIngressProof|
        !has_proof(assigned, c.proof.proof) && staked.contains(c.address);
    if i >= assigned.len() {
        let n = i - assigned.len();
        lemma_filtered_comes_from(proofs, open, n);
        let k = proofs.index_of(proofs.filter(open)[n]);
        assert(proofs[k].proof == unassigned_proofs(proofs, assigned, staked)[n]);
    }
}

/// A transaction is promoted where enough proofs are those of assigned miners and there are as many
/// assigned and other staked ones as the network asks for.
pub proof fn law_enough_proofs_promote(
    proofs: Seq<CachedIngressProof>,
    assigned: Seq<IngressProof>,
    assigned_miners: usize,
    from_assignees: usize,
    total: usize,
    staked: Set<IrysAddress>,
)
    requires
        assigned.len() >= from_assignees || assigned.len() >= assigned_miners,
        assigned.len() >= total || (assigned.len() + proofs.len() >= total && forall|k: int|
            0 <= k < proofs.len() ==> staked.contains((#[trigger] proofs[k]).address)
                && forall|n: int|
                0 <= n < assigned.len() ==> (#[trigger] assigned[n]).proof
                    != proofs[k].proof.proof),
    ensures
        promoting_proofs(proofs, assigned, assigned_miners, from_assignees, total, staked) is Some,
{
    let open = |c: CachedIngressProof|
        !has_proof(assigned, c.proof.proof) && staked.contains(c.address);
    if assigned.len() < total {
        assert forall|k: int| 0 <= k < proofs.len() implies open(#[trigger] proofs[k]) by {
            assert(staked.contains(proofs[k].address));
        }
        lemma_filter_keeps_all(proofs, open);
    }
}

proof fn lemma_filter_keeps_all<T>(s: Seq<T>, p: spec_fn(T) -> bool)
    requires
        forall|k: int| 0 <= k < s.len() ==> p(#[trigger] s[k]),
    ensures
        s.filter(p) =~= s,
    decreases s.len(),
{
    reveal(Seq::filter);
    if s.len() > 0 {
        lemma_filter_keeps_all(s.drop_last(), p);
        assert(p(s[s.len() - 1]));
    }
}

/// Every request for which enough proofs were chosen is promoted, and requests without an assignment
/// are not.
pub proof fn law_granted_requests_are_promoted(
    requests: Seq<PromotionRequest>,
    assignments: Seq<Option<ProofAssignment>>,
    n: int,
    from_assignees: usize,
    total: usize,
    staked: Set<IrysAddress>,
    k: int,
)
    requires
        0 <= k < n <= requests.len(),
        n <= assignments.len(),
    ensures
        assignments[k] is None ==> granted(
            requests[k],
            assignments[k],
            from_assignees,
            total,
            staked,
        ) is None,
        assignments[k] is Some ==> granted(
            requests[k],
            assignments[k],
            from_assignees,
            total,
            staked,
        ) == promoting_proofs(
            requests[k].proofs@,
            assignments[k]->0.assigned_proofs@,
            assignments[k]->0.assigned_miners,
            from_assignees,
            total,
            staked,
        ),
        granted(requests[k], assignments[k], from_assignees, total, staked) is Some ==> promoted(
            requests,
            assignments,
            n,
            from_assignees,
            total,
            staked,
        ).0.contains(requests[k].tx),
    decreases n,
{
    let after = promoted(requests, assignments, n, from_assignees, total, staked).0;
    if granted(requests[k], assignments[k], from_assignees, total, staked) is Some {
        if k == n - 1 {
            assert(after.last() == requests[k].tx);
        } else {
            law_granted_requests_are_promoted(
                requests,
                assignments,
                n - 1,
                from_assignees,
                total,
                staked,
                k,
            );
            let before = promoted(
                requests,
                assignments,
                n - 1,
                from_assignees,
                total,
                staked,
            ).0;
            let m = before.index_of(requests[k].tx);
            assert(after[m] == requests[k].tx);
        }
    }
}

/// The candidates for promotion are the transactions whose size is not known to be another one, in
/// the order of their ids.
pub proof fn law_candidates_have_the_right_size(
    txs: Seq<DataTransactionHeader>,
    r: Seq<DataTransactionHeader>,
    roots: Map<H256, CachedDataRoot>,
    tx: DataTransactionHeader,
    i: int,
    j: int,
)
    requires
        candidates_in_order(txs, r, roots),
    ensures
        r.contains(tx) <==> txs.contains(tx) && (roots.contains_key(tx.data_root)
            && roots[tx.data_root].data_size_confirmed ==> roots[tx.data_root].data_size
            == tx.data_size),
        0 <= i < j < r.len() ==> r[i].id.rank() <= r[j].id.rank(),
{
    let by_id = choose|by_id: Seq<ById>|
        {
            &&& #[trigger] ordered(all_by_id(txs), by_id)
            &&& r == by_id.map_values(|t: ById| t.0).filter(
                |tx: DataTransactionHeader| size_agrees(tx, roots),
            )
        };
    let all = by_id.map_values(|t: ById| t.0);
    let p = |tx: DataTransactionHeader| size_agrees(tx, roots);
    lemma_ordered_holds_the_same(all_by_id(txs), by_id);
    assert(all.contains(tx) <==> txs.contains(tx)) by {
        if all.contains(tx) {
            let k = all.index_of(tx);
            assert(by_id[k] == ById(tx));
            assert(all_by_id(txs).contains(ById(tx)));
            let m = all_by_id(txs).index_of(ById(tx));
            assert(txs[m] == tx);
        }
        if txs.contains(tx) {
            let m = txs.index_of(tx);
            assert(all_by_id(txs)[m] == ById(tx));
            assert(by_id.contains(ById(tx)));
            let k = by_id.index_of(ById(tx));
            assert(all[k] == tx);
        }
    }
    if r.contains(tx) {
        lemma_filtered_comes_from(all, p, r.index_of(tx));
    }
    if all.contains(tx) && p(tx) {
        all.lemma_filter_contains(p, all.index_of(tx));
    }
    let q = choose|q: Seq<int>| in_order(all_by_id(txs), by_id, q);
    assert forall|a: int, b: int| 0 <= a < b < all.len() implies #[trigger] all[a].id.rank()
        <= #[trigger] all[b].id.rank() by {
        assert(by_id[a].before(by_id[b]) || !by_id[b].before(by_id[a]));
    }
    lemma_filter_keeps_rising(all, p);
}

proof fn lemma_filter_keeps_rising(
    s: Seq<DataTransactionHeader>,
    p: spec_fn(DataTransactionHeader) -> bool,
)
    requires
        forall|a: int, b: int|
            0 <= a < b < s.len() ==> #[trigger] s[a].id.rank() <= #[trigger] s[b].id.rank(),
    ensures
        forall|a: int, b: int|
            0 <= a < b < s.filter(p).len() ==> #[trigger] s.filter(p)[a].id.rank()
                <= #[trigger] s.filter(p)[b].id.rank(),
    decreases s.len(),
{
    reveal(Seq::filter);
    if s.len() > 0 {
        let rest = s.drop_last();
        let kept = rest.filter(p);
        assert forall|a: int, b: int| 0 <= a < b < rest.len() implies #[trigger] rest[a].id.rank()
            <= #[trigger] rest[b].id.rank() by {
            assert(s[a].id.rank() <= s[b].id.rank());
        }
        lemma_filter_keeps_rising(rest, p);
        assert forall|a: int| 0 <= a < kept.len() implies #[trigger] kept[a].id.rank()
            <= s.last().id.rank() by {
            lemma_filtered_comes_from(rest, p, a);
            let k = rest.index_of(kept[a]);
            assert(s[k].id.rank() <= s[s.len() - 1].id.rank());
        }
        assert forall|a: int, b: int| 0 <= a < b < s.filter(p).len() implies #[trigger] s.filter(
            p,
        )[a].id.rank() <= #[trigger] s.filter(p)[b].id.rank() by {
            assert(kept[a].id.rank() <= s.last().id.rank());
            if b < kept.len() {
                assert(kept[a].id.rank() <= kept[b].id.rank());
            }
        }
    }
}

/// A request fails exactly where the anchor of one of the proofs that count could not be looked up,
/// and with the reason of the first such proof.
pub proof fn law_failed_lookup_is_reported(c: PublishCandidate, e: TxIngressError, k: int)
    requires
        0 <= k < current_proofs(c.proofs@).len(),
        forall|j: int|
            0 <= j < k ==> !((#[trigger] current_proofs(c.proofs@)[j]).anchor is Failed),
    ensures
        ({
            let proofs = current_proofs(c.proofs@);
            &&& proofs[k].anchor matches AnchorLookup::Failed(reason) ==> {
                &&& proofs_failed(c)
                &&& fails_with(proofs, e) <==> e@
                    == TxIngressErrorView::DatabaseError(reason@)
            }
            &&& k == proofs.len() - 1 && !(proofs[k].anchor is Failed) ==> {
                &&& !proofs_failed(c)
                &&& !fails_with(proofs, e)
            }
        }),
{
    let proofs = current_proofs(c.proofs@);
    if proofs[k].anchor is Failed {
        assert(anchor_failed(proofs[k]));
        if fails_with(proofs, e) {
            let i = choose|i: int|
                {
                    &&& 0 <= i < proofs.len()
                    &&& (#[trigger] proofs[i]).anchor matches AnchorLookup::Failed(reason)
                    &&& e matches TxIngressError::DatabaseError(m)
                    &&& m@ == reason@
                    &&& forall|j: int| 0 <= j < i ==> !anchor_failed(#[trigger] proofs[j])
                };
            assert(i == k);
        }
    }
}

} // verus!
