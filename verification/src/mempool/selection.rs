//! Which transactions go into the next block.

use crate::mempool::anchors::{
    anchor_admits, anchor_error, validate_anchor_for_inclusion, AnchorLookup,
};
use crate::mempool::errors::TxIngressError;
use crate::mempool::funding::{
    adds_up, can_pay, check_funding, considered, covered, law_consideration_touches_one_account,
    law_selected_payments_are_covered, FundingState, FundingView,
};
use crate::mempool::priority::{in_order, ordered, sort, Prioritized};
use crate::ordered_map::OrderedMap;
use crate::primitives::{
    lemma_u256_bound, two_pow_256, DataLedger, H256, IrysAddress, OrderedKey, U256,
};
use crate::transactions::{CommitmentTransaction, CommitmentType, DataTransactionHeader};
use vstd::prelude::*;

verus! {

/// The rules that every transaction of the block has to meet.
#[derive(Clone, Copy, Debug, PartialEq, Eq, Structural)]
pub struct InclusionLimits {
    pub min_anchor_height: u64,
    pub max_anchor_height: u64,
    /// After how many transactions the selection stops.
    pub max_txs: usize,
}

/// A commitment with what is known of it outside the mempool.
#[derive(Clone, Debug)]
pub struct CommitmentCandidate {
    pub tx: CommitmentTransaction,
    /// Whether the transaction is on the canonical chain already.
    pub confirmed: bool,
    /// Whether its fee, its funding at the parent block and its value are valid.
    pub valid: bool,
    pub anchor: AnchorLookup,
    /// Whether the signer has staked already.
    pub is_staked: bool,
}

/// What becomes of a candidate.
pub enum Verdict {
    /// It is passed over.
    Skip,
    /// It is considered further.
    Consider,
    /// Nothing can be selected: its anchor is not to be found.
    Abort,
}

/// What becomes of a commitment before it is simulated.
pub open spec fn commitment_verdict(c: CommitmentCandidate, limits: InclusionLimits) -> Verdict {
    if c.confirmed || !c.valid {
        Verdict::Skip
    } else {
        match anchor_admits(c.anchor, limits.min_anchor_height, limits.max_anchor_height) {
            None => Verdict::Abort,
            Some(admitted) => if !admitted || (c.tx.commitment_type is Stake && c.is_staked) {
                Verdict::Skip
            } else {
                Verdict::Consider
            },
        }
    }
}

/// The commitments of the mempool in the order in which they are considered.
pub fn sort_commitments(txs: &Vec<CommitmentTransaction>) -> (r: Vec<CommitmentTransaction>)
    ensures
        ordered(txs@, r@),
{
    sort(txs)
}

/// The commitments whose versions are allowed, in their order.
pub open spec fn of_allowed_versions(
    txs: Seq<CommitmentTransaction>,
    allowed: Seq<bool>,
) -> Seq<CommitmentTransaction>
    decreases txs.len(),
{
    if txs.len() == 0 {
        Seq::empty()
    } else {
        let before = of_allowed_versions(txs.drop_last(), allowed);
        if allowed[txs.len() - 1] {
            before.push(txs.last())
        } else {
            before
        }
    }
}

/// The commitments whose versions the rules of the chain allow now, in their order. `allowed` says
/// of each whether its version is.
pub fn retain_allowed_versions(txs: &Vec<CommitmentTransaction>, allowed: &Vec<bool>) -> (r: Vec<
    CommitmentTransaction,
>)
    requires
        allowed@.len() == txs@.len(),
    ensures
        r@ == of_allowed_versions(txs@, allowed@),
{
    let mut r: Vec<CommitmentTransaction> = Vec::new();
    let mut i: usize = 0;
    assert(txs@.take(0) =~= Seq::empty());
    while i < txs.len()
        invariant
            i <= txs@.len(),
            allowed@.len() == txs@.len(),
            r@ == of_allowed_versions(txs@.take(i as int), allowed@),
        decreases txs@.len() - i,
    {
        assert(txs@.take(i as int + 1).drop_last() =~= txs@.take(i as int));
        if allowed[i] {
            r.push(txs[i]);
        }
        i += 1;
    }
    assert(txs@.take(i as int) =~= txs@);
    r
}

/// The data transactions of the mempool in the order in which they are considered: those that pay
/// more come first.
pub fn sort_data_txs(txs: &Vec<DataTransactionHeader>) -> (r: Vec<DataTransactionHeader>)
    ensures
        ordered(txs@, r@),
{
    sort(txs)
}

/// The ids of all commitments on the canonical chain, given those of each block.
pub fn confirmed_commitments(blocks: &Vec<Vec<H256>>) -> (r: OrderedMap<H256, ()>)
    ensures
        r.wf(),
        forall|id: H256| #[trigger]
            r@.contains_key(id) <==> exists|i: int|
                0 <= i < blocks@.len() && (#[trigger] blocks@[i])@.contains(id),
{
    let mut r: OrderedMap<H256, ()> = OrderedMap::new();
    let mut i: usize = 0;
    while i < blocks.len()
        invariant
            i <= blocks@.len(),
            r.wf(),
            forall|id: H256| #[trigger]
                r@.contains_key(id) <==> exists|k: int|
                    0 <= k < i && (#[trigger] blocks@[k])@.contains(id),
        decreases blocks@.len() - i,
    {
        let ghost before = r@;
        let mut j: usize = 0;
        while j < blocks[i].len()
            invariant
                i < blocks@.len(),
                j <= blocks@[i as int]@.len(),
                r.wf(),
                forall|id: H256| #[trigger]
                    r@.contains_key(id) <==> before.contains_key(id) || exists|k: int|
                        0 <= k < j && #[trigger] blocks@[i as int]@[k] == id,
            decreases blocks@[i as int]@.len() - j,
        {
            let ghost mid = r@;
            r.insert(blocks[i][j], ());
            proof {
                assert forall|id: H256| #[trigger]
                    r@.contains_key(id) <==> before.contains_key(id) || exists|k: int|
                        0 <= k < j + 1 && #[trigger] blocks@[i as int]@[k] == id by {
                    if id == blocks@[i as int]@[j as int] {
                        assert(blocks@[i as int]@[j as int] == id);
                    }
                    assert(mid.contains_key(id) <==> before.contains_key(id) || exists|k: int|
                        0 <= k < j && #[trigger] blocks@[i as int]@[k] == id);
                }
            }
            j += 1;
        }
        proof {
            assert forall|id: H256| #[trigger] r@.contains_key(id) <==> exists|k: int|
                0 <= k < i + 1 && (#[trigger] blocks@[k])@.contains(id) by {
                assert(before.contains_key(id) <==> exists|k: int|
                    0 <= k < i && (#[trigger] blocks@[k])@.contains(id));
                if exists|k: int|
                    0 <= k < blocks@[i as int]@.len() && #[trigger] blocks@[i as int]@[k] == id {
                    assert(blocks@[i as int]@.contains(id));
                }
                if blocks@[i as int]@.contains(id) {
                    let k = blocks@[i as int]@.index_of(id);
                    assert(blocks@[i as int]@[k] == id);
                }
            }
        }
        i += 1;
    }
    r
}

/// The selection of commitments for a block, one simulation at a time.
#[derive(Debug)]
pub struct CommitmentSelection {
    /// The candidates in the order in which they are considered.
    pub candidates: Vec<CommitmentCandidate>,
    pub limits: InclusionLimits,
    /// The next candidate to consider.
    pub next: usize,
    pub selected: Vec<CommitmentTransaction>,
}

impl CommitmentSelection {
    /// The selection has not passed its end.
    pub open spec fn wf(&self) -> bool {
        self.next <= self.candidates@.len()
    }

    /// A selection among the candidates that has not begun.
    pub fn new(candidates: Vec<CommitmentCandidate>, limits: InclusionLimits) -> (r:
        CommitmentSelection)
        ensures
            r.wf(),
            r.candidates == candidates,
            r.limits == limits,
            r.next == 0,
            r.selected@ == Seq::<CommitmentTransaction>::empty(),
    {
        CommitmentSelection { candidates, limits, next: 0, selected: Vec::new() }
    }

    /// Finds the next commitment that has to be simulated; there is none once the candidates are
    /// exhausted. Fails at a candidate whose anchor is not to be found.
    pub fn advance(&mut self) -> (r: Result<Option<CommitmentTransaction>, TxIngressError>)
        requires
            old(self).wf(),
        ensures
            final(self).wf(),
            final(self).candidates == old(self).candidates,
            final(self).limits == old(self).limits,
            final(self).selected == old(self).selected,
            old(self).next <= final(self).next,
            forall|j: int|
                old(self).next <= j < final(self).next ==> commitment_verdict(
                    #[trigger] old(self).candidates@[j],
                    old(self).limits,
                ) is Skip,
            match r {
                Ok(Some(tx)) => {
                    &&& final(self).next < old(self).candidates@.len()
                    &&& tx == old(self).candidates@[final(self).next as int].tx
                    &&& commitment_verdict(
                        old(self).candidates@[final(self).next as int],
                        old(self).limits,
                    ) is Consider
                },
                Ok(None) => final(self).next == old(self).candidates@.len(),
                Err(e) => {
                    &&& final(self).next < old(self).candidates@.len()
                    &&& commitment_verdict(
                        old(self).candidates@[final(self).next as int],
                        old(self).limits,
                    ) is Abort
                    &&& anchor_error(
                        old(self).candidates@[final(self).next as int].anchor,
                        old(self).candidates@[final(self).next as int].tx.anchor,
                        e,
                    )
                },
            },
    {
        while self.next < self.candidates.len()
            invariant
                self.wf(),
                self.candidates == old(self).candidates,
                self.limits == old(self).limits,
                self.selected == old(self).selected,
                old(self).next <= self.next,
                forall|j: int|
                    old(self).next <= j < self.next ==> commitment_verdict(
                        #[trigger] old(self).candidates@[j],
                        old(self).limits,
                    ) is Skip,
            decreases self.candidates@.len() - self.next,
        {
            let c = &self.candidates[self.next];
            if !c.confirmed && c.valid {
                match validate_anchor_for_inclusion(
                    self.limits.min_anchor_height,
                    self.limits.max_anchor_height,
                    c.tx.anchor,
                    &c.anchor,
                ) {
                    Err(e) => {
                        return Err(e);
                    },
                    Ok(admitted) => {
                        let staked_again = matches!(c.tx.commitment_type, CommitmentType::Stake)
                            && c.is_staked;
                        if admitted && !staked_again {
                            return Ok(Some(c.tx));
                        }
                    },
                }
            }
            self.next += 1;
        }
        Ok(None)
    }

    /// Takes the result of the simulation of the next candidate. One that was accepted is selected
    /// if its signer can pay for it. Says whether the selection is complete: it is once it holds
    /// as many commitments as a block may.
    pub fn resolve(
        &mut self,
        accepted: bool,
        balances: &OrderedMap<IrysAddress, U256>,
        funding: &mut FundingState,
    ) -> (r: bool)
        requires
            old(self).wf(),
            old(self).next < old(self).candidates@.len(),
            old(funding).wf(),
            balances.wf(),
            accepted ==> adds_up(
                old(funding)@,
                old(self).candidates@[old(self).next as int].tx.signer,
                old(self).candidates@[old(self).next as int].tx.total_cost,
            ),
        ensures
            final(self).wf(),
            final(funding).wf(),
            final(self).candidates == old(self).candidates,
            final(self).limits == old(self).limits,
            final(self).next == old(self).next + 1,
            ({
                let tx = old(self).candidates@[old(self).next as int].tx;
                let paying = can_pay(old(funding)@, balances@, tx.signer, tx.total_cost);
                &&& final(funding)@ == if accepted {
                    considered(old(funding)@, balances@, tx.signer, tx.total_cost)
                } else {
                    old(funding)@
                }
                &&& final(self).selected@ == if accepted && paying {
                    old(self).selected@.push(tx)
                } else {
                    old(self).selected@
                }
                &&& r == (accepted && paying && old(self).selected@.len() + 1
                    >= old(self).limits.max_txs)
            }),
    {
        let tx = self.candidates[self.next].tx;
        assert(self.candidates@.len() == self.candidates.len());
        self.next += 1;
        if accepted && check_funding(tx.signer, tx.total_cost, balances, funding) {
            self.selected.push(tx);
            return self.selected.len() >= self.limits.max_txs;
        }
        false
    }
}

/// The payments of the commitments.
pub open spec fn commitment_payments(txs: Seq<CommitmentTransaction>) -> Seq<(IrysAddress, nat)> {
    txs.map_values(|tx: CommitmentTransaction| (tx.signer, tx.total_cost@))
}

/// The payments of the data transactions.
pub open spec fn data_payments(txs: Seq<DataTransactionHeader>) -> Seq<(IrysAddress, nat)> {
    txs.map_values(|tx: DataTransactionHeader| (tx.signer, tx.total_cost@))
}

/// However the simulations turn out, the balances cover all commitments that are selected.
pub proof fn law_selected_commitments_are_covered(
    before: FundingView,
    balances: Map<IrysAddress, U256>,
    selected: Seq<CommitmentTransaction>,
    tx: CommitmentTransaction,
    accepted: bool,
)
    requires
        covered(before, balances, commitment_payments(selected)),
        accepted ==> adds_up(before, tx.signer, tx.total_cost),
    ensures
        ({
            let paying = can_pay(before, balances, tx.signer, tx.total_cost);
            covered(
                if accepted {
                    considered(before, balances, tx.signer, tx.total_cost)
                } else {
                    before
                },
                balances,
                commitment_payments(
                    if accepted && paying {
                        selected.push(tx)
                    } else {
                        selected
                    },
                ),
            )
        }),
{
    if accepted {
        law_selected_payments_are_covered(
            before,
            balances,
            tx.signer,
            tx.total_cost,
            commitment_payments(selected),
        );
    }
    assert(commitment_payments(selected.push(tx)) =~= commitment_payments(selected).push(
        (tx.signer, tx.total_cost@),
    ));
}

/// A data transaction with what is known of it outside the mempool.
#[derive(Clone, Debug)]
pub struct DataTxCandidate {
    pub tx: DataTransactionHeader,
    /// What storing the data for the term costs, where it can be computed.
    pub expected_term_fee: Option<U256>,
    /// What storing the data for good costs, where it can be computed.
    pub expected_perm_fee: Option<U256>,
    /// Whether the term fee can be distributed.
    pub term_charges_valid: bool,
    /// Whether the fee for storing the data for good can be distributed.
    pub publish_charges_valid: bool,
    pub anchor: AnchorLookup,
}

/// Whether the fees of the transaction pay for permanent storage.
pub open spec fn fees_suffice(c: DataTxCandidate) -> bool {
    &&& c.expected_term_fee is Some
    &&& c.expected_perm_fee is Some
    &&& c.tx.term_fee@ >= c.expected_term_fee->0@
    &&& c.tx.perm_fee is Some
    &&& c.tx.perm_fee->0@ >= c.expected_perm_fee->0@
    &&& c.term_charges_valid
    &&& c.publish_charges_valid
}

/// What becomes of a data transaction before its funding is looked at: only those for permanent
/// storage are considered, and only if they pay for it.
pub open spec fn data_verdict(c: DataTxCandidate, limits: InclusionLimits) -> Verdict {
    if c.tx.ledger != Some(DataLedger::Publish) || !fees_suffice(c) {
        Verdict::Skip
    } else {
        match anchor_admits(c.anchor, limits.min_anchor_height, limits.max_anchor_height) {
            None => Verdict::Abort,
            Some(admitted) => if admitted {
                Verdict::Consider
            } else {
                Verdict::Skip
            },
        }
    }
}

/// Whether the fees of the transaction pay for permanent storage.
fn check_fees(c: &DataTxCandidate) -> (r: bool)
    ensures
        r == fees_suffice(*c),
{
    match (c.expected_term_fee, c.expected_perm_fee, c.tx.perm_fee) {
        (Some(expected_term_fee), Some(expected_perm_fee), Some(perm_fee)) =>
            !c.tx.term_fee.less_than(&expected_term_fee) && !perm_fee.less_than(&expected_perm_fee)
            && c.term_charges_valid && c.publish_charges_valid,
        _ => false,
    }
}

/// The outcome of a selection of data transactions: what is selected, what is asked of the
/// accounts then, and the candidate at which it failed, if it did.
#[verifier::ext_equal]
pub ghost struct DataSelection {
    pub selected: Seq<DataTransactionHeader>,
    pub funding: FundingView,
    pub failed_at: Option<int>,
}

/// The selection of data transactions from the candidate `i` on: each one that is to be considered
/// is selected if its signer can pay for it, until there are as many as a block may hold.
pub open spec fn data_selection(
    candidates: Seq<DataTxCandidate>,
    i: int,
    limits: InclusionLimits,
    balances: Map<IrysAddress, U256>,
    selected: Seq<DataTransactionHeader>,
    funding: FundingView,
) -> DataSelection
    decreases candidates.len() - i,
{
    if i < 0 || i >= candidates.len() {
        DataSelection { selected, funding, failed_at: None }
    } else {
        let tx = candidates[i].tx;
        match data_verdict(candidates[i], limits) {
            Verdict::Abort => DataSelection { selected, funding, failed_at: Some(i) },
            Verdict::Skip => data_selection(
                candidates,
                i + 1,
                limits,
                balances,
                selected,
                funding,
            ),
            Verdict::Consider => {
                let after = considered(funding, balances, tx.signer, tx.total_cost);
                if !can_pay(funding, balances, tx.signer, tx.total_cost) {
                    data_selection(candidates, i + 1, limits, balances, selected, after)
                } else if selected.len() + 1 >= limits.max_txs {
                    DataSelection { selected: selected.push(tx), funding: after, failed_at: None }
                } else {
                    data_selection(candidates, i + 1, limits, balances, selected.push(tx), after)
                }
            },
        }
    }
}

/// Whether what the selection from the candidate `i` on asks of each account can be added up, where
/// `count` are selected already.
pub open spec fn sums_fit(
    candidates: Seq<DataTxCandidate>,
    i: int,
    limits: InclusionLimits,
    balances: Map<IrysAddress, U256>,
    count: nat,
    funding: FundingView,
) -> bool
    decreases candidates.len() - i,
{
    if i < 0 || i >= candidates.len() {
        true
    } else {
        let tx = candidates[i].tx;
        match data_verdict(candidates[i], limits) {
            Verdict::Abort => true,
            Verdict::Skip => sums_fit(candidates, i + 1, limits, balances, count, funding),
            Verdict::Consider => {
                let after = considered(funding, balances, tx.signer, tx.total_cost);
                &&& adds_up(funding, tx.signer, tx.total_cost)
                &&& if !can_pay(funding, balances, tx.signer, tx.total_cost) {
                    sums_fit(candidates, i + 1, limits, balances, count, after)
                } else {
                    count + 1 >= limits.max_txs || sums_fit(
                        candidates,
                        i + 1,
                        limits,
                        balances,
                        count + 1,
                        after,
                    )
                }
            },
        }
    }
}

/// Selects data transactions for a block among the candidates, which are in the order in which
/// they are considered. Fails at a candidate whose anchor is not to be found.
pub fn select_data_txs(
    candidates: &Vec<DataTxCandidate>,
    limits: InclusionLimits,
    balances: &OrderedMap<IrysAddress, U256>,
    funding: &mut FundingState,
) -> (r: Result<Vec<DataTransactionHeader>, TxIngressError>)
    requires
        old(funding).wf(),
        balances.wf(),
        sums_fit(candidates@, 0, limits, balances@, 0, old(funding)@),
    ensures
        final(funding).wf(),
        ({
            let outcome = data_selection(
                candidates@,
                0,
                limits,
                balances@,
                Seq::empty(),
                old(funding)@,
            );
            &&& final(funding)@ == outcome.funding
            &&& match r {
                Ok(txs) => outcome.failed_at is None && txs@ == outcome.selected,
                Err(e) => outcome.failed_at matches Some(i) && 0 <= i < candidates@.len()
                    && anchor_error(candidates@[i].anchor, candidates@[i].tx.anchor, e),
            }
        }),
{
    match checked_select_data_txs(candidates, limits, balances, funding) {
        Some(r) => r,
        None => {
            assert(false);
            Ok(Vec::new())
        },
    }
}

/// Selects data transactions for a block among the candidates, as [`select_data_txs`] does, as long
/// as what is asked of each account can be added up.
pub fn checked_select_data_txs(
    candidates: &Vec<DataTxCandidate>,
    limits: InclusionLimits,
    balances: &OrderedMap<IrysAddress, U256>,
    funding: &mut FundingState,
) -> (r: Option<Result<Vec<DataTransactionHeader>, TxIngressError>>)
    requires
        old(funding).wf(),
        balances.wf(),
    ensures
        final(funding).wf(),
        r is Some <==> sums_fit(candidates@, 0, limits, balances@, 0, old(funding)@),
        ({
            let outcome = data_selection(
                candidates@,
                0,
                limits,
                balances@,
                Seq::empty(),
                old(funding)@,
            );
            match r {
                Some(Ok(txs)) => final(funding)@ == outcome.funding && outcome.failed_at is None
                    && txs@ == outcome.selected,
                Some(Err(e)) => final(funding)@ == outcome.funding && (outcome.failed_at matches Some(
                    i,
                ) && 0 <= i < candidates@.len() && anchor_error(
                    candidates@[i].anchor,
                    candidates@[i].tx.anchor,
                    e,
                )),
                None => true,
            }
        }),
{
    let ghost outcome = data_selection(candidates@, 0, limits, balances@, Seq::empty(), funding@);
    let ghost fits = sums_fit(candidates@, 0, limits, balances@, 0, funding@);
    let mut submit_tx: Vec<DataTransactionHeader> = Vec::new();
    let mut i: usize = 0;
    while i < candidates.len()
        invariant
            i <= candidates@.len(),
            funding.wf(),
            balances.wf(),
            fits == sums_fit(candidates@, 0, limits, balances@, 0, old(funding)@),
            outcome == data_selection(
                candidates@,
                0,
                limits,
                balances@,
                Seq::empty(),
                old(funding)@,
            ),
            outcome == data_selection(
                candidates@,
                i as int,
                limits,
                balances@,
                submit_tx@,
                funding@,
            ),
            fits == sums_fit(candidates@, i as int, limits, balances@, submit_tx@.len(), funding@),
        decreases candidates@.len() - i,
    {
        let c = &candidates[i];
        let for_good = match c.tx.ledger {
            Some(DataLedger::Publish) => true,
            _ => false,
        };
        if for_good && check_fees(c) {
            match validate_anchor_for_inclusion(
                limits.min_anchor_height,
                limits.max_anchor_height,
                c.tx.anchor,
                &c.anchor,
            ) {
                Err(e) => {
                    return Some(Err(e));
                },
                Ok(admitted) => {
                    if admitted {
                        if !funding.can_add(c.tx.signer, c.tx.total_cost) {
                            return None;
                        }
                        if check_funding(c.tx.signer, c.tx.total_cost, balances, funding) {
                            submit_tx.push(c.tx);
                            if submit_tx.len() >= limits.max_txs {
                                return Some(Ok(submit_tx));
                            }
                        }
                    }
                },
            }
        }
        i += 1;
    }
    Some(Ok(submit_tx))
}

/// No transaction comes before one that stands in front of it.
pub open spec fn by_fee(txs: Seq<DataTransactionHeader>) -> bool {
    forall|j: int, k: int|
        0 <= j < k < txs.len() ==> !(#[trigger] txs[k]).before(#[trigger] txs[j])
}

proof fn lemma_selection_keeps_order(
    candidates: Seq<DataTxCandidate>,
    i: int,
    limits: InclusionLimits,
    balances: Map<IrysAddress, U256>,
    selected: Seq<DataTransactionHeader>,
    funding: FundingView,
)
    requires
        0 <= i <= candidates.len(),
        selected.len() < limits.max_txs,
        by_fee(selected),
        forall|j: int, k: int|
            0 <= j < k < candidates.len() ==> !(#[trigger] candidates[k]).tx.before(
                (#[trigger] candidates[j]).tx,
            ),
        forall|s: int, k: int|
            0 <= s < selected.len() && i <= k < candidates.len() ==> !(
            #[trigger] candidates[k]).tx.before(#[trigger] selected[s]),
    ensures
        ({
            let all = data_selection(candidates, i, limits, balances, selected, funding).selected;
            by_fee(all) && all.len() <= limits.max_txs
        }),
    decreases candidates.len() - i,
{
    if i < candidates.len() {
        let tx = candidates[i].tx;
        let after = considered(funding, balances, tx.signer, tx.total_cost);
        let more = selected.push(tx);
        assert(by_fee(more)) by {
            assert forall|j: int, k: int| 0 <= j < k < more.len() implies !(
            #[trigger] more[k]).before(#[trigger] more[j]) by {
                if k == selected.len() {
                    assert(!candidates[i].tx.before(selected[j]));
                }
            }
        }
        match data_verdict(candidates[i], limits) {
            Verdict::Abort => {},
            Verdict::Skip => {
                lemma_selection_keeps_order(
                    candidates,
                    i + 1,
                    limits,
                    balances,
                    selected,
                    funding,
                );
            },
            Verdict::Consider => {
                if !can_pay(funding, balances, tx.signer, tx.total_cost) {
                    lemma_selection_keeps_order(
                        candidates,
                        i + 1,
                        limits,
                        balances,
                        selected,
                        after,
                    );
                } else if selected.len() + 1 < limits.max_txs {
                    assert forall|s: int, k: int|
                        0 <= s < more.len() && i + 1 <= k < candidates.len() implies !(
                    #[trigger] candidates[k]).tx.before(#[trigger] more[s]) by {
                        if s < selected.len() {
                            assert(!candidates[k].tx.before(selected[s]));
                        } else {
                            assert(!candidates[k].tx.before(candidates[i].tx));
                        }
                    }
                    lemma_selection_keeps_order(candidates, i + 1, limits, balances, more, after);
                }
            },
        }
    }
}

/// The data transactions that are selected come by fee, the highest first, and by id where they pay
/// the same, and there are no more of them than a block may hold. `sorted` are the pending ones in
/// the order in which they are considered. A block that may hold none still gets one.
pub proof fn law_selected_data_txs_come_by_fee(
    pending: Seq<DataTransactionHeader>,
    sorted: Seq<DataTransactionHeader>,
    candidates: Seq<DataTxCandidate>,
    limits: InclusionLimits,
    balances: Map<IrysAddress, U256>,
    funding: FundingView,
    j: int,
    k: int,
)
    requires
        ordered(pending, sorted),
        candidates.len() == sorted.len(),
        forall|n: int| 0 <= n < sorted.len() ==> (#[trigger] candidates[n]).tx == sorted[n],
        limits.max_txs > 0,
    ensures
        ({
            let selected = data_selection(
                candidates,
                0,
                limits,
                balances,
                Seq::empty(),
                funding,
            ).selected;
            &&& selected.len() <= limits.max_txs
            &&& 0 <= j < k < selected.len() ==> selected[j].user_fee@ > selected[k].user_fee@ || (
            selected[j].user_fee@ == selected[k].user_fee@ && selected[j].id.rank()
                <= selected[k].id.rank())
        }),
{
    let p = choose|p: Seq<int>| in_order(pending, sorted, p);
    assert forall|a: int, b: int| 0 <= a < b < candidates.len() implies !(
    #[trigger] candidates[b]).tx.before((#[trigger] candidates[a]).tx) by {
        DataTransactionHeader::before_is_asymmetric(sorted[a], sorted[b]);
        assert(sorted[a].before(sorted[b]) || !sorted[b].before(sorted[a]));
    }
    lemma_selection_keeps_order(candidates, 0, limits, balances, Seq::empty(), funding);
    let selected = data_selection(candidates, 0, limits, balances, Seq::empty(), funding).selected;
    if 0 <= j < k < selected.len() {
        assert(!selected[k].before(selected[j]));
    }
}

/// The balances cover all transactions that are selected, commitments and data transactions
/// together, and there are no more data transactions than a block may hold, but at least one
/// whatever that is.
pub proof fn law_selected_data_txs_are_covered(
    candidates: Seq<DataTxCandidate>,
    i: int,
    limits: InclusionLimits,
    balances: Map<IrysAddress, U256>,
    commitments: Seq<CommitmentTransaction>,
    selected: Seq<DataTransactionHeader>,
    funding: FundingView,
)
    requires
        0 <= i <= candidates.len(),
        covered(funding, balances, commitment_payments(commitments) + data_payments(selected)),
        selected.len() == 0 || selected.len() < limits.max_txs,
        sums_fit(candidates, i, limits, balances, selected.len(), funding),
    ensures
        ({
            let outcome = data_selection(candidates, i, limits, balances, selected, funding);
            &&& covered(
                outcome.funding,
                balances,
                commitment_payments(commitments) + data_payments(outcome.selected),
            )
            &&& outcome.selected.len() <= 1 || outcome.selected.len() <= limits.max_txs
        }),
    decreases candidates.len() - i,
{
    if i < candidates.len() {
        let tx = candidates[i].tx;
        let after = considered(funding, balances, tx.signer, tx.total_cost);
        let payments = commitment_payments(commitments) + data_payments(selected);
        if data_verdict(candidates[i], limits) is Consider {
            law_selected_payments_are_covered(
                funding,
                balances,
                tx.signer,
                tx.total_cost,
                payments,
            );
        }
        assert(commitment_payments(commitments) + data_payments(selected.push(tx))
            =~= payments.push((tx.signer, tx.total_cost@)));
        match data_verdict(candidates[i], limits) {
            Verdict::Abort => {},
            Verdict::Skip => {
                law_selected_data_txs_are_covered(
                    candidates,
                    i + 1,
                    limits,
                    balances,
                    commitments,
                    selected,
                    funding,
                );
            },
            Verdict::Consider => {
                if !can_pay(funding, balances, tx.signer, tx.total_cost) {
                    law_selected_data_txs_are_covered(
                        candidates,
                        i + 1,
                        limits,
                        balances,
                        commitments,
                        selected,
                        after,
                    );
                } else if selected.len() + 1 < limits.max_txs {
                    law_selected_data_txs_are_covered(
                        candidates,
                        i + 1,
                        limits,
                        balances,
                        commitments,
                        selected.push(tx),
                        after,
                    );
                }
            },
        }
    }
}

/// Every data transaction that is selected is one for permanent storage that pays at least what is
/// asked for the term and for good, whose fees can be distributed, and whose anchor lies between
/// the limits.
pub proof fn law_selected_data_txs_are_eligible(
    candidates: Seq<DataTxCandidate>,
    i: int,
    limits: InclusionLimits,
    balances: Map<IrysAddress, U256>,
    selected: Seq<DataTransactionHeader>,
    funding: FundingView,
    k: int,
)
    requires
        0 <= i <= candidates.len(),
        selected.len() <= k,
        k < data_selection(candidates, i, limits, balances, selected, funding).selected.len(),
    ensures
        ({
            let outcome = data_selection(candidates, i, limits, balances, selected, funding);
            exists|j: int|
                {
                    &&& i <= j < candidates.len()
                    &&& (#[trigger] candidates[j]).tx == outcome.selected[k]
                    &&& data_verdict(candidates[j], limits) is Consider
                    &&& candidates[j].tx.ledger == Some(DataLedger::Publish)
                    &&& candidates[j].expected_term_fee is Some
                    &&& candidates[j].tx.term_fee@ >= candidates[j].expected_term_fee->0@
                    &&& candidates[j].expected_perm_fee is Some
                    &&& candidates[j].tx.perm_fee is Some
                    &&& candidates[j].tx.perm_fee->0@ >= candidates[j].expected_perm_fee->0@
                    &&& candidates[j].term_charges_valid
                    &&& candidates[j].publish_charges_valid
                    &&& candidates[j].anchor is Height
                    &&& limits.min_anchor_height <= candidates[j].anchor->Height_0
                    &&& candidates[j].anchor->Height_0 <= limits.max_anchor_height
                }
        }),
    decreases candidates.len() - i,
{
    if i < candidates.len() {
        let tx = candidates[i].tx;
        let after = considered(funding, balances, tx.signer, tx.total_cost);
        match data_verdict(candidates[i], limits) {
            Verdict::Abort => {},
            Verdict::Skip => {
                law_selected_data_txs_are_eligible(
                    candidates,
                    i + 1,
                    limits,
                    balances,
                    selected,
                    funding,
                    k,
                );
            },
            Verdict::Consider => {
                if !can_pay(funding, balances, tx.signer, tx.total_cost) {
                    law_selected_data_txs_are_eligible(
                        candidates,
                        i + 1,
                        limits,
                        balances,
                        selected,
                        after,
                        k,
                    );
                } else if selected.len() + 1 < limits.max_txs {
                    lemma_selection_extends(
                        candidates,
                        i + 1,
                        limits,
                        balances,
                        selected.push(tx),
                        after,
                    );
                    if k > selected.len() {
                        law_selected_data_txs_are_eligible(
                            candidates,
                            i + 1,
                            limits,
                            balances,
                            selected.push(tx),
                            after,
                            k,
                        );
                    } else {
                        let longer = data_selection(
                            candidates,
                            i + 1,
                            limits,
                            balances,
                            selected.push(tx),
                            after,
                        ).selected;
                        assert(selected.push(tx)[k] == longer.subrange(
                            0,
                            selected.push(tx).len() as int,
                        )[k]);
                        assert(candidates[i].tx == longer[k]);
                    }
                } else {
                    assert(candidates[i].tx == tx);
                }
            },
        }
    }
}

/// A selection keeps what was selected before.
proof fn lemma_selection_extends(
    candidates: Seq<DataTxCandidate>,
    i: int,
    limits: InclusionLimits,
    balances: Map<IrysAddress, U256>,
    selected: Seq<DataTransactionHeader>,
    funding: FundingView,
)
    requires
        0 <= i <= candidates.len(),
    ensures
        selected.is_prefix_of(
            data_selection(candidates, i, limits, balances, selected, funding).selected,
        ),
    decreases candidates.len() - i,
{
    if i < candidates.len() {
        let tx = candidates[i].tx;
        let after = considered(funding, balances, tx.signer, tx.total_cost);
        lemma_selection_extends(candidates, i + 1, limits, balances, selected, funding);
        lemma_selection_extends(candidates, i + 1, limits, balances, selected, after);
        lemma_selection_extends(candidates, i + 1, limits, balances, selected.push(tx), after);
        let longer = data_selection(
            candidates,
            i + 1,
            limits,
            balances,
            selected.push(tx),
            after,
        ).selected;
        assert(selected.is_prefix_of(longer)) by {
            assert forall|m: int| 0 <= m < selected.len() implies selected[m] == longer[m] by {
                assert(selected.push(tx)[m] == longer[m]);
            }
            assert(selected =~= longer.take(selected.len() as int));
        }
        assert(selected.is_prefix_of(selected.push(tx))) by {
            assert(selected =~= selected.push(tx).take(selected.len() as int));
        }
    }
}

/// What the amounts come to, as far as an amount can say.
pub open spec fn saturated(n: nat) -> nat {
    if n < two_pow_256() {
        n
    } else {
        (two_pow_256() - 1) as nat
    }
}

/// What the data transactions pay in fees.
pub open spec fn fees_of(txs: Seq<DataTransactionHeader>) -> nat
    decreases txs.len(),
{
    if txs.len() == 0 {
        0
    } else {
        fees_of(txs.drop_last()) + txs.last().user_fee@
    }
}

/// What the commitments cost.
pub open spec fn costs_of(txs: Seq<CommitmentTransaction>) -> nat
    decreases txs.len(),
{
    if txs.len() == 0 {
        0
    } else {
        costs_of(txs.drop_last()) + txs.last().total_cost@
    }
}

/// What the selected transactions bring in all, as far as an amount can say.
pub fn total_fee_collected(
    submit_tx: &Vec<DataTransactionHeader>,
    commitment_tx: &Vec<CommitmentTransaction>,
) -> (r: U256)
    ensures
        r@ == saturated(fees_of(submit_tx@) + costs_of(commitment_tx@)),
{
    let mut fees = U256::zero();
    let mut i: usize = 0;
    proof {
        lemma_u256_bound(fees);
    }
    while i < submit_tx.len()
        invariant
            i <= submit_tx@.len(),
            fees@ == saturated(fees_of(submit_tx@.take(i as int))),
        decreases submit_tx@.len() - i,
    {
        proof {
            assert(submit_tx@.take(i as int + 1).drop_last() =~= submit_tx@.take(i as int));
            lemma_u256_bound(fees);
            lemma_u256_bound(submit_tx@[i as int].user_fee);
        }
        fees = fees.saturating_add(&submit_tx[i].user_fee);
        i += 1;
    }
    assert(submit_tx@.take(i as int) =~= submit_tx@);
    let mut costs = U256::zero();
    let mut k: usize = 0;
    while k < commitment_tx.len()
        invariant
            k <= commitment_tx@.len(),
            costs@ == saturated(costs_of(commitment_tx@.take(k as int))),
        decreases commitment_tx@.len() - k,
    {
        proof {
            assert(commitment_tx@.take(k as int + 1).drop_last() =~= commitment_tx@.take(k as int));
            lemma_u256_bound(costs);
            lemma_u256_bound(commitment_tx@[k as int].total_cost);
        }
        costs = costs.saturating_add(&commitment_tx[k].total_cost);
        k += 1;
    }
    assert(commitment_tx@.take(k as int) =~= commitment_tx@);
    proof {
        lemma_u256_bound(fees);
        lemma_u256_bound(costs);
    }
    fees.saturating_add(&costs)
}

/// From which percentage of passed over transactions on a selection is worth a warning.
pub const REJECTION_RATE_THRESHOLD: usize = 70;

/// How many of a hundred transactions were passed over, if that is worth a warning.
pub fn high_rejection_rate(total_available: usize, total_selected: usize) -> (r: Option<usize>)
    requires
        total_selected <= total_available,
        (total_available - total_selected) * 100 <= usize::MAX,
    ensures
        ({
            let rate = ((total_available - total_selected) * 100) / (total_available as int);
            r == if total_available > 0 && rate > REJECTION_RATE_THRESHOLD {
                Some(rate as usize)
            } else {
                None
            }
        }),
{
    if total_available > 0 {
        let rate: usize = ((total_available - total_selected) * 100) / total_available;
        if rate > REJECTION_RATE_THRESHOLD {
            return Some(rate);
        }
    }
    None
}

/// What the candidates from `i` on ask of an account.
pub open spec fn still_asked(
    candidates: Seq<DataTxCandidate>,
    i: int,
    signer: IrysAddress,
) -> nat
    decreases candidates.len() - i,
{
    if i < 0 || i >= candidates.len() {
        0
    } else if candidates[i].tx.signer == signer {
        candidates[i].tx.total_cost@ + still_asked(candidates, i + 1, signer)
    } else {
        still_asked(candidates, i + 1, signer)
    }
}

/// A data transaction for permanent storage that pays at least what is asked for the term and for
/// good, whose fees can be distributed, whose anchor lies between the limits and whose signer has
/// the means for all of their candidates is selected as long as the block has room.
pub proof fn law_paying_data_txs_are_selected(
    candidates: Seq<DataTxCandidate>,
    i: int,
    limits: InclusionLimits,
    balances: Map<IrysAddress, U256>,
    selected: Seq<DataTransactionHeader>,
    funding: FundingView,
    j: int,
)
    requires
        0 <= i <= j < candidates.len(),
        data_selection(candidates, i, limits, balances, selected, funding).failed_at is None,
        candidates[j].tx.ledger == Some(DataLedger::Publish),
        candidates[j].expected_term_fee is Some,
        candidates[j].expected_perm_fee is Some,
        candidates[j].tx.perm_fee is Some,
        candidates[j].tx.term_fee@ >= candidates[j].expected_term_fee->0@,
        candidates[j].tx.perm_fee->0@ >= candidates[j].expected_perm_fee->0@,
        candidates[j].term_charges_valid,
        candidates[j].publish_charges_valid,
        candidates[j].anchor is Height,
        limits.min_anchor_height <= candidates[j].anchor->Height_0 <= limits.max_anchor_height,
        !funding.unfunded.contains(candidates[j].tx.signer),
        balances.contains_key(candidates[j].tx.signer),
        (if funding.spent.contains_key(candidates[j].tx.signer) {
            funding.spent[candidates[j].tx.signer]@
        } else {
            0
        }) + still_asked(candidates, i, candidates[j].tx.signer)
            <= balances[candidates[j].tx.signer]@,
    ensures
        ({
            let outcome = data_selection(candidates, i, limits, balances, selected, funding);
            outcome.selected.contains(candidates[j].tx) || outcome.selected.len() >= limits.max_txs
        }),
    decreases candidates.len() - i,
{
    let s = candidates[j].tx.signer;
    let tx = candidates[i].tx;
    let after = considered(funding, balances, tx.signer, tx.total_cost);
    let more = selected.push(tx);
    lemma_u256_bound(balances[s]);
    if tx.signer == s {
        law_consideration_touches_one_account(funding, balances, s, tx.total_cost, s);
        assert(can_pay(funding, balances, s, tx.total_cost));
    }
    match data_verdict(candidates[i], limits) {
        Verdict::Abort => {},
        Verdict::Skip => {
            assert(i != j);
            law_paying_data_txs_are_selected(
                candidates,
                i + 1,
                limits,
                balances,
                selected,
                funding,
                j,
            );
        },
        Verdict::Consider => {
            if !can_pay(funding, balances, tx.signer, tx.total_cost) {
                law_paying_data_txs_are_selected(
                    candidates,
                    i + 1,
                    limits,
                    balances,
                    selected,
                    after,
                    j,
                );
            } else if selected.len() + 1 < limits.max_txs {
                if i == j {
                    lemma_selection_extends(candidates, i + 1, limits, balances, more, after);
                    let all = data_selection(
                        candidates,
                        i + 1,
                        limits,
                        balances,
                        more,
                        after,
                    ).selected;
                    assert(more == all.take(more.len() as int));
                    assert(all[selected.len() as int] == more[selected.len() as int]);
                } else {
                    law_paying_data_txs_are_selected(
                        candidates,
                        i + 1,
                        limits,
                        balances,
                        more,
                        after,
                        j,
                    );
                }
            }
        },
    }
}

/// The selection of data transactions fails only at one that pays for permanent storage and whose
/// anchor is not found.
pub proof fn law_selection_fails_only_at_a_missing_anchor(
    candidates: Seq<DataTxCandidate>,
    i: int,
    limits: InclusionLimits,
    balances: Map<IrysAddress, U256>,
    selected: Seq<DataTransactionHeader>,
    funding: FundingView,
)
    requires
        0 <= i <= candidates.len(),
    ensures
        data_selection(candidates, i, limits, balances, selected, funding).failed_at matches Some(
            k,
        ) ==> {
            &&& i <= k < candidates.len()
            &&& !(candidates[k].anchor is Height)
            &&& candidates[k].tx.ledger == Some(DataLedger::Publish)
            &&& candidates[k].expected_term_fee is Some
            &&& candidates[k].tx.term_fee@ >= candidates[k].expected_term_fee->0@
            &&& candidates[k].expected_perm_fee is Some
            &&& candidates[k].tx.perm_fee is Some
            &&& candidates[k].tx.perm_fee->0@ >= candidates[k].expected_perm_fee->0@
        },
    decreases candidates.len() - i,
{
    if i < candidates.len() {
        let tx = candidates[i].tx;
        let after = considered(funding, balances, tx.signer, tx.total_cost);
        law_selection_fails_only_at_a_missing_anchor(
            candidates,
            i + 1,
            limits,
            balances,
            selected,
            funding,
        );
        law_selection_fails_only_at_a_missing_anchor(
            candidates,
            i + 1,
            limits,
            balances,
            selected,
            after,
        );
        law_selection_fails_only_at_a_missing_anchor(
            candidates,
            i + 1,
            limits,
            balances,
            selected.push(tx),
            after,
        );
    }
}

/// The sums of a selection fit where what every account is asked for in all fits an amount.
pub proof fn law_selection_adds_up_where_all_costs_do(
    candidates: Seq<DataTxCandidate>,
    i: int,
    limits: InclusionLimits,
    balances: Map<IrysAddress, U256>,
    count: nat,
    funding: FundingView,
)
    requires
        0 <= i <= candidates.len(),
        forall|a: IrysAddress|
            (if funding.spent.contains_key(a) {
                funding.spent[a]@
            } else {
                0
            }) + #[trigger] still_asked(candidates, i, a) < two_pow_256(),
    ensures
        sums_fit(candidates, i, limits, balances, count, funding),
    decreases candidates.len() - i,
{
    if i < candidates.len() {
        let tx = candidates[i].tx;
        let after = considered(funding, balances, tx.signer, tx.total_cost);
        assert(still_asked(candidates, i, tx.signer) == tx.total_cost@ + still_asked(
            candidates,
            i + 1,
            tx.signer,
        ));
        assert(adds_up(funding, tx.signer, tx.total_cost));
        assert forall|a: IrysAddress|
            (if after.spent.contains_key(a) {
                after.spent[a]@
            } else {
                0
            }) + #[trigger] still_asked(candidates, i + 1, a) < two_pow_256() by {
            law_consideration_touches_one_account(funding, balances, tx.signer, tx.total_cost, a);
            assert(still_asked(candidates, i, a) >= still_asked(candidates, i + 1, a));
        }
        assert forall|a: IrysAddress|
            (if funding.spent.contains_key(a) {
                funding.spent[a]@
            } else {
                0
            }) + #[trigger] still_asked(candidates, i + 1, a) < two_pow_256() by {
            assert(still_asked(candidates, i, a) >= still_asked(candidates, i + 1, a));
        }
        law_selection_adds_up_where_all_costs_do(
            candidates,
            i + 1,
            limits,
            balances,
            count,
            funding,
        );
        law_selection_adds_up_where_all_costs_do(
            candidates,
            i + 1,
            limits,
            balances,
            count,
            after,
        );
        law_selection_adds_up_where_all_costs_do(
            candidates,
            i + 1,
            limits,
            balances,
            count + 1,
            after,
        );
    }
}

/// A commitment is simulated exactly if it is valid and not on the chain, its anchor lies between
/// the limits, and it does not stake for a signer who has staked. A valid one that is not on the
/// chain stops the selection if its anchor is not found.
pub proof fn law_new_valid_commitments_are_simulated(
    c: CommitmentCandidate,
    limits: InclusionLimits,
)
    ensures
        commitment_verdict(c, limits) is Consider <==> {
            &&& !c.confirmed
            &&& c.valid
            &&& c.anchor is Height
            &&& limits.min_anchor_height <= c.anchor->Height_0
            &&& c.anchor->Height_0 <= limits.max_anchor_height
            &&& c.tx.commitment_type is Stake ==> !c.is_staked
        },
        commitment_verdict(c, limits) is Abort <==> !c.confirmed && c.valid && !(
        c.anchor is Height),
{
}

/// The commitments that are retained are those whose versions are allowed; all of them are where
/// all versions are.
pub proof fn law_allowed_versions_are_retained(
    txs: Seq<CommitmentTransaction>,
    allowed: Seq<bool>,
    i: int,
)
    requires
        allowed.len() >= txs.len(),
        0 <= i < txs.len(),
    ensures
        allowed[i] ==> of_allowed_versions(txs, allowed).contains(txs[i]),
        of_allowed_versions(txs, allowed).len() <= txs.len(),
        forall|tx: CommitmentTransaction| #[trigger]
            of_allowed_versions(txs, allowed).contains(tx) ==> exists|k: int|
                0 <= k < txs.len() && allowed[k] && #[trigger] txs[k] == tx,
        (forall|k: int| 0 <= k < txs.len() ==> #[trigger] allowed[k]) ==> of_allowed_versions(
            txs,
            allowed,
        ) =~= txs,
    decreases txs.len(),
{
    let rest = txs.drop_last();
    let before = of_allowed_versions(rest, allowed);
    let after = of_allowed_versions(txs, allowed);
    if rest.len() > 0 {
        law_allowed_versions_are_retained(
            rest,
            allowed,
            if i < rest.len() {
                i
            } else {
                0
            },
        );
    }
    if allowed[i] {
        if i < rest.len() {
            assert(rest[i] == txs[i]);
            let k = before.index_of(txs[i]);
            assert(after[k] == txs[i]);
        } else {
            assert(after.last() == txs[i]);
        }
    }
    assert forall|tx: CommitmentTransaction| #[trigger] after.contains(tx) implies exists|k: int|
        0 <= k < txs.len() && allowed[k] && #[trigger] txs[k] == tx by {
        let m = after.index_of(tx);
        if m < before.len() {
            assert(before[m] == tx);
            assert(before.contains(tx));
            assert(rest.len() > 0);
            let k = choose|k: int| 0 <= k < rest.len() && allowed[k] && #[trigger] rest[k] == tx;
            assert(txs[k] == tx);
        } else {
            assert(txs[txs.len() - 1] == tx);
        }
    }
    if forall|k: int| 0 <= k < txs.len() ==> #[trigger] allowed[k] {
        assert(allowed[txs.len() - 1]);
        if rest.len() > 0 {
            assert(before =~= rest);
        }
        assert(after =~= txs);
    }
}

/// What a block brings in grows by the fee of each data transaction and the cost of each
/// commitment, as far as an amount can say.
pub proof fn law_income_adds_up(
    txs: Seq<DataTransactionHeader>,
    tx: DataTransactionHeader,
    commitments: Seq<CommitmentTransaction>,
    commitment: CommitmentTransaction,
    n: nat,
)
    ensures
        fees_of(Seq::empty()) == 0,
        fees_of(txs.push(tx)) == fees_of(txs) + tx.user_fee@,
        costs_of(Seq::empty()) == 0,
        costs_of(commitments.push(commitment)) == costs_of(commitments) + commitment.total_cost@,
        n < two_pow_256() ==> saturated(n) == n,
        n >= two_pow_256() ==> saturated(n) == two_pow_256() - 1,
{
    assert(txs.push(tx).drop_last() =~= txs);
    assert(commitments.push(commitment).drop_last() =~= commitments);
}

} // verus!
