//! Whether accounts can pay for the transactions that are selected for a block.

use crate::data_sync::address_set::AddressSet;
use crate::ordered_map::OrderedMap;
use crate::primitives::{
    amount_of, lemma_amount_exists, lemma_amount_of, lemma_u256_bound, two_pow_256, IrysAddress, U256,
};
use vstd::prelude::*;

verus! {

/// What the transactions considered so far ask of the accounts.
#[derive(Debug)]
pub struct FundingState {
    /// The accounts that could not pay for a transaction.
    pub unfunded_address: AddressSet,
    /// What the considered transactions of each account cost in all.
    pub fees_spent_per_address: OrderedMap<IrysAddress, U256>,
}

/// The contents of a [`FundingState`].
#[verifier::ext_equal]
pub ghost struct FundingView {
    pub unfunded: Set<IrysAddress>,
    pub spent: Map<IrysAddress, U256>,
}

impl View for FundingState {
    type V = FundingView;

    open spec fn view(&self) -> FundingView {
        FundingView { unfunded: self.unfunded_address@, spent: self.fees_spent_per_address@ }
    }
}

/// The amount under the address, nothing where there is none.
pub open spec fn amount_at(m: Map<IrysAddress, U256>, a: IrysAddress) -> nat {
    if m.contains_key(a) {
        m[a]@
    } else {
        0
    }
}

/// Whether the fee can be added to what is asked of the account. Nothing is added for an account
/// that could not pay before.
pub open spec fn adds_up(v: FundingView, signer: IrysAddress, fee: U256) -> bool {
    v.unfunded.contains(signer) || amount_at(v.spent, signer) + fee@ < two_pow_256()
}

/// Whether the account can pay `fee` on top of what was asked of it before.
pub open spec fn can_pay(
    v: FundingView,
    balances: Map<IrysAddress, U256>,
    signer: IrysAddress,
    fee: U256,
) -> bool {
    &&& !v.unfunded.contains(signer)
    &&& amount_at(balances, signer) >= amount_at(v.spent, signer) + fee@
}

/// What is asked of the accounts once a transaction has been considered. One of an account that
/// could not pay before asks for nothing more; any other adds its fee, and bars the account if the
/// account cannot pay.
pub open spec fn considered(
    v: FundingView,
    balances: Map<IrysAddress, U256>,
    signer: IrysAddress,
    fee: U256,
) -> FundingView {
    if v.unfunded.contains(signer) {
        v
    } else {
        FundingView {
            unfunded: if can_pay(v, balances, signer, fee) {
                v.unfunded
            } else {
                v.unfunded.insert(signer)
            },
            spent: v.spent.insert(signer, amount_of(amount_at(v.spent, signer) + fee@)),
        }
    }
}

impl FundingState {
    /// Nothing has been asked of any account.
    pub fn new() -> (r: FundingState)
        ensures
            r.wf(),
            r@ == (FundingView { unfunded: Set::empty(), spent: Map::empty() }),
    {
        FundingState {
            unfunded_address: AddressSet::new(),
            fees_spent_per_address: OrderedMap::new(),
        }
    }

    /// The amounts are held in the order of their addresses.
    pub open spec fn wf(&self) -> bool {
        self.fees_spent_per_address.wf()
    }

    /// Whether the fee can be added to what is asked of the account. Nothing is added for an
    /// account that could not pay before.
    pub fn can_add(&self, signer: IrysAddress, fee: U256) -> (r: bool)
        requires
            self.wf(),
        ensures
            r == adds_up(self@, signer, fee),
    {
        if self.unfunded_address.contains(signer) {
            return true;
        }
        let current_spent = match self.fees_spent_per_address.get(&signer) {
            Some(spent) => *spent,
            None => U256::zero(),
        };
        current_spent.checked_add(&fee).is_some()
    }
}

/// Whether the signer can pay for a transaction, given its balance and what the transactions
/// considered before cost it; an account that cannot is barred from then on.
pub fn check_funding(
    signer: IrysAddress,
    fee: U256,
    balances: &OrderedMap<IrysAddress, U256>,
    funding: &mut FundingState,
) -> (r: bool)
    requires
        old(funding).wf(),
        balances.wf(),
        adds_up(old(funding)@, signer, fee),
    ensures
        final(funding).wf(),
        r == can_pay(old(funding)@, balances@, signer, fee),
        final(funding)@ == considered(old(funding)@, balances@, signer, fee),
{
    let ghost v = funding@;
    if funding.unfunded_address.contains(signer) {
        return false;
    }
    let current_spent = match funding.fees_spent_per_address.get(&signer) {
        Some(spent) => *spent,
        None => U256::zero(),
    };
    let balance = match balances.get(&signer) {
        Some(balance) => *balance,
        None => U256::zero(),
    };
    let required = current_spent.checked_add(&fee).unwrap();
    let has_funds = !balance.less_than(&required);
    funding.fees_spent_per_address.insert(signer, required);
    if !has_funds {
        funding.unfunded_address.insert(signer);
    }
    proof {
        lemma_amount_of(required);
        assert(funding@ =~= considered(v, balances@, signer, fee));
    }
    has_funds
}

/// What is asked of an account never exceeds its balance unless the account is barred.
pub open spec fn within_balances(v: FundingView, balances: Map<IrysAddress, U256>) -> bool {
    forall|a: IrysAddress| #[trigger]
        v.spent.contains_key(a) && !v.unfunded.contains(a) ==> v.spent[a]@ <= amount_at(balances, a)
}

/// Considering transactions keeps what is asked of every account that is not barred within its
/// balance.
pub proof fn law_selection_stays_within_balances(
    v: FundingView,
    balances: Map<IrysAddress, U256>,
    signer: IrysAddress,
    fee: U256,
)
    requires
        within_balances(v, balances),
    ensures
        within_balances(considered(v, balances, signer, fee), balances),
{
    let after = considered(v, balances, signer, fee);
    assert forall|a: IrysAddress| #[trigger]
        after.spent.contains_key(a) && !after.unfunded.contains(a) implies after.spent[a]@
        <= amount_at(balances, a) by {
        if a != signer || v.unfunded.contains(signer) {
            assert(v.spent.contains_key(a));
        } else {
            let total = amount_at(v.spent, signer) + fee@;
            lemma_balance_bound(balances, signer);
            lemma_amount_exists(total);
        }
    }
}

/// An account that could not pay once can pay for nothing that is considered later.
pub proof fn law_barred_accounts_stay_barred(
    v: FundingView,
    balances: Map<IrysAddress, U256>,
    signer: IrysAddress,
    fee: U256,
    barred: IrysAddress,
    later: U256,
)
    requires
        v.unfunded.contains(barred),
    ensures
        considered(v, balances, signer, fee).unfunded.contains(barred),
        !can_pay(considered(v, balances, signer, fee), balances, barred, later),
{
}

/// What the payments take from an account.
pub open spec fn paid(payments: Seq<(IrysAddress, nat)>, a: IrysAddress) -> nat
    decreases payments.len(),
{
    if payments.len() == 0 {
        0
    } else if payments.last().0 == a {
        paid(payments.drop_last(), a) + payments.last().1
    } else {
        paid(payments.drop_last(), a)
    }
}

/// The payments are among what is asked of the accounts, and the balances cover them.
pub open spec fn covered(
    v: FundingView,
    balances: Map<IrysAddress, U256>,
    payments: Seq<(IrysAddress, nat)>,
) -> bool {
    forall|a: IrysAddress|
        #![trigger paid(payments, a)]
        paid(payments, a) <= amount_at(v.spent, a) && paid(payments, a) <= amount_at(balances, a)
}

/// A transaction that the account can pay for may be selected on top of all that were selected
/// before: the balances still cover them all. One that it cannot pay for changes nothing.
pub proof fn law_selected_payments_are_covered(
    v: FundingView,
    balances: Map<IrysAddress, U256>,
    signer: IrysAddress,
    fee: U256,
    payments: Seq<(IrysAddress, nat)>,
)
    requires
        covered(v, balances, payments),
        adds_up(v, signer, fee),
    ensures
        covered(
            considered(v, balances, signer, fee),
            balances,
            if can_pay(v, balances, signer, fee) {
                payments.push((signer, fee@))
            } else {
                payments
            },
        ),
{
    let after = considered(v, balances, signer, fee);
    if !v.unfunded.contains(signer) {
        lemma_amount_exists(amount_at(v.spent, signer) + fee@);
    }
    let more = payments.push((signer, fee@));
    assert(more.drop_last() =~= payments);
    assert forall|a: IrysAddress|
        #![trigger paid(more, a)]
        can_pay(v, balances, signer, fee) implies paid(more, a) <= amount_at(after.spent, a) && paid(
        more,
        a,
    ) <= amount_at(balances, a) by {
        assert(paid(payments, a) <= amount_at(v.spent, a));
    }
    assert forall|a: IrysAddress|
        #![trigger paid(payments, a)]
        paid(payments, a) <= amount_at(after.spent, a) by {
        assert(paid(payments, a) <= amount_at(v.spent, a));
    }
}

/// No balance exceeds what an amount can say.
proof fn lemma_balance_bound(balances: Map<IrysAddress, U256>, a: IrysAddress)
    ensures
        amount_at(balances, a) < two_pow_256(),
{
    if balances.contains_key(a) {
        lemma_u256_bound(balances[a]);
    } else {
        assert(0 < two_pow_256()) by (nonlinear_arith);
    }
}

/// An account that is not barred pays exactly what its balance covers beyond what is asked of it
/// already; without a balance that is nothing.
pub proof fn law_account_pays_what_its_balance_covers(
    v: FundingView,
    balances: Map<IrysAddress, U256>,
    signer: IrysAddress,
    fee: U256,
)
    ensures
        v.unfunded.contains(signer) ==> !can_pay(v, balances, signer, fee),
        !balances.contains_key(signer) && fee@ > 0 ==> !can_pay(v, balances, signer, fee),
        balances.contains_key(signer) && balances[signer]@ < fee@ ==> !can_pay(
            v,
            balances,
            signer,
            fee,
        ),
        !v.unfunded.contains(signer) && !v.spent.contains_key(signer) && balances.contains_key(
            signer,
        ) && fee@ <= balances[signer]@ ==> can_pay(v, balances, signer, fee),
        !v.unfunded.contains(signer) && v.spent.contains_key(signer) && balances.contains_key(
            signer,
        ) ==> (can_pay(v, balances, signer, fee) <==> v.spent[signer]@ + fee@
            <= balances[signer]@),
{
}

/// Two payments of an account go through exactly if its balance covers both; the second one alone
/// does not matter to it.
pub proof fn law_payments_add_up(
    v: FundingView,
    balances: Map<IrysAddress, U256>,
    signer: IrysAddress,
    first: U256,
    second: U256,
)
    requires
        !v.unfunded.contains(signer),
        !v.spent.contains_key(signer),
        balances.contains_key(signer),
        first@ <= balances[signer]@,
    ensures
        can_pay(v, balances, signer, first),
        can_pay(considered(v, balances, signer, first), balances, signer, second) <==> first@
            + second@ <= balances[signer]@,
{
    lemma_u256_bound(balances[signer]);
    lemma_amount_exists(first@);
}

/// What is asked of an account is noted, and an account that cannot pay is barred; other accounts
/// are left alone.
pub proof fn law_consideration_touches_one_account(
    v: FundingView,
    balances: Map<IrysAddress, U256>,
    signer: IrysAddress,
    fee: U256,
    other: IrysAddress,
)
    requires
        adds_up(v, signer, fee),
    ensures
        ({
            let after = considered(v, balances, signer, fee);
            &&& other != signer ==> {
                &&& after.unfunded.contains(other) <==> v.unfunded.contains(other)
                &&& after.spent.contains_key(other) <==> v.spent.contains_key(other)
                &&& v.spent.contains_key(other) ==> after.spent[other] == v.spent[other]
            }
            &&& after.unfunded.contains(signer) <==> !can_pay(v, balances, signer, fee)
            &&& !v.unfunded.contains(signer) ==> after.spent.contains_key(signer)
                && after.spent[signer]@ == (if v.spent.contains_key(signer) {
                v.spent[signer]@
            } else {
                0
            }) + fee@
        }),
{
    if !v.unfunded.contains(signer) {
        let total = amount_at(v.spent, signer) + fee@;
        lemma_amount_exists(total);
    }
}

/// What is asked of an account can be added up as long as the sum fits an amount.
pub proof fn law_small_sums_add_up(v: FundingView, signer: IrysAddress, fee: U256)
    requires
        !v.unfunded.contains(signer),
    ensures
        adds_up(v, signer, fee) <==> (if v.spent.contains_key(signer) {
            v.spent[signer]@
        } else {
            0
        }) + fee@ < two_pow_256(),
{
}

} // verus!
