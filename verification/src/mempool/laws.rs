//! What holds of the mempool whatever comes in.

use crate::mempool::state::{
    address_admission, commitment_insertion, committed_value, data_insertion, holds_commitment,
    is_lowest_fee, is_lowest_value, lemma_lowest_fee_is, lemma_lowest_value_is, lowest_fee,
    lowest_value, summed_cost,
};
use crate::mempool::errors::MempoolFullReason;
use crate::primitives::{two_pow_256, H256, IrysAddress, OrderedKey};
use crate::transactions::{CommitmentTransaction, DataTransactionHeader};
use vstd::prelude::*;

verus! {

/// Among data transactions there is one with the lowest fee.
pub proof fn lemma_lowest_fee_exists(data: Map<H256, DataTransactionHeader>) -> (id: H256)
    requires
        data.dom().finite(),
        data.dom().len() > 0,
    ensures
        is_lowest_fee(data, id),
        lowest_fee(data) == id,
    decreases data.dom().len(),
{
    let x = data.dom().choose();
    assert(data.contains_key(x));
    let rest = data.remove(x);
    assert(rest.dom() =~= data.dom().remove(x));
    let id = if rest.dom().len() == 0 {
        assert forall|other: H256| #[trigger] data.contains_key(other) implies other == x by {
            if other != x {
                assert(rest.dom().contains(other));
                assert(rest.dom().remove(other).len() == rest.dom().len() - 1);
            }
        }
        x
    } else {
        let y = lemma_lowest_fee_exists(rest);
        assert(rest.contains_key(y));
        let first = if data[x].user_fee@ < data[y].user_fee@ || (data[x].user_fee@
            == data[y].user_fee@ && x.rank() <= y.rank()) {
            x
        } else {
            y
        };
        assert forall|other: H256| #[trigger]
            data.contains_key(other) implies data[first].user_fee@ < data[other].user_fee@ || (
        data[first].user_fee@ == data[other].user_fee@ && first.rank() <= other.rank()) by {
            if other != x {
                assert(rest.contains_key(other));
            }
        }
        first
    };
    lemma_lowest_fee_is(data, id);
    id
}

/// Among addresses there is one that commits least.
pub proof fn lemma_lowest_value_exists(
    commitments: Map<IrysAddress, Seq<CommitmentTransaction>>,
) -> (a: IrysAddress)
    requires
        commitments.dom().finite(),
        commitments.dom().len() > 0,
    ensures
        is_lowest_value(commitments, a),
        lowest_value(commitments) == a,
    decreases commitments.dom().len(),
{
    let x = commitments.dom().choose();
    assert(commitments.contains_key(x));
    let rest = commitments.remove(x);
    assert(rest.dom() =~= commitments.dom().remove(x));
    let a = if rest.dom().len() == 0 {
        assert forall|other: IrysAddress| #[trigger]
            commitments.contains_key(other) implies other == x by {
            if other != x {
                assert(rest.dom().contains(other));
                assert(rest.dom().remove(other).len() == rest.dom().len() - 1);
            }
        }
        x
    } else {
        let y = lemma_lowest_value_exists(rest);
        assert(rest.contains_key(y));
        let first = if committed_value(commitments[x]) < committed_value(commitments[y]) || (
        committed_value(commitments[x]) == committed_value(commitments[y]) && x.rank()
            <= y.rank()) {
            x
        } else {
            y
        };
        assert forall|other: IrysAddress| #[trigger]
            commitments.contains_key(other) implies committed_value(commitments[first])
            < committed_value(commitments[other]) || (committed_value(commitments[first])
            == committed_value(commitments[other]) && first.rank() <= other.rank()) by {
            if other != x {
                assert(rest.contains_key(other));
            }
        }
        first
    };
    lemma_lowest_value_is(commitments, a);
    a
}

/// No more data transactions are held than there is room for, whatever comes.
pub proof fn law_data_pool_stays_within_its_bound(
    data: Map<H256, DataTransactionHeader>,
    max_data: usize,
    tx: DataTransactionHeader,
)
    requires
        data.dom().finite(),
        data.dom().len() <= max_data,
    ensures
        data_insertion(data, max_data, tx) matches Ok(after) ==> after.dom().finite()
            && after.dom().len() <= max_data,
{
    if data_insertion(data, max_data, tx) is Ok {
        let after = data_insertion(data, max_data, tx)->Ok_0;
        if data.contains_key(tx.id) {
            assert(after.dom() =~= data.dom());
        } else if data.dom().len() < max_data {
            assert(after.dom() =~= data.dom().insert(tx.id));
        } else {
            let lowest = lemma_lowest_fee_exists(data);
            assert(data.dom().contains(lowest));
            assert(after.dom() =~= data.dom().remove(lowest).insert(tx.id));
        }
    }
}

/// A data transaction that was taken in is held, and another one gave way at most: one that pays
/// less than the new one, and no more than any other.
pub proof fn law_only_the_lowest_fee_gives_way(
    data: Map<H256, DataTransactionHeader>,
    max_data: usize,
    tx: DataTransactionHeader,
    id: H256,
    other: H256,
)
    requires
        data.dom().finite(),
        data_insertion(data, max_data, tx) is Ok,
        data.contains_key(id),
        data.contains_key(other),
    ensures
        ({
            let after = data_insertion(data, max_data, tx)->Ok_0;
            &&& after.contains_key(tx.id)
            &&& !after.contains_key(id) ==> data[id].user_fee@ < tx.user_fee@
                && data[id].user_fee@ <= data[other].user_fee@
            &&& !after.contains_key(id) && id != other ==> after.contains_key(other)
            &&& after.contains_key(id) && id != tx.id ==> after[id] == data[id]
        }),
{
    assert(data.dom().contains(id));
    if data.dom().len() == 0 {
        assert(data.dom() =~= Set::empty());
    }
    let lowest = lemma_lowest_fee_exists(data);
}

/// There are no more addresses with commitments than there is room for, and none has more than its
/// share, whatever comes.
pub proof fn law_commitment_pool_stays_within_its_bounds(
    commitments: Map<IrysAddress, Seq<CommitmentTransaction>>,
    max_addresses: usize,
    max_per_address: usize,
    tx: CommitmentTransaction,
)
    requires
        commitments.dom().finite(),
        commitments.dom().len() <= max_addresses,
        forall|a: IrysAddress| #[trigger]
            commitments.contains_key(a) ==> commitments[a].len() <= max_per_address,
    ensures
        ({
            let after = commitment_insertion(commitments, max_addresses, max_per_address, tx).0;
            &&& after.dom().finite()
            &&& after.dom().len() <= max_addresses
            &&& forall|a: IrysAddress| #[trigger]
                after.contains_key(a) ==> after[a].len() <= max_per_address
        }),
{
    let after = commitment_insertion(commitments, max_addresses, max_per_address, tx).0;
    if !(commitments.contains_key(tx.signer) && holds_commitment(commitments[tx.signer], tx.id)) {
        match address_admission(commitments, max_addresses, tx) {
            Err(_) => {},
            Ok(admitted) => {
                if commitments.contains_key(tx.signer) {
                    assert(admitted.dom() =~= commitments.dom());
                } else if commitments.dom().len() < max_addresses {
                    assert(admitted.dom() =~= commitments.dom().insert(tx.signer));
                } else {
                    let lowest = lemma_lowest_value_exists(commitments);
                    assert(commitments.dom().contains(lowest));
                    assert(admitted.dom() =~= commitments.dom().remove(lowest).insert(tx.signer));
                }
                assert(after.dom() =~= admitted.dom());
            },
        }
    }
}

/// A commitment that was taken in and comes again changes nothing.
pub proof fn law_commitment_comes_in_once(
    commitments: Map<IrysAddress, Seq<CommitmentTransaction>>,
    max_addresses: usize,
    max_per_address: usize,
    tx: CommitmentTransaction,
)
    requires
        commitment_insertion(commitments, max_addresses, max_per_address, tx).1 is None,
    ensures
        ({
            let after = commitment_insertion(commitments, max_addresses, max_per_address, tx).0;
            &&& after.contains_key(tx.signer) && holds_commitment(after[tx.signer], tx.id)
            &&& commitment_insertion(after, max_addresses, max_per_address, tx) == (
                after,
                None::<crate::mempool::errors::MempoolFullReason>,
            )
        }),
{
    let after = commitment_insertion(commitments, max_addresses, max_per_address, tx).0;
    if !(commitments.contains_key(tx.signer) && holds_commitment(commitments[tx.signer], tx.id)) {
        let list = after[tx.signer];
        assert(list[list.len() - 1] == tx);
    }
}

/// An address gives way only to a commitment that is worth more than all of its own, and no address
/// commits less than it.
pub proof fn law_only_the_lowest_value_gives_way(
    commitments: Map<IrysAddress, Seq<CommitmentTransaction>>,
    max_addresses: usize,
    max_per_address: usize,
    tx: CommitmentTransaction,
    a: IrysAddress,
    other: IrysAddress,
)
    requires
        commitments.dom().finite(),
        commitments.contains_key(a),
        commitments.contains_key(other),
        !commitment_insertion(commitments, max_addresses, max_per_address, tx).0.contains_key(a),
    ensures
        committed_value(commitments[a]) < tx.total_cost@,
        committed_value(commitments[a]) <= committed_value(commitments[other]),
        other != a ==> commitment_insertion(
            commitments,
            max_addresses,
            max_per_address,
            tx,
        ).0.contains_key(other),
{
    assert(commitments.dom().contains(a));
    if commitments.dom().len() == 0 {
        assert(commitments.dom() =~= Set::empty());
    }
    let lowest = lemma_lowest_value_exists(commitments);
}

/// A new data transaction comes in where the pool has room, or where it pays more than one that is
/// held; in a full pool it does not if every transaction that is held pays at least as much.
pub proof fn law_better_data_txs_come_in(
    data: Map<H256, DataTransactionHeader>,
    max_data: usize,
    tx: DataTransactionHeader,
    held: H256,
)
    requires
        data.dom().finite(),
        !data.contains_key(tx.id),
    ensures
        data.dom().len() < max_data ==> data_insertion(data, max_data, tx) == Ok::<
            Map<H256, DataTransactionHeader>,
            MempoolFullReason,
        >(data.insert(tx.id, tx)),
        data.contains_key(held) && data[held].user_fee@ < tx.user_fee@ ==> {
            &&& data_insertion(data, max_data, tx) is Ok
            &&& data_insertion(data, max_data, tx)->Ok_0.contains_key(tx.id)
            &&& data_insertion(data, max_data, tx)->Ok_0[tx.id] == tx
        },
        data.dom().len() >= max_data && (forall|id: H256| #[trigger]
            data.contains_key(id) ==> tx.user_fee@ <= data[id].user_fee@) ==> data_insertion(
            data,
            max_data,
            tx,
        ) is Err,
{
    if data.dom().len() > 0 {
        let lowest = lemma_lowest_fee_exists(data);
        assert(data.contains_key(lowest));
    }
    if data.contains_key(held) {
        assert(data.dom().contains(held));
        assert(data.dom().len() > 0) by {
            if data.dom().len() == 0 {
                assert(data.dom() =~= Set::empty());
            }
        }
    }
}

/// A data transaction that is held already is replaced by the new one, which keeps the heights that
/// it does not bring itself.
pub proof fn law_known_data_tx_keeps_its_heights(
    data: Map<H256, DataTransactionHeader>,
    max_data: usize,
    tx: DataTransactionHeader,
    other: H256,
)
    requires
        data.contains_key(tx.id),
    ensures
        data_insertion(data, max_data, tx) is Ok,
        ({
            let after = data_insertion(data, max_data, tx)->Ok_0;
            let held = data[tx.id].metadata;
            let merged = after[tx.id].metadata;
            &&& after.dom() =~= data.dom()
            &&& other != tx.id ==> after[other] == data[other]
            &&& after[tx.id] == DataTransactionHeader { metadata: merged, ..tx }
            &&& tx.metadata.included_height is Some ==> merged.included_height
                == tx.metadata.included_height
            &&& tx.metadata.included_height is None ==> merged.included_height
                == held.included_height
            &&& tx.metadata.promoted_height is Some ==> merged.promoted_height
                == tx.metadata.promoted_height
            &&& tx.metadata.promoted_height is None ==> merged.promoted_height
                == held.promoted_height
        }),
{
}

/// A new commitment is put behind those of its signer where these are fewer than the limit, and the
/// signer is known or there is room for another one; at the limit it is refused and the pool stays.
pub proof fn law_commitment_comes_in_where_there_is_room(
    commitments: Map<IrysAddress, Seq<CommitmentTransaction>>,
    max_addresses: usize,
    max_per_address: usize,
    tx: CommitmentTransaction,
)
    requires
        commitments.contains_key(tx.signer) ==> forall|i: int|
            0 <= i < commitments[tx.signer].len() ==> (#[trigger] commitments[tx.signer][i]).id
                != tx.id,
    ensures
        ({
            let (after, refused) = commitment_insertion(
                commitments,
                max_addresses,
                max_per_address,
                tx,
            );
            &&& commitments.contains_key(tx.signer) && commitments[tx.signer].len()
                < max_per_address ==> refused is None && after =~= commitments.insert(
                tx.signer,
                commitments[tx.signer].push(tx),
            )
            &&& commitments.contains_key(tx.signer) && commitments[tx.signer].len()
                >= max_per_address ==> refused is Some && after =~= commitments
            &&& !commitments.contains_key(tx.signer) && commitments.dom().len() < max_addresses
                && max_per_address > 0 ==> refused is None && after =~= commitments.insert(
                tx.signer,
                seq![tx],
            )
        }),
{
    assert(Seq::<CommitmentTransaction>::empty().push(tx) =~= seq![tx]);
}

/// In a full pool the first commitment of a signer comes in exactly if it is worth more than all
/// commitments of some signer who is held.
pub proof fn law_more_valuable_signers_come_in(
    commitments: Map<IrysAddress, Seq<CommitmentTransaction>>,
    max_addresses: usize,
    max_per_address: usize,
    tx: CommitmentTransaction,
    held: IrysAddress,
)
    requires
        commitments.dom().finite(),
        commitments.dom().len() >= max_addresses,
        !commitments.contains_key(tx.signer),
        max_per_address > 0,
    ensures
        ({
            let (after, refused) = commitment_insertion(
                commitments,
                max_addresses,
                max_per_address,
                tx,
            );
            &&& commitments.contains_key(held) && committed_value(commitments[held])
                < tx.total_cost@ ==> {
                &&& refused is None
                &&& after.contains_key(tx.signer)
                &&& after[tx.signer] =~= seq![tx]
            }
            &&& (forall|a: IrysAddress| #[trigger]
                commitments.contains_key(a) ==> tx.total_cost@ <= committed_value(commitments[a]))
                ==> refused is Some && after == commitments
        }),
{
    if commitments.dom().len() > 0 {
        let lowest = lemma_lowest_value_exists(commitments);
        assert(commitments.contains_key(lowest));
    }
    if commitments.contains_key(held) {
        assert(commitments.dom().contains(held));
        assert(commitments.dom().len() > 0) by {
            if commitments.dom().len() == 0 {
                assert(commitments.dom() =~= Set::empty());
            }
        }
    }
}

/// What a signer commits is what all of their commitments cost, as far as an amount can say.
pub proof fn law_commitments_add_up(txs: Seq<CommitmentTransaction>, tx: CommitmentTransaction)
    ensures
        summed_cost(Seq::empty()) == 0,
        summed_cost(txs.push(tx)) == summed_cost(txs) + tx.total_cost@,
        summed_cost(txs) < two_pow_256() ==> committed_value(txs) == summed_cost(txs),
        summed_cost(txs) >= two_pow_256() ==> committed_value(txs) == two_pow_256() - 1,
{
    assert(txs.push(tx).drop_last() =~= txs);
}

} // verus!
