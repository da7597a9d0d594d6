use irys_actors::mempool::types::{
    MempoolPendingCommitmentTx, MempoolPendingDataTx, MempoolPendingTxs, MempoolTxsCursor,
};
use irys_actors::primitives::{IrysAddress, H256};

fn id(byte: u8) -> H256 {
    H256::from_bytes(&[byte; 32])
}

#[test]
fn cursor_round_trips_both_bounds() {
    let c = MempoolTxsCursor { after_data_id: Some(id(1)), after_commitment_id: Some(id(2)) };
    assert_eq!(MempoolTxsCursor::decode(&c.encode()).unwrap(), c);
}

#[test]
fn cursor_round_trips_none_markers() {
    let c = MempoolTxsCursor::default();
    assert_eq!(c.encode(), "v1._._");
    assert_eq!(MempoolTxsCursor::decode(&c.encode()).unwrap(), c);
}

#[test]
fn cursor_rejects_bad_version() {
    assert!(MempoolTxsCursor::decode("v0._._").is_err());
    assert!(MempoolTxsCursor::decode("not-a-cursor").is_err());
}

#[test]
fn cursor_advance_keeps_prior_when_page_empty() {
    let prev = MempoolTxsCursor { after_data_id: Some(id(9)), after_commitment_id: None };
    let advanced = prev.advance(&vec![], &vec![]);
    assert_eq!(advanced.after_data_id, Some(id(9)));
    assert_eq!(advanced.after_commitment_id, None);
}

#[test]
fn cursor_text_is_base58() {
    // Thirty-two zero bytes are thirty-two times the first digit.
    let c = MempoolTxsCursor { after_data_id: Some(H256::zero()), after_commitment_id: None };
    assert_eq!(c.encode(), "v1.11111111111111111111111111111111._");
}

#[test]
fn cursor_refuses_what_is_no_identifier() {
    assert!(MempoolTxsCursor::decode("v1.0._").is_err());
    assert!(MempoolTxsCursor::decode("v1.111._").is_err());
    assert!(MempoolTxsCursor::decode("v1._").is_err());
    assert!(MempoolTxsCursor::decode("v1._._._").is_err());
}

#[test]
fn cursor_advance_takes_the_last_of_a_page() {
    let data = |n: u8| MempoolPendingDataTx {
        id: id(n),
        byte_size: 1,
        chunks: 1,
        data_root: id(n),
        ledger_id: 0,
    };
    let commitment =
        |n: u8| MempoolPendingCommitmentTx { id: id(n), address: IrysAddress { hi: 0, lo: 1 } };
    let next = MempoolTxsCursor::default()
        .advance(&vec![data(1), data(2)], &vec![commitment(3), commitment(4)]);
    assert_eq!(next.after_data_id, Some(id(2)));
    assert_eq!(next.after_commitment_id, Some(id(4)));
}

#[test]
fn an_empty_page_has_only_the_chunks() {
    let page = MempoolPendingTxs::empty(5);
    assert_eq!(page.pending_chunks_count, 5);
    assert!(page.data_txs.is_empty() && page.commitment_txs.is_empty());
    assert!(!page.truncated && page.next_cursor.is_none());
}
