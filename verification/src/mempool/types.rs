//! Listing the pending transactions, page by page.

use crate::hashing::{id_bytes, id_with_bytes, law_bytes_round_trip};
use crate::mempool::chunk_ingress::chunk_count;
use crate::primitives::{H256, IrysAddress};
use crate::text::join;
use crate::transactions::{CommitmentTransaction, DataTransactionHeader};
use base58::{FromBase58, ToBase58};
use vstd::prelude::*;
use vstd::string::{StrSliceExecFns, StringExecFns};

verus! {

/// How many transactions of each list a page holds unless it is told otherwise.
pub const MEMPOOL_TXS_DEFAULT_LIMIT: usize = 100;

/// How many transactions of each list a page holds at most.
pub const MEMPOOL_TXS_MAX_LIMIT: usize = 500;

/// The longest text that can be read as base58.
pub const MAX_BASE58_LEN: usize = 132;

/// The base58 text of the bytes.
pub uninterp spec fn base58_text(bytes: Seq<u8>) -> Seq<char>;

/// The bytes of a base58 text, if it is one.
pub uninterp spec fn base58_bytes(text: Seq<char>) -> Option<Seq<u8>>;

/// `base58::ToBase58::to_base58`: the base58 text of the bytes, for the up to 128 bytes that the
/// crate supports. It is made of the base58 alphabet alone, of which neither the full stop nor the
/// underscore is part, it is empty for no bytes only, it has fewer than 132 characters where there
/// are no more than 32 bytes, and it reads back as the bytes.
#[verifier::external_body]
fn to_base58(bytes: &[u8]) -> (r: String)
    requires
        0 < bytes@.len() <= 32,
    ensures
        r@ == base58_text(bytes@),
        0 < r@.len() < MAX_BASE58_LEN,
        forall|i: int| 0 <= i < r@.len() ==> #[trigger] r@[i] != '.' && r@[i] != '_',
        base58_bytes(r@) == Some(bytes@),
{
    bytes.to_base58()
}

/// `base58::FromBase58::from_base58`: the bytes of a base58 text, nothing for any other text. The
/// call panics on longer texts with many leading ones, which are left out.
#[verifier::external_body]
fn from_base58(text: &str) -> (r: Option<Vec<u8>>)
    requires
        text@.len() <= MAX_BASE58_LEN,
    ensures
        match r {
            Some(bytes) => base58_bytes(text@) == Some(bytes@),
            None => base58_bytes(text@) is None,
        },
{
    text.from_base58().ok()
}

/// A data transaction that waits to be included.
#[derive(Clone, Copy, Debug, PartialEq, Eq, Structural)]
pub struct MempoolPendingDataTx {
    pub id: H256,
    pub byte_size: u64,
    /// How many chunks the data has.
    pub chunks: u64,
    pub data_root: H256,
    pub ledger_id: u32,
}

impl MempoolPendingDataTx {
    /// The entry for a transaction.
    pub fn new(tx: &DataTransactionHeader, chunk_size: u64) -> (r: MempoolPendingDataTx)
        requires
            chunk_size > 0,
        ensures
            r == (MempoolPendingDataTx {
                id: tx.id,
                byte_size: tx.data_size,
                chunks: chunk_count(tx.data_size as nat, chunk_size as nat) as u64,
                data_root: tx.data_root,
                ledger_id: tx.ledger_id,
            }),
    {
        let whole: u64 = tx.data_size / chunk_size;
        let chunks: u64 = if tx.data_size % chunk_size == 0 {
            whole
        } else {
            assert(whole < u64::MAX) by (nonlinear_arith)
                requires
                    whole == tx.data_size / chunk_size,
                    tx.data_size % chunk_size != 0,
                    chunk_size > 0,
            ;
            whole + 1
        };
        MempoolPendingDataTx {
            id: tx.id,
            byte_size: tx.data_size,
            chunks,
            data_root: tx.data_root,
            ledger_id: tx.ledger_id,
        }
    }
}

/// A commitment transaction that waits to be included.
#[derive(Clone, Copy, Debug, PartialEq, Eq, Structural)]
pub struct MempoolPendingCommitmentTx {
    pub id: H256,
    pub address: IrysAddress,
}

impl MempoolPendingCommitmentTx {
    /// The entry for a transaction.
    pub fn new(tx: &CommitmentTransaction) -> (r: MempoolPendingCommitmentTx)
        ensures
            r == (MempoolPendingCommitmentTx { id: tx.id, address: tx.signer }),
    {
        MempoolPendingCommitmentTx { id: tx.id, address: tx.signer }
    }
}

/// A page of the pending transactions.
#[derive(Debug)]
pub struct MempoolPendingTxs {
    pub data_txs: Vec<MempoolPendingDataTx>,
    pub commitment_txs: Vec<MempoolPendingCommitmentTx>,
    /// How many data transactions the page holds.
    pub data_tx_count: usize,
    /// How many commitments the page holds.
    pub commitment_tx_count: usize,
    pub pending_chunks_count: usize,
    /// Whether either list goes on after the page.
    pub truncated: bool,
    /// Where the next page begins, if there is one.
    pub next_cursor: Option<String>,
    pub total_data_tx_count: Option<usize>,
    pub total_commitment_tx_count: Option<usize>,
}

impl MempoolPendingTxs {
    /// The page of a mempool without transactions.
    pub fn empty(pending_chunks_count: usize) -> (r: MempoolPendingTxs)
        ensures
            r.data_txs@.len() == 0,
            r.commitment_txs@.len() == 0,
            r.data_tx_count == 0,
            r.commitment_tx_count == 0,
            r.pending_chunks_count == pending_chunks_count,
            !r.truncated,
            r.next_cursor is None,
            r.total_data_tx_count is None,
            r.total_commitment_tx_count is None,
    {
        MempoolPendingTxs {
            data_txs: Vec::new(),
            commitment_txs: Vec::new(),
            data_tx_count: 0,
            commitment_tx_count: 0,
            pending_chunks_count,
            truncated: false,
            next_cursor: None,
            total_data_tx_count: None,
            total_commitment_tx_count: None,
        }
    }
}

/// Where a page begins: after one transaction of each list.
///
/// Its text is `v1.<data id>.<commitment id>`, with `_` for a list that begins at its start.
#[derive(Clone, Copy, Debug, PartialEq, Eq, Structural)]
pub struct MempoolTxsCursor {
    pub after_data_id: Option<H256>,
    pub after_commitment_id: Option<H256>,
}

impl Default for MempoolTxsCursor {
    fn default() -> (r: MempoolTxsCursor)
        ensures
            r == (MempoolTxsCursor { after_data_id: None, after_commitment_id: None }),
    {
        MempoolTxsCursor { after_data_id: None, after_commitment_id: None }
    }
}

/// The text of one side of a cursor.
pub open spec fn part_text(id: Option<H256>) -> Seq<char> {
    match id {
        Some(id) => base58_text(id_bytes(id)),
        None => "_"@,
    }
}

/// The text of a cursor.
pub open spec fn cursor_text(c: MempoolTxsCursor) -> Seq<char> {
    "v1."@ + part_text(c.after_data_id) + "."@ + part_text(c.after_commitment_id)
}

/// The parts of a text between its full stops.
pub open spec fn split_dots(s: Seq<char>) -> Seq<Seq<char>>
    decreases s.len(),
{
    if s.len() == 0 {
        seq![Seq::<char>::empty()]
    } else {
        let before = split_dots(s.drop_last());
        if s.last() == '.' {
            before.push(Seq::empty())
        } else {
            before.drop_last().push(before.last().push(s.last()))
        }
    }
}

/// What one part of a cursor's text says: a bound, that there is none, or nothing at all.
pub open spec fn part_id(p: Seq<char>) -> Option<Option<H256>> {
    if p == "_"@ || p.len() == 0 {
        Some(None)
    } else if p.len() > MAX_BASE58_LEN {
        None
    } else {
        match base58_bytes(p) {
            Some(bytes) => if bytes.len() == 32 {
                Some(Some(id_with_bytes(bytes)))
            } else {
                None
            },
            None => None,
        }
    }
}

/// Whether the text has the form of a cursor.
pub open spec fn cursor_shaped(s: Seq<char>) -> bool {
    split_dots(s).len() == 3 && split_dots(s)[0] == "v1"@
}

/// The cursor that a text stands for, if it stands for one.
pub open spec fn cursor_of(s: Seq<char>) -> Option<MempoolTxsCursor> {
    let parts = split_dots(s);
    if !cursor_shaped(s) || part_id(parts[1]) is None || part_id(parts[2]) is None {
        None
    } else {
        Some(
            MempoolTxsCursor {
                after_data_id: part_id(parts[1])->0,
                after_commitment_id: part_id(parts[2])->0,
            },
        )
    }
}

proof fn lemma_split_len(s: Seq<char>)
    ensures
        split_dots(s).len() > 0,
    decreases s.len(),
{
    if s.len() > 0 {
        lemma_split_len(s.drop_last());
    }
}

/// Characters without a full stop extend the last part.
proof fn lemma_split_extend(s: Seq<char>, t: Seq<char>)
    requires
        forall|i: int| 0 <= i < t.len() ==> #[trigger] t[i] != '.',
    ensures
        split_dots(s + t) == split_dots(s).drop_last().push(split_dots(s).last() + t),
    decreases t.len(),
{
    lemma_split_len(s);
    let parts = split_dots(s);
    if t.len() == 0 {
        assert(s + t =~= s);
        assert(parts.last() + t =~= parts.last());
        assert(parts =~= parts.drop_last().push(parts.last()));
    } else {
        let u = t.drop_last();
        assert forall|i: int| 0 <= i < u.len() implies #[trigger] u[i] != '.' by {
            assert(u[i] == t[i]);
        }
        lemma_split_extend(s, u);
        assert((s + t).drop_last() =~= s + u);
        assert((s + t).last() == t[t.len() - 1]);
        let before = parts.drop_last().push(parts.last() + u);
        assert(before.drop_last() =~= parts.drop_last());
        assert((parts.last() + u).push(t.last()) =~= parts.last() + t);
    }
}

/// A full stop begins a new part.
proof fn lemma_split_dot(s: Seq<char>)
    ensures
        split_dots(s.push('.')) == split_dots(s).push(Seq::empty()),
{
    assert(s.push('.').drop_last() =~= s);
}

/// The parts of a text in the form of a cursor.
proof fn lemma_split_cursor(a: Seq<char>, b: Seq<char>)
    requires
        forall|i: int| 0 <= i < a.len() ==> #[trigger] a[i] != '.',
        forall|i: int| 0 <= i < b.len() ==> #[trigger] b[i] != '.',
    ensures
        split_dots("v1."@ + a + "."@ + b) == seq!["v1"@, a, b],
{
    reveal_strlit("v1.");
    reveal_strlit("v1");
    reveal_strlit(".");
    let none = Seq::<char>::empty();
    lemma_split_extend(none, "v1"@);
    assert(none + "v1"@ =~= "v1"@);
    assert(split_dots("v1"@) =~= seq!["v1"@]);
    assert("v1"@.push('.') =~= "v1."@);
    lemma_split_dot("v1"@);
    assert(split_dots("v1."@) =~= seq!["v1"@, none]);
    lemma_split_extend("v1."@, a);
    assert(none + a =~= a);
    assert(split_dots("v1."@ + a) =~= seq!["v1"@, a]);
    lemma_split_dot("v1."@ + a);
    assert(("v1."@ + a).push('.') =~= "v1."@ + a + "."@);
    assert(split_dots("v1."@ + a + "."@) =~= seq!["v1"@, a, none]);
    lemma_split_extend("v1."@ + a + "."@, b);
    assert(none + b =~= b);
    assert(split_dots("v1."@ + a + "."@ + b) =~= seq!["v1"@, a, b]);
}

/// Splits a text at its full stops.
fn split(s: &str) -> (r: Vec<String>)
    ensures
        r@.len() == split_dots(s@).len(),
        forall|i: int| 0 <= i < r@.len() ==> (#[trigger] r@[i])@ == split_dots(s@)[i],
{
    let n = s.unicode_len();
    let mut parts: Vec<String> = Vec::new();
    let mut start: usize = 0;
    let mut i: usize = 0;
    assert(s@.take(0) =~= Seq::empty());
    assert(s@.subrange(0, 0) =~= Seq::empty());
    while i < n
        invariant
            n == s@.len(),
            start <= i <= n,
            split_dots(s@.take(i as int)).len() == parts@.len() + 1,
            split_dots(s@.take(i as int)).last() == s@.subrange(start as int, i as int),
            forall|k: int|
                0 <= k < parts@.len() ==> (#[trigger] parts@[k])@ == split_dots(
                    s@.take(i as int),
                )[k],
        decreases n - i,
    {
        let ghost next = s@.take(i as int + 1);
        assert(next.drop_last() =~= s@.take(i as int));
        assert(next.last() == s@[i as int]);
        if s.get_char(i) == '.' {
            parts.push(String::from_str(s.substring_char(start, i)));
            start = i + 1;
            assert(s@.subrange(start as int, i as int + 1) =~= Seq::empty());
        } else {
            assert(s@.subrange(start as int, i as int + 1) =~= s@.subrange(
                start as int,
                i as int,
            ).push(s@[i as int]));
        }
        i += 1;
    }
    assert(s@.take(i as int) =~= s@);
    if start < n {
        parts.push(String::from_str(s.substring_char(start, n)));
    } else {
        parts.push(String::new());
        assert(s@.subrange(start as int, i as int) =~= Seq::empty());
    }
    parts
}

/// Whether two texts are the same.
fn same_text(a: &str, b: &str) -> (r: bool)
    ensures
        r == (a@ == b@),
{
    let n = a.unicode_len();
    if n != b.unicode_len() {
        return false;
    }
    let mut i: usize = 0;
    while i < n
        invariant
            n == a@.len(),
            n == b@.len(),
            i <= n,
            forall|k: int| 0 <= k < i ==> a@[k] == b@[k],
        decreases n - i,
    {
        if a.get_char(i) != b.get_char(i) {
            return false;
        }
        i += 1;
    }
    assert(a@ =~= b@);
    true
}

/// The message for a part that stands for no id.
pub open spec fn part_error(label: Seq<char>) -> Seq<char> {
    "invalid "@ + label + " id in cursor: not a base58 id of 32 bytes"@
}

impl MempoolTxsCursor {
    /// The text of one side.
    fn encode_part(id: Option<H256>) -> (r: String)
        ensures
            r@ == part_text(id),
            part_id(r@) == Some(id),
            forall|i: int| 0 <= i < r@.len() ==> #[trigger] r@[i] != '.',
    {
        match id {
            None => {
                proof {
                    reveal_strlit("_");
                }
                String::from_str("_")
            },
            Some(id) => {
                let bytes = id.to_bytes();
                proof {
                    law_bytes_round_trip(id);
                    reveal_strlit("_");
                }
                let r = to_base58(bytes.as_slice());
                assert(r@[0] != '_');
                r
            },
        }
    }

    /// The text of the cursor. It reads back as the cursor.
    pub fn encode(&self) -> (r: String)
        ensures
            r@ == cursor_text(*self),
            cursor_of(r@) == Some(*self),
    {
        let data = MempoolTxsCursor::encode_part(self.after_data_id);
        let commitment = MempoolTxsCursor::encode_part(self.after_commitment_id);
        let mut r = join("v1.", data.as_str());
        r.append(".");
        r.append(commitment.as_str());
        proof {
            lemma_split_cursor(data@, commitment@);
        }
        r
    }

    /// What one part of a cursor's text says.
    fn parse_part(part: &str, label: &str) -> (r: Result<Option<H256>, String>)
        ensures
            match part_id(part@) {
                Some(id) => r == Ok::<Option<H256>, String>(id),
                None => r matches Err(m) && m@ == part_error(label@),
            },
    {
        let n = part.unicode_len();
        if n == 0 || same_text(part, "_") {
            return Ok(None);
        }
        if n <= MAX_BASE58_LEN {
            if let Some(bytes) = from_base58(part) {
                if bytes.len() == 32 {
                    return Ok(Some(H256::from_bytes(bytes.as_slice())));
                }
            }
        }
        let mut m = join("invalid ", label);
        m.append(" id in cursor: not a base58 id of 32 bytes");
        Err(m)
    }

    /// Reads a cursor. Refuses other versions and malformed ids.
    pub fn decode(s: &str) -> (r: Result<MempoolTxsCursor, String>)
        ensures
            match cursor_of(s@) {
                Some(c) => r == Ok::<MempoolTxsCursor, String>(c),
                None => r matches Err(m) && m@ == if !cursor_shaped(s@) {
                    "expected v1.<data|_>.<commitment|_>"@
                } else if part_id(split_dots(s@)[1]) is None {
                    part_error("data"@)
                } else {
                    part_error("commitment"@)
                },
            },
    {
        let parts = split(s);
        if parts.len() != 3 || !same_text(parts[0].as_str(), "v1") {
            return Err(String::from_str("expected v1.<data|_>.<commitment|_>"));
        }
        let after_data_id = match MempoolTxsCursor::parse_part(parts[1].as_str(), "data") {
            Err(m) => {
                return Err(m);
            },
            Ok(id) => id,
        };
        let after_commitment_id = match MempoolTxsCursor::parse_part(
            parts[2].as_str(),
            "commitment",
        ) {
            Err(m) => {
                return Err(m);
            },
            Ok(id) => id,
        };
        Ok(MempoolTxsCursor { after_data_id, after_commitment_id })
    }

    /// The cursor after a page: each side moves to the last transaction of the page, and stays
    /// where it is if the page holds none.
    pub fn advance(
        self,
        data_page: &Vec<MempoolPendingDataTx>,
        commitment_page: &Vec<MempoolPendingCommitmentTx>,
    ) -> (r: MempoolTxsCursor)
        ensures
            r.after_data_id == if data_page@.len() > 0 {
                Some(data_page@.last().id)
            } else {
                self.after_data_id
            },
            r.after_commitment_id == if commitment_page@.len() > 0 {
                Some(commitment_page@.last().id)
            } else {
                self.after_commitment_id
            },
    {
        let after_data_id = if data_page.len() > 0 {
            Some(data_page[data_page.len() - 1].id)
        } else {
            self.after_data_id
        };
        let after_commitment_id = if commitment_page.len() > 0 {
            Some(commitment_page[commitment_page.len() - 1].id)
        } else {
            self.after_commitment_id
        };
        MempoolTxsCursor { after_data_id, after_commitment_id }
    }
}

/// The first part of a cursor is the place among the data transactions, the second one that among
/// the commitments; an empty part or a mark for none is no place.
pub proof fn law_cursor_has_its_parts_in_order(a: Seq<char>, b: Seq<char>)
    requires
        forall|i: int| 0 <= i < a.len() ==> #[trigger] a[i] != '.',
        forall|i: int| 0 <= i < b.len() ==> #[trigger] b[i] != '.',
    ensures
        ({
            let c = cursor_of("v1."@ + a + "."@ + b);
            &&& c is Some <==> part_id(a) is Some && part_id(b) is Some
            &&& c is Some ==> c->0.after_data_id == part_id(a)->0 && c->0.after_commitment_id
                == part_id(b)->0
        }),
        part_id("_"@) == Some(None::<H256>),
        part_id(Seq::empty()) == Some(None::<H256>),
{
    lemma_split_cursor(a, b);
}

/// A part of a cursor names an id exactly if it is short enough and the base58 form of 32 bytes, and
/// then the id of these.
pub proof fn law_cursor_part_is_an_id(p: Seq<char>, bytes: Seq<u8>)
    requires
        p != "_"@,
        0 < p.len() <= 132,
        base58_bytes(p) == Some(bytes),
    ensures
        bytes.len() == 32 ==> part_id(p) == Some(Some(id_with_bytes(bytes))),
        bytes.len() != 32 ==> part_id(p) is None,
{
}

/// A cursor is written with its version, the place among the data transactions and that among the
/// commitments.
pub proof fn law_cursor_is_written_in_order(data: H256, commitment: H256)
    ensures
        cursor_text(
            MempoolTxsCursor { after_data_id: Some(data), after_commitment_id: Some(commitment) },
        ) == "v1."@ + base58_text(id_bytes(data)) + "."@ + base58_text(id_bytes(commitment)),
        cursor_text(
            MempoolTxsCursor { after_data_id: Some(data), after_commitment_id: None },
        ) == "v1."@ + base58_text(id_bytes(data)) + "."@ + "_"@,
        cursor_text(
            MempoolTxsCursor { after_data_id: None, after_commitment_id: Some(commitment) },
        ) == "v1."@ + "_"@ + "."@ + base58_text(id_bytes(commitment)),
{
}

} // verus!
