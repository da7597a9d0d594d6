//! Least-recently-used caches of the mempool, kept in `lru::LruCache`.
//!
//! A cache is described by its entries from the least to the most recently used one, and by its
//! capacity.

use crate::primitives::{H256, IrysAddress};
use crate::transactions::CommitmentTransaction;
use lru::LruCache;
use std::num::NonZeroUsize;
use vstd::prelude::*;

verus! {

/// The cache type of the `lru` crate. Nothing is claimed of it here.
#[verifier::external_type_specification]
#[verifier::external_body]
#[verifier::reject_recursive_types(K)]
#[verifier::reject_recursive_types(V)]
#[verifier::reject_recursive_types(S)]
pub struct ExLruCache<K, V, S>(lru::LruCache<K, V, S>);

/// The hasher that `lru::LruCache` uses unless told otherwise. Nothing is claimed of it here.
#[verifier::external_type_specification]
#[verifier::external_body]
pub struct ExDefaultHasher(lru::DefaultHasher);

/// How an identifier is keyed in a cache.
pub type IdKey = (u128, u128);

/// How an address is keyed in a cache.
pub type AddressKey = (u32, u128);

/// A set of recently seen identifiers.
pub type IdCache = LruCache<IdKey, ()>;

/// The pending pledges of one address.
pub type PledgeCache = LruCache<IdKey, CommitmentTransaction>;

/// The pending pledges of all addresses.
pub type PledgeBook = LruCache<AddressKey, PledgeCache>;

/// The key of an identifier.
pub open spec fn id_key(id: H256) -> IdKey {
    (id.hi, id.lo)
}

/// The key of an address.
pub open spec fn address_key(address: IrysAddress) -> AddressKey {
    (address.hi, address.lo)
}

/// The key of an identifier.
pub fn key_of_id(id: H256) -> (r: IdKey)
    ensures
        r == id_key(id),
{
    (id.hi, id.lo)
}

/// The key of an address.
pub fn key_of_address(address: IrysAddress) -> (r: AddressKey)
    ensures
        r == address_key(address),
{
    (address.hi, address.lo)
}

/// Whether some entry has the key `k`.
pub open spec fn lru_has<K, V>(s: Seq<(K, V)>, k: K) -> bool {
    exists|i: int| 0 <= i < s.len() && (#[trigger] s[i]).0 == k
}

/// The entries without the one under `k`.
pub open spec fn lru_without<K, V>(s: Seq<(K, V)>, k: K) -> Seq<(K, V)> {
    s.filter(|e: (K, V)| e.0 != k)
}

/// The entries after `v` is put under `k`: the entry becomes the most recently used one, and the
/// least recently used one leaves if a new key comes to a full cache.
pub open spec fn lru_put<K, V>(s: Seq<(K, V)>, cap: nat, k: K, v: V) -> Seq<(K, V)> {
    if lru_has(s, k) {
        lru_without(s, k).push((k, v))
    } else if s.len() == cap {
        s.drop_first().push((k, v))
    } else {
        s.push((k, v))
    }
}

/// Whether an identifier is another one than `id`.
pub open spec fn other_than(id: IdKey) -> spec_fn(IdKey) -> bool {
    |e: IdKey| e != id
}

/// The identifiers after `id` is put among them.
pub open spec fn ids_put(s: Seq<IdKey>, cap: nat, id: IdKey) -> Seq<IdKey> {
    if s.contains(id) {
        s.filter(other_than(id)).push(id)
    } else if s.len() == cap {
        s.drop_first().push(id)
    } else {
        s.push(id)
    }
}

/// The largest capacity whose table an allocation can describe.
pub open spec fn largest_capacity() -> nat {
    usize::MAX as nat / 128
}

/// The contents of the pending pledges of one address.
pub ghost struct PledgesView {
    pub entries: Seq<(IdKey, CommitmentTransaction)>,
    pub cap: nat,
}

/// The identifiers in the cache, least recently used first.
pub uninterp spec fn id_cache_ids(c: IdCache) -> Seq<IdKey>;

/// How many identifiers the cache holds at most.
pub uninterp spec fn id_cache_cap(c: IdCache) -> nat;

/// The pledges of one address, least recently used first.
pub uninterp spec fn pledge_entries(c: PledgeCache) -> Seq<(IdKey, CommitmentTransaction)>;

/// How many pledges of one address are held at most.
pub uninterp spec fn pledge_cap(c: PledgeCache) -> nat;

/// The addresses with pending pledges, least recently used first.
pub uninterp spec fn book_entries(c: PledgeBook) -> Seq<(AddressKey, PledgesView)>;

/// How many addresses with pending pledges are held at most.
pub uninterp spec fn book_cap(c: PledgeBook) -> nat;

/// The contents of a pledge cache.
pub open spec fn pledges_view(c: PledgeCache) -> PledgesView {
    PledgesView { entries: pledge_entries(c), cap: pledge_cap(c) }
}

/// `lru::LruCache::new`: an empty cache that holds at most `cap` entries. The call panics for a
/// capacity of zero or one whose table cannot be allocated, which is left out.
#[verifier::external_body]
pub(crate) fn id_cache_new(cap: usize) -> (r: IdCache)
    requires
        0 < cap <= largest_capacity(),
    ensures
        id_cache_ids(r) == Seq::<IdKey>::empty(),
        id_cache_cap(r) == cap,
{
    LruCache::new(NonZeroUsize::new(cap).unwrap())
}

/// `lru::LruCache::put`: the identifier becomes the most recently used one; the least recently
/// used one leaves if a new one comes to a full cache.
#[verifier::external_body]
pub(crate) fn id_cache_put(c: &mut IdCache, id: IdKey)
    ensures
        id_cache_ids(*final(c)) == ids_put(id_cache_ids(*old(c)), id_cache_cap(*old(c)), id),
        id_cache_cap(*final(c)) == id_cache_cap(*old(c)),
{
    c.put(id, ());
}

/// `lru::LruCache::pop`: the identifier leaves the cache, the order of the others stays.
#[verifier::external_body]
pub(crate) fn id_cache_pop(c: &mut IdCache, id: &IdKey)
    ensures
        id_cache_ids(*final(c)) == id_cache_ids(*old(c)).filter(other_than(*id)),
        id_cache_cap(*final(c)) == id_cache_cap(*old(c)),
{
    c.pop(id);
}

/// `lru::LruCache::contains`: whether the identifier is in the cache, without touching its order.
#[verifier::external_body]
pub(crate) fn id_cache_contains(c: &IdCache, id: &IdKey) -> (r: bool)
    ensures
        r == id_cache_ids(*c).contains(*id),
{
    c.contains(id)
}

/// `lru::LruCache::len`: the number of entries.
#[verifier::external_body]
pub(crate) fn id_cache_len(c: &IdCache) -> (r: usize)
    ensures
        r == id_cache_ids(*c).len(),
{
    c.len()
}

/// `lru::LruCache::clear`: every entry leaves, the capacity stays.
#[verifier::external_body]
pub(crate) fn id_cache_clear(c: &mut IdCache)
    ensures
        id_cache_ids(*final(c)) == Seq::<IdKey>::empty(),
        id_cache_cap(*final(c)) == id_cache_cap(*old(c)),
{
    c.clear();
}

/// `lru::LruCache::new` for the pledges of one address, as in [`id_cache_new`].
#[verifier::external_body]
pub(crate) fn pledges_new(cap: usize) -> (r: PledgeCache)
    requires
        0 < cap <= largest_capacity(),
    ensures
        pledge_entries(r) == Seq::<(IdKey, CommitmentTransaction)>::empty(),
        pledge_cap(r) == cap,
{
    LruCache::new(NonZeroUsize::new(cap).unwrap())
}

/// `lru::LruCache::put` for the pledges of one address: the pledge becomes the most recently used
/// one, in place of an older one under its key; the least recently used one leaves if a new one
/// comes to a full cache.
#[verifier::external_body]
pub(crate) fn pledges_put(c: &mut PledgeCache, id: IdKey, tx: CommitmentTransaction)
    ensures
        pledge_entries(*final(c)) == lru_put(
            pledge_entries(*old(c)),
            pledge_cap(*old(c)),
            id,
            tx,
        ),
        pledge_cap(*final(c)) == pledge_cap(*old(c)),
{
    c.put(id, tx);
}

/// `lru::LruCache::iter` for the pledges of one address: the entries, most recently used first,
/// no two under one key.
#[verifier::external_body]
pub(crate) fn pledges_items(c: &PledgeCache) -> (r: Vec<(IdKey, CommitmentTransaction)>)
    ensures
        r@ == pledge_entries(*c).reverse(),
        forall|i: int, j: int| 0 <= i < j < r@.len() ==> (#[trigger] r@[i]).0 != (#[trigger] r@[j]).0,
{
    c.iter().map(|(id, tx)| (*id, *tx)).collect()
}

/// `lru::LruCache::new` for the pledges of all addresses, as in [`id_cache_new`].
#[verifier::external_body]
pub(crate) fn book_new(cap: usize) -> (r: PledgeBook)
    requires
        0 < cap <= largest_capacity(),
    ensures
        book_entries(r) == Seq::<(AddressKey, PledgesView)>::empty(),
        book_cap(r) == cap,
{
    LruCache::new(NonZeroUsize::new(cap).unwrap())
}

/// `lru::LruCache::put` for the pledges of all addresses: the address becomes the most recently
/// used one, with these pledges; the least recently used one leaves if a new one comes to a full
/// cache.
#[verifier::external_body]
pub(crate) fn book_put(c: &mut PledgeBook, address: AddressKey, pledges: PledgeCache)
    ensures
        book_entries(*final(c)) == lru_put(
            book_entries(*old(c)),
            book_cap(*old(c)),
            address,
            pledges_view(pledges),
        ),
        book_cap(*final(c)) == book_cap(*old(c)),
{
    c.put(address, pledges);
}

/// `lru::LruCache::pop` for the pledges of all addresses: what was held under the address leaves
/// the cache, the order of the others stays.
#[verifier::external_body]
pub(crate) fn book_pop(c: &mut PledgeBook, address: &AddressKey) -> (r: Option<PledgeCache>)
    ensures
        book_entries(*final(c)) == lru_without(book_entries(*old(c)), *address),
        book_cap(*final(c)) == book_cap(*old(c)),
        match r {
            Some(p) => book_entries(*old(c)).contains((*address, pledges_view(p))),
            None => !lru_has(book_entries(*old(c)), *address),
        },
{
    c.pop(address)
}

/// `lru::LruCache::iter` for the pledges of all addresses: each address once, with its pledges,
/// most recently used first.
#[verifier::external_body]
pub(crate) fn book_lists(c: &PledgeBook) -> (r: Vec<(AddressKey, &PledgeCache)>)
    ensures
        r@.len() == book_entries(*c).len(),
        forall|i: int|
            0 <= i < r@.len() ==> (#[trigger] r@[i]).0 == book_entries(*c).reverse()[i].0
                && pledges_view(*r@[i].1) == book_entries(*c).reverse()[i].1,
        forall|i: int, j: int| 0 <= i < j < r@.len() ==> (#[trigger] r@[i]).0 != (#[trigger] r@[j]).0,
{
    c.iter().map(|(address, pledges)| (*address, pledges)).collect()
}

/// `lru::LruCache::peek_mut` for the pledges of all addresses: the pledges of the address, for
/// changing them in place; the order of the addresses stays.
#[verifier::external_body]
pub(crate) fn book_peek_mut<'a>(c: &'a mut PledgeBook, address: &AddressKey) -> (r: Option<
    &'a mut PledgeCache,
>)
    ensures
        book_cap(*final(c)) == book_cap(*old(c)),
        match r {
            Some(p) => exists|i: int|
                0 <= i < book_entries(*old(c)).len() && #[trigger] book_entries(*old(c))[i] == (
                    *address,
                    pledges_view(*p),
                ) && book_entries(*final(c)) == book_entries(*old(c)).update(
                    i,
                    (*address, pledges_view(*final(p))),
                ),
            None => !lru_has(book_entries(*old(c)), *address) && book_entries(*final(c))
                == book_entries(*old(c)),
        },
{
    c.peek_mut(address)
}

/// `lru::LruCache::get_mut` for the pledges of all addresses: the pledges of the address, for
/// changing them in place; the address becomes the most recently used one.
#[verifier::external_body]
pub(crate) fn book_get_mut<'a>(c: &'a mut PledgeBook, address: &AddressKey) -> (r: Option<
    &'a mut PledgeCache,
>)
    ensures
        book_cap(*final(c)) == book_cap(*old(c)),
        match r {
            Some(p) => book_entries(*old(c)).contains((*address, pledges_view(*p))) && book_entries(
                *final(c),
            ) == lru_without(book_entries(*old(c)), *address).push(
                (*address, pledges_view(*final(p))),
            ),
            None => !lru_has(book_entries(*old(c)), *address) && book_entries(*final(c))
                == book_entries(*old(c)),
        },
{
    c.get_mut(address)
}

/// An id that is noted is the newest one, and only ids that were there stay.
pub proof fn law_noted_id_is_the_newest(s: Seq<IdKey>, cap: nat, id: IdKey)
    ensures
        ids_put(s, cap, id).len() > 0,
        ids_put(s, cap, id).last() == id,
        ids_put(s, cap, id).contains(id),
        forall|other: IdKey| #[trigger]
            ids_put(s, cap, id).contains(other) && cap > 0 ==> other == id || s.contains(other),
{
    let after = ids_put(s, cap, id);
    assert(after[after.len() - 1] == id);
    assert forall|other: IdKey| #[trigger] after.contains(other) && cap > 0 implies other == id
        || s.contains(other) by {
        let i = after.index_of(other);
        if i < after.len() - 1 {
            if s.contains(id) {
                let kept = s.filter(other_than(id));
                assert(kept[i] == other);
                lemma_filtered_comes_from(s, other_than(id), i);
            } else if s.len() == cap {
                assert(s[i + 1] == other);
            } else {
                assert(s[i] == other);
            }
        }
    }
}

/// What a filter keeps was there and meets its condition.
pub proof fn lemma_filtered_comes_from<T>(s: Seq<T>, p: spec_fn(T) -> bool, i: int)
    requires
        0 <= i < s.filter(p).len(),
    ensures
        s.contains(s.filter(p)[i]),
        p(s.filter(p)[i]),
    decreases s.len(),
{
    reveal(Seq::filter);
    let rest = s.drop_last();
    if i < rest.filter(p).len() {
        lemma_filtered_comes_from(rest, p, i);
        let k = rest.index_of(rest.filter(p)[i]);
        assert(s[k] == rest[k]);
    } else {
        assert(s[s.len() - 1] == s.last());
    }
}

/// No more ids are kept than the cache may hold, and none is forgotten before it is full or where
/// the new one was there; a full cache forgets the oldest.
pub proof fn law_full_cache_forgets_the_oldest(s: Seq<IdKey>, cap: nat, id: IdKey, other: IdKey)
    requires
        s.len() <= cap,
        cap > 0,
        s.contains(other),
    ensures
        ids_put(s, cap, id).len() <= cap,
        s.contains(id) || s.len() < cap ==> ids_put(s, cap, id).contains(other),
        s.len() == cap && other != s.first() ==> ids_put(s, cap, id).contains(other),
        s.len() == cap && !s.contains(id) && other == s.first() && s.no_duplicates() ==> !ids_put(
            s,
            cap,
            id,
        ).contains(other),
{
    let after = ids_put(s, cap, id);
    let i = s.index_of(other);
    if s.contains(id) {
        s.lemma_filter_len(other_than(id));
        lemma_filter_drops(s, id);
        if other == id {
            assert(after.last() == id);
        } else {
            s.lemma_filter_contains(other_than(id), i);
            let j = s.filter(other_than(id)).index_of(other);
            assert(after[j] == other);
        }
    } else if s.len() == cap {
        if other != s.first() {
            assert(after[i - 1] == other);
        } else if s.no_duplicates() && after.contains(other) {
            let j = after.index_of(other);
            assert(j < after.len() - 1);
            assert(s[j + 1] == other);
            assert(s[0] == other);
        }
    } else {
        assert(after[i] == other);
    }
}

proof fn lemma_filter_drops(s: Seq<IdKey>, id: IdKey)
    requires
        s.contains(id),
    ensures
        s.filter(other_than(id)).len() < s.len(),
    decreases s.len(),
{
    reveal(Seq::filter);
    let rest = s.drop_last();
    rest.lemma_filter_len(other_than(id));
    if s.last() != id {
        let i = s.index_of(id);
        assert(rest[i] == id);
        lemma_filter_drops(rest, id);
    }
}

/// What is put under a key stands there as the newest entry, and stands there once. Entries under
/// other keys stay, unless the cache was full and the key is new: then the oldest one goes.
pub proof fn law_newest_entry_is_kept<K, V>(
    s: Seq<(K, V)>,
    cap: nat,
    k: K,
    v: V,
    other: (K, V),
)
    requires
        s.contains(other),
        other.0 != k,
    ensures
        lru_put(s, cap, k, v).len() > 0,
        lru_put(s, cap, k, v).last() == (k, v),
        lru_has(lru_put(s, cap, k, v), k),
        lru_has(s, k) || s.len() != cap ==> lru_put(s, cap, k, v).contains(other),
        other != s.first() ==> lru_put(s, cap, k, v).contains(other),
        forall|e: (K, V)| #[trigger]
            lru_put(s, cap, k, v).contains(e) && e.0 == k ==> e == (k, v),
{
    let after = lru_put(s, cap, k, v);
    let p = |e: (K, V)| e.0 != k;
    assert(after[after.len() - 1] == (k, v));
    let i = s.index_of(other);
    if lru_has(s, k) {
        s.lemma_filter_contains(p, i);
        let j = s.filter(p).index_of(other);
        assert(after[j] == other);
    } else if s.len() == cap {
        if other != s.first() {
            assert(after[i - 1] == other);
        }
    } else {
        assert(after[i] == other);
    }
    assert forall|e: (K, V)| #[trigger] after.contains(e) && e.0 == k implies e == (k, v) by {
        let j = after.index_of(e);
        if j < after.len() - 1 {
            if lru_has(s, k) {
                assert(s.filter(p)[j] == e);
                lemma_filtered_comes_from(s, p, j);
            } else if s.len() == cap {
                assert(s[j + 1].0 == k);
            } else {
                assert(s[j].0 == k);
            }
        }
    }
}

} // verus!
