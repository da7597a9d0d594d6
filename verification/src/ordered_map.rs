//! A map whose entries are kept in the order of their keys.

use crate::primitives::OrderedKey;
use vstd::prelude::*;

verus! {

/// A map from `K` to `V`, held as a vector of entries with strictly increasing keys.
#[derive(Debug)]
pub struct OrderedMap<K, V> {
    pub entries: Vec<(K, V)>,
}

/// Whether some entry of `s` has the key `k`.
pub open spec fn has_key<K, V>(s: Seq<(K, V)>, k: K) -> bool {
    exists|i: int| 0 <= i < s.len() && #[trigger] s[i].0 == k
}

/// Where the key `k` stands in `s`.
pub open spec fn key_index<K, V>(s: Seq<(K, V)>, k: K) -> int {
    choose|i: int| 0 <= i < s.len() && #[trigger] s[i].0 == k
}

/// The keys of the entries, in their order.
pub open spec fn key_list<K, V>(s: Seq<(K, V)>) -> Seq<K> {
    s.map_values(|e: (K, V)| e.0)
}

/// The keys of `s` strictly increase.
pub open spec fn keys_increase<K: OrderedKey, V>(s: Seq<(K, V)>) -> bool {
    forall|i: int, j: int|
        0 <= i < j < s.len() ==> (#[trigger] s[i]).0.rank() < (#[trigger] s[j]).0.rank()
}

/// The map that the entries `s` describe.
pub open spec fn entries_map<K, V>(s: Seq<(K, V)>) -> Map<K, V> {
    Map::new(|k: K| has_key(s, k), |k: K| s[key_index(s, k)].1)
}

/// An entry of a sequence with increasing keys is what the map holds under its key.
pub proof fn lemma_entry<K: OrderedKey, V>(s: Seq<(K, V)>, i: int)
    requires
        keys_increase(s),
        0 <= i < s.len(),
    ensures
        entries_map(s).contains_key(s[i].0),
        entries_map(s)[s[i].0] == s[i].1,
        key_index(s, s[i].0) == i,
{
    let k = s[i].0;
    assert(has_key(s, k));
    let j = key_index(s, k);
    assert(0 <= j < s.len() && s[j].0 == k);
    if j < i {
        assert(s[j].0.rank() < s[i].0.rank());
    } else if i < j {
        assert(s[i].0.rank() < s[j].0.rank());
    }
}

impl<K: OrderedKey, V> View for OrderedMap<K, V> {
    type V = Map<K, V>;

    open spec fn view(&self) -> Map<K, V> {
        entries_map(self.entries@)
    }
}

impl<K: OrderedKey, V> OrderedMap<K, V> {
    /// The keys strictly increase.
    pub open spec fn wf(&self) -> bool {
        keys_increase(self.entries@)
    }

    /// The empty map.
    pub fn new() -> (r: Self)
        ensures
            r.wf(),
            r@ == Map::<K, V>::empty(),
            r.entries@.len() == 0,
    {
        let r = OrderedMap { entries: Vec::new() };
        assert(r@ =~= Map::<K, V>::empty());
        r
    }

    /// The number of entries.
    pub fn len(&self) -> (n: usize)
        ensures
            n == self.entries@.len(),
    {
        self.entries.len()
    }

    /// The first position whose key does not come before `k`.
    pub fn lower_bound(&self, k: &K) -> (r: usize)
        requires
            self.wf(),
        ensures
            r <= self.entries@.len(),
            forall|i: int| 0 <= i < r ==> (#[trigger] self.entries@[i]).0.rank() < k.rank(),
            forall|i: int|
                r <= i < self.entries@.len() ==> k.rank() <= (#[trigger] self.entries@[i]).0.rank(),
    {
        let mut lo: usize = 0;
        let mut hi: usize = self.entries.len();
        while lo < hi
            invariant
                self.wf(),
                lo <= hi <= self.entries@.len(),
                forall|i: int| 0 <= i < lo ==> (#[trigger] self.entries@[i]).0.rank() < k.rank(),
                forall|i: int|
                    hi <= i < self.entries@.len() ==> k.rank() <= (
                    #[trigger] self.entries@[i]).0.rank(),
            decreases hi - lo,
        {
            let mid: usize = lo + (hi - lo) / 2;
            if self.entries[mid].0.precedes(k) {
                lo = mid + 1;
            } else {
                hi = mid;
            }
        }
        lo
    }

    /// Where the key `k` stands, if it is present.
    pub fn find(&self, k: &K) -> (r: Option<usize>)
        requires
            self.wf(),
        ensures
            match r {
                Some(i) => i < self.entries@.len() && self.entries@[i as int].0 == *k
                    && self@.contains_key(*k) && self@[*k] == self.entries@[i as int].1,
                None => !self@.contains_key(*k),
            },
    {
        let i: usize = self.lower_bound(k);
        if i < self.entries.len() && !k.precedes(&self.entries[i].0) {
            proof {
                K::rank_is_injective(self.entries@[i as int].0, *k);
                lemma_entry(self.entries@, i as int);
            }
            Some(i)
        } else {
            proof {
                if has_key(self.entries@, *k) {
                    let j = key_index(self.entries@, *k);
                    assert(self.entries@[j].0 == *k);
                    assert(i <= j);
                    assert(i < self.entries@.len());
                    if i < j {
                        assert(self.entries@[i as int].0.rank() < self.entries@[j].0.rank());
                    }
                }
            }
            None
        }
    }

    /// Whether the key `k` is present.
    pub fn contains_key(&self, k: &K) -> (r: bool)
        requires
            self.wf(),
        ensures
            r == self@.contains_key(*k),
    {
        self.find(k).is_some()
    }

    /// What is held under `k`.
    pub fn get(&self, k: &K) -> (r: Option<&V>)
        requires
            self.wf(),
        ensures
            match r {
                Some(v) => self@.contains_key(*k) && self@[*k] == *v,
                None => !self@.contains_key(*k),
            },
    {
        match self.find(k) {
            Some(i) => Some(&self.entries[i].1),
            None => None,
        }
    }

    /// Puts `v` under `k`, in place of what was there.
    pub fn insert(&mut self, k: K, v: V)
        requires
            old(self).wf(),
        ensures
            final(self).wf(),
            final(self)@ == old(self)@.insert(k, v),
            final(self).entries@.len() == old(self).entries@.len() + (if old(self)@.contains_key(
                k,
            ) {
                0int
            } else {
                1
            }),
    {
        let i: usize = self.lower_bound(&k);
        let ghost before = self.entries@;
        if i < self.entries.len() && !k.precedes(&self.entries[i].0) {
            proof {
                K::rank_is_injective(self.entries@[i as int].0, k);
                lemma_entry(before, i as int);
            }
            self.entries.set(i, (k, v));
            proof {
                lemma_replace(before, i as int, v);
                assert(self.entries@ =~= before.update(i as int, (k, v)));
            }
        } else {
            self.entries.insert(i, (k, v));
            proof {
                assert(self.entries@ =~= before.insert(i as int, (k, v)));
                lemma_insert(before, i as int, k, v);
            }
        }
    }

    /// Takes out what is held under `k`.
    pub fn remove(&mut self, k: &K) -> (r: Option<V>)
        requires
            old(self).wf(),
        ensures
            final(self).wf(),
            final(self)@ == old(self)@.remove(*k),
            match r {
                Some(v) => old(self)@.contains_key(*k) && old(self)@[*k] == v
                    && final(self).entries@.len() == old(self).entries@.len() - 1,
                None => !old(self)@.contains_key(*k) && final(self).entries@
                    == old(self).entries@,
            },
    {
        let ghost before = self.entries@;
        match self.find(k) {
            Some(i) => {
                let (_, v) = self.entries.remove(i);
                proof {
                    lemma_remove(before, i as int);
                    lemma_entry(before, i as int);
                }
                Some(v)
            },
            None => {
                assert(self@.remove(*k) =~= self@);
                None
            },
        }
    }
}

/// Replacing the value of an entry replaces it in the map.
pub proof fn lemma_replace<K: OrderedKey, V>(s: Seq<(K, V)>, i: int, v: V)
    requires
        keys_increase(s),
        0 <= i < s.len(),
    ensures
        keys_increase(s.update(i, (s[i].0, v))),
        entries_map(s.update(i, (s[i].0, v))) == entries_map(s).insert(s[i].0, v),
{
    let t = s.update(i, (s[i].0, v));
    assert(keys_increase(t)) by {
        assert forall|a: int, b: int| 0 <= a < b < t.len() implies (#[trigger] t[a]).0.rank() < (
        #[trigger] t[b]).0.rank() by {
            assert(t[a].0 == s[a].0);
            assert(t[b].0 == s[b].0);
        }
    }
    assert forall|k: K| has_key(t, k) <==> has_key(s, k) by {
        if has_key(t, k) {
            let j = key_index(t, k);
            assert(s[j].0 == k);
        }
        if has_key(s, k) {
            let j = key_index(s, k);
            assert(t[j].0 == k);
        }
    }
    assert forall|k: K| has_key(t, k) implies #[trigger] entries_map(t)[k] == entries_map(s).insert(
        s[i].0,
        v,
    )[k] by {
        let j = key_index(t, k);
        assert(0 <= j < t.len() && t[j].0 == k);
        assert(s[j].0 == k);
        lemma_entry(t, j);
        lemma_entry(s, j);
        if k == s[i].0 {
            lemma_entry(s, i);
        }
    }
    lemma_entry(s, i);
    assert(entries_map(t) =~= entries_map(s).insert(s[i].0, v));
}

/// A key that the map holds stands somewhere in the entries.
pub proof fn lemma_position<K: OrderedKey, V>(s: Seq<(K, V)>, k: K) -> (i: int)
    requires
        keys_increase(s),
        entries_map(s).contains_key(k),
    ensures
        0 <= i < s.len(),
        s[i].0 == k,
        s[i].1 == entries_map(s)[k],
{
    let i = key_index(s, k);
    assert(has_key(s, k));
    assert(0 <= i < s.len() && s[i].0 == k);
    lemma_entry(s, i);
    i
}

/// Entries with the same keys describe maps with the same domain.
pub proof fn lemma_same_keys<K: OrderedKey, V, W>(a: Seq<(K, V)>, b: Seq<(K, W)>)
    requires
        keys_increase(a),
        a.len() == b.len(),
        forall|i: int| 0 <= i < a.len() ==> (#[trigger] a[i]).0 == (#[trigger] b[i]).0,
    ensures
        keys_increase(b),
        forall|k: K| #[trigger]
            entries_map(a).contains_key(k) <==> #[trigger] entries_map(b).contains_key(k),
{
    assert forall|i: int, j: int| 0 <= i < j < b.len() implies (#[trigger] b[i]).0.rank() < (
    #[trigger] b[j]).0.rank() by {
        assert(a[i].0 == b[i].0);
        assert(a[j].0 == b[j].0);
    }
    assert forall|k: K| #[trigger]
        entries_map(a).contains_key(k) <==> #[trigger] entries_map(b).contains_key(k) by {
        if entries_map(a).contains_key(k) {
            let i = lemma_position(a, k);
            lemma_entry(b, i);
        }
        if entries_map(b).contains_key(k) {
            let i = lemma_position(b, k);
            lemma_entry(a, i);
        }
    }
}

/// The keys among the first `n` entries for which `p` holds.
pub open spec fn keys_where<K, V>(s: Seq<(K, V)>, n: int, p: spec_fn(K, V) -> bool) -> Set<K> {
    Set::new(|k: K| exists|j: int| 0 <= j < n && (#[trigger] s[j]).0 == k && p(s[j].0, s[j].1))
}

/// Nothing precedes the first entry.
pub proof fn lemma_keys_where_none<K: OrderedKey, V>(s: Seq<(K, V)>, p: spec_fn(K, V) -> bool)
    ensures
        keys_where(s, 0, p) == Set::<K>::empty(),
{
    assert(keys_where(s, 0, p) =~= Set::<K>::empty());
}

/// One more entry adds its key where `p` holds of it.
pub proof fn lemma_keys_where_step<K: OrderedKey, V>(
    s: Seq<(K, V)>,
    n: int,
    p: spec_fn(K, V) -> bool,
)
    requires
        keys_increase(s),
        0 <= n < s.len(),
    ensures
        keys_where(s, n + 1, p) == (if p(s[n].0, s[n].1) {
            keys_where(s, n, p).insert(s[n].0)
        } else {
            keys_where(s, n, p)
        }),
        forall|k: K| #[trigger] keys_where(s, n, p).contains(k) ==> k.rank() < s[n].0.rank(),
        !keys_where(s, n, p).contains(s[n].0),
{
    let a = keys_where(s, n, p);
    let b = keys_where(s, n + 1, p);
    assert forall|k: K| #[trigger] a.contains(k) implies k.rank() < s[n].0.rank() by {
        let j = choose|j: int| 0 <= j < n && (#[trigger] s[j]).0 == k && p(s[j].0, s[j].1);
        assert(s[j].0.rank() < s[n].0.rank());
    }
    let c = if p(s[n].0, s[n].1) {
        a.insert(s[n].0)
    } else {
        a
    };
    assert forall|k: K| b.contains(k) <==> c.contains(k) by {
        if b.contains(k) {
            let j = choose|j: int| 0 <= j < n + 1 && (#[trigger] s[j]).0 == k && p(s[j].0, s[j].1);
            assert(s[j].0 == k);
            if j < n {
                assert(a.contains(k));
            }
        }
        if a.contains(k) {
            let j = choose|j: int| 0 <= j < n && (#[trigger] s[j]).0 == k && p(s[j].0, s[j].1);
            assert(s[j].0 == k && j < n + 1);
        }
    }
    assert(b =~= c);
}

/// All entries together give the keys of the map for which `p` holds.
pub proof fn lemma_keys_where_all<K: OrderedKey, V>(s: Seq<(K, V)>, p: spec_fn(K, V) -> bool)
    requires
        keys_increase(s),
    ensures
        keys_where(s, s.len() as int, p) == Set::new(
            |k: K| entries_map(s).contains_key(k) && p(k, entries_map(s)[k]),
        ),
{
    let a = keys_where(s, s.len() as int, p);
    let b = Set::new(|k: K| entries_map(s).contains_key(k) && p(k, entries_map(s)[k]));
    assert forall|k: K| a.contains(k) <==> b.contains(k) by {
        if a.contains(k) {
            let j = choose|j: int|
                0 <= j < s.len() && (#[trigger] s[j]).0 == k && p(s[j].0, s[j].1);
            lemma_entry(s, j);
        }
        if b.contains(k) {
            let j = lemma_position(s, k);
            assert(s[j].0 == k);
        }
    }
    assert(a =~= b);
}

/// Finitely many keys satisfy `p`, no more than there are entries.
pub proof fn lemma_keys_where_finite<K: OrderedKey, V>(
    s: Seq<(K, V)>,
    n: int,
    p: spec_fn(K, V) -> bool,
)
    requires
        keys_increase(s),
        0 <= n <= s.len(),
    ensures
        keys_where(s, n, p).finite(),
        keys_where(s, n, p).len() <= n,
    decreases n,
{
    if n == 0 {
        lemma_keys_where_none(s, p);
    } else {
        lemma_keys_where_finite(s, n - 1, p);
        lemma_keys_where_step(s, n - 1, p);
    }
}

/// The map has finitely many keys, as many as there are entries.
pub proof fn lemma_domain_size<K: OrderedKey, V>(s: Seq<(K, V)>)
    requires
        keys_increase(s),
    ensures
        entries_map(s).dom().finite(),
        entries_map(s).dom().len() == s.len(),
{
    let p = |k: K, v: V| true;
    lemma_keys_where_all(s, p);
    assert(entries_map(s).dom() =~= keys_where(s, s.len() as int, p));
    lemma_prefix_size(s, s.len() as int);
}

proof fn lemma_prefix_size<K: OrderedKey, V>(s: Seq<(K, V)>, n: int)
    requires
        keys_increase(s),
        0 <= n <= s.len(),
    ensures
        keys_where(s, n, |k: K, v: V| true).finite(),
        keys_where(s, n, |k: K, v: V| true).len() == n,
    decreases n,
{
    let p = |k: K, v: V| true;
    if n == 0 {
        lemma_keys_where_none(s, p);
    } else {
        lemma_prefix_size(s, n - 1);
        lemma_keys_where_step(s, n - 1, p);
    }
}

proof fn lemma_insert<K: OrderedKey, V>(s: Seq<(K, V)>, i: int, k: K, v: V)
    requires
        keys_increase(s),
        0 <= i <= s.len(),
        forall|j: int| 0 <= j < i ==> (#[trigger] s[j]).0.rank() < k.rank(),
        forall|j: int| i <= j < s.len() ==> k.rank() < (#[trigger] s[j]).0.rank(),
    ensures
        keys_increase(s.insert(i, (k, v))),
        !entries_map(s).contains_key(k),
        entries_map(s.insert(i, (k, v))) == entries_map(s).insert(k, v),
{
    let t = s.insert(i, (k, v));
    assert forall|j: int| 0 <= j < t.len() implies #[trigger] t[j] == (if j < i {
        s[j]
    } else if j == i {
        (k, v)
    } else {
        s[j - 1]
    }) by {}
    assert(keys_increase(t));
    if has_key(s, k) {
        let j = key_index(s, k);
        assert(s[j].0 == k);
    }
    assert forall|q: K| has_key(t, q) <==> has_key(s, q) || q == k by {
        if has_key(t, q) {
            let j = key_index(t, q);
            assert(t[j].0 == q);
            if j < i {
                assert(s[j].0 == q);
            } else if j > i {
                assert(s[j - 1].0 == q);
            }
        }
        if has_key(s, q) {
            let j = key_index(s, q);
            assert(s[j].0 == q);
            if j < i {
                assert(t[j].0 == q);
            } else {
                assert(t[j + 1].0 == q);
            }
        }
        if q == k {
            assert(t[i].0 == q);
        }
    }
    assert forall|q: K| has_key(t, q) implies #[trigger] entries_map(t)[q] == entries_map(s).insert(
        k,
        v,
    )[q] by {
        if q == k {
            assert(t[i].0 == q);
            lemma_entry(t, i);
        } else {
            let j = key_index(s, q);
            assert(s[j].0 == q);
            lemma_entry(s, j);
            if j < i {
                assert(t[j].0 == q);
                lemma_entry(t, j);
            } else {
                assert(t[j + 1].0 == q);
                lemma_entry(t, j + 1);
            }
        }
    }
    assert(entries_map(t) =~= entries_map(s).insert(k, v));
}

/// Taking out an entry takes its key out of the map.
pub proof fn lemma_remove<K: OrderedKey, V>(s: Seq<(K, V)>, i: int)
    requires
        keys_increase(s),
        0 <= i < s.len(),
    ensures
        keys_increase(s.remove(i)),
        entries_map(s.remove(i)) == entries_map(s).remove(s[i].0),
{
    let t = s.remove(i);
    let k = s[i].0;
    assert forall|j: int| 0 <= j < t.len() implies #[trigger] t[j] == (if j < i {
        s[j]
    } else {
        s[j + 1]
    }) by {}
    assert(keys_increase(t));
    assert forall|q: K| has_key(t, q) <==> has_key(s, q) && q != k by {
        if has_key(t, q) {
            let j = key_index(t, q);
            assert(t[j].0 == q);
            if j < i {
                assert(s[j].0 == q);
                assert(s[j].0.rank() < s[i].0.rank());
            } else {
                assert(s[j + 1].0 == q);
                assert(s[i].0.rank() < s[j + 1].0.rank());
            }
        }
        if has_key(s, q) && q != k {
            let j = key_index(s, q);
            assert(s[j].0 == q);
            if j < i {
                assert(t[j].0 == q);
            } else {
                assert(t[j - 1].0 == q);
            }
        }
    }
    assert forall|q: K| has_key(t, q) implies #[trigger] entries_map(t)[q] == entries_map(s).remove(
        k,
    )[q] by {
        let j = key_index(s, q);
        assert(s[j].0 == q);
        lemma_entry(s, j);
        if j < i {
            assert(t[j].0 == q);
            lemma_entry(t, j);
        } else {
            assert(t[j - 1].0 == q);
            lemma_entry(t, j - 1);
        }
    }
    assert(entries_map(t) =~= entries_map(s).remove(k));
}

} // verus!
