//! Putting transactions in the order in which they are considered for a block.

use crate::primitives::OrderedKey;
use crate::transactions::DataTransactionHeader;
use vstd::prelude::*;

verus! {

/// Items of which some come before others.
pub trait Prioritized: Sized + Copy {
    /// Whether this item comes strictly before `other`.
    spec fn before(self, other: Self) -> bool;

    /// No two items come before each other.
    proof fn before_is_asymmetric(a: Self, b: Self)
        ensures
            !(a.before(b) && b.before(a)),
    ;

    /// An item that does not come before a second one, which does not come before a third one,
    /// does not come before the third one.
    proof fn before_is_negatively_transitive(a: Self, b: Self, c: Self)
        requires
            !a.before(b),
            !b.before(c),
        ensures
            !a.before(c),
    ;

    /// Whether this item comes strictly before `other`.
    fn comes_before(&self, other: &Self) -> (r: bool)
        ensures
            r == self.before(*other),
    ;
}

/// `r` holds the items of `s`, `p` says where each one stood, and of any two in `r` the first
/// comes before the second or, where neither comes before the other, stood before it.
pub open spec fn in_order<T: Prioritized>(s: Seq<T>, r: Seq<T>, p: Seq<int>) -> bool {
    &&& r.len() == s.len()
    &&& p.len() == s.len()
    &&& forall|i: int| 0 <= i < p.len() ==> 0 <= #[trigger] p[i] < s.len()
    &&& forall|i: int, j: int| 0 <= i < j < p.len() ==> #[trigger] p[i] != #[trigger] p[j]
    &&& forall|i: int| 0 <= i < r.len() ==> #[trigger] r[i] == s[p[i]]
    &&& forall|i: int, j: int|
        #![trigger r[i], r[j]]
        0 <= i < j < r.len() ==> r[i].before(r[j]) || (!r[j].before(r[i]) && p[i] < p[j])
}

/// `r` is `s` put in order; items of which neither comes before the other keep theirs.
pub open spec fn ordered<T: Prioritized>(s: Seq<T>, r: Seq<T>) -> bool {
    exists|p: Seq<int>| in_order(s, r, p)
}

/// Whatever is in an ordered list was in the list, and the other way round.
pub proof fn lemma_ordered_holds_the_same<T: Prioritized>(s: Seq<T>, r: Seq<T>)
    requires
        ordered(s, r),
    ensures
        r.len() == s.len(),
        forall|x: T| #[trigger] r.contains(x) <==> s.contains(x),
{
    let p = choose|p: Seq<int>| in_order(s, r, p);
    assert forall|x: T| #[trigger] r.contains(x) <==> s.contains(x) by {
        if r.contains(x) {
            let i = r.index_of(x);
            assert(s[p[i]] == x);
        }
        if s.contains(x) {
            let j = s.index_of(x);
            lemma_injective_hits(p, s.len(), j);
            let i = choose|i: int| 0 <= i < p.len() && p[i] == j;
            assert(r[i] == s[p[i]]);
        }
    }
}

/// As many distinct numbers below `n` as there are leave none out.
proof fn lemma_injective_hits(p: Seq<int>, n: nat, j: int)
    requires
        p.len() == n,
        forall|i: int| 0 <= i < p.len() ==> 0 <= #[trigger] p[i] < n,
        forall|i: int, j: int| 0 <= i < j < p.len() ==> #[trigger] p[i] != #[trigger] p[j],
        0 <= j < n,
    ensures
        exists|i: int| 0 <= i < p.len() && p[i] == j,
{
    assert(p.no_duplicates());
    p.unique_seq_to_set();
    let all = vstd::set_lib::set_int_range(0, n as int);
    vstd::set_lib::lemma_int_range(0, n as int);
    assert(p.to_set().subset_of(all)) by {
        assert forall|x: int| p.to_set().contains(x) implies all.contains(x) by {
            let i = p.index_of(x);
            assert(0 <= p[i] < n);
        }
    }
    vstd::set_lib::lemma_subset_equality(p.to_set(), all);
    assert(p.to_set().contains(j));
    let i = p.index_of(j);
    assert(p[i] == j);
}

/// Puts the items in order; items of which neither comes before the other keep theirs.
pub fn sort<T: Prioritized>(items: &Vec<T>) -> (r: Vec<T>)
    ensures
        ordered(items@, r@),
{
    let mut r: Vec<T> = Vec::new();
    let ghost mut p: Seq<int> = Seq::empty();
    let mut n: usize = 0;
    while n < items.len()
        invariant
            n <= items@.len(),
            in_order(items@.take(n as int), r@, p),
        decreases items@.len() - n,
    {
        let x = items[n];
        let mut k: usize = r.len();
        while k > 0 && x.comes_before(&r[k - 1])
            invariant
                k <= r@.len(),
                forall|j: int| k <= j < r@.len() ==> x.before(#[trigger] r@[j]),
            decreases k,
        {
            k -= 1;
        }
        let ghost before = r@;
        r.insert(k, x);
        proof {
            let q = p.insert(k as int, n as int);
            let s = items@.take(n as int + 1);
            assert(k > 0 ==> !x.before(before[k - 1]));
            assert forall|i: int| 0 <= i < k implies !x.before(#[trigger] before[i]) by {
                if i < k - 1 {
                    let m = k as int - 1;
                    T::before_is_asymmetric(before[i], before[m]);
                    assert(!before[m].before(before[i]));
                    T::before_is_negatively_transitive(x, before[m], before[i]);
                }
            }
            assert forall|i: int, j: int|
                #![trigger r@[i], r@[j]]
                0 <= i < j < r@.len() implies r@[i].before(r@[j]) || (!r@[j].before(r@[i]) && q[i]
                < q[j]) by {
                if i != k && j != k {
                    let a = if i < k { i } else { i - 1 };
                    let b = if j < k { j } else { j - 1 };
                    assert(r@[i] == before[a]);
                    assert(r@[j] == before[b]);
                    assert(q[i] == p[a]);
                    assert(q[j] == p[b]);
                } else if j == k {
                    assert(r@[i] == before[i]);
                    assert(q[i] == p[i]);
                    assert(0 <= p[i] < n);
                } else {
                    assert(r@[j] == before[j - 1]);
                }
            }
            assert forall|i: int| 0 <= i < q.len() implies 0 <= #[trigger] q[i] < s.len() by {
                if i != k {
                    let a = if i < k { i } else { i - 1 };
                    assert(q[i] == p[a]);
                }
            }
            assert forall|i: int, j: int| 0 <= i < j < q.len() implies #[trigger] q[i]
                != #[trigger] q[j] by {
                let a = if i < k { i } else { i - 1 };
                let b = if j < k { j } else { j - 1 };
                if i != k && j != k {
                    assert(q[i] == p[a] && q[j] == p[b]);
                } else if j == k {
                    assert(q[i] == p[a]);
                    assert(0 <= p[a] < n);
                } else {
                    assert(q[j] == p[b]);
                    assert(0 <= p[b] < n);
                }
            }
            assert forall|i: int| 0 <= i < r@.len() implies #[trigger] r@[i] == s[q[i]] by {
                if i != k {
                    let a = if i < k { i } else { i - 1 };
                    assert(r@[i] == before[a]);
                    assert(before[a] == items@.take(n as int)[p[a]]);
                    assert(q[i] == p[a]);
                    assert(0 <= p[a] < n);
                } else {
                    assert(q[i] == n);
                }
            }
            p = q;
        }
        n += 1;
    }
    assert(items@.take(n as int) =~= items@);
    r
}

impl Prioritized for DataTransactionHeader {
    /// The transaction that pays more comes first; of two that pay the same, the one whose id is
    /// lower.
    open spec fn before(self, other: Self) -> bool {
        self.user_fee@ > other.user_fee@ || (self.user_fee@ == other.user_fee@ && self.id.rank()
            < other.id.rank())
    }

    proof fn before_is_asymmetric(a: Self, b: Self) {
    }

    proof fn before_is_negatively_transitive(a: Self, b: Self, c: Self) {
    }

    fn comes_before(&self, other: &Self) -> (r: bool) {
        if other.user_fee.less_than(&self.user_fee) {
            true
        } else if self.user_fee.less_than(&other.user_fee) {
            false
        } else {
            self.id.precedes(&other.id)
        }
    }
}

/// A data transaction that pays more comes first; of two that pay the same, the one with the lower
/// id does.
pub proof fn law_higher_fees_come_first(a: DataTransactionHeader, b: DataTransactionHeader)
    ensures
        a.user_fee@ > b.user_fee@ ==> a.before(b),
        a.user_fee@ < b.user_fee@ ==> !a.before(b),
        a.user_fee@ == b.user_fee@ ==> (a.before(b) <==> a.id.rank() < b.id.rank()),
{
}

} // verus!
