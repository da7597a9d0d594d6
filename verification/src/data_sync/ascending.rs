//! Sets of chunk offsets listed from the lowest to the highest.

use vstd::prelude::*;

verus! {

/// `q` lists the members of `s`, each once, from the lowest to the highest.
pub open spec fn lists_ascending(q: Seq<u32>, s: Set<u32>) -> bool {
    &&& forall|i: int, j: int| 0 <= i < j < q.len() ==> #[trigger] q[i] < #[trigger] q[j]
    &&& forall|o: u32| #[trigger] q.contains(o) <==> s.contains(o)
}

/// The members of the set `s` from the lowest to the highest.
pub open spec fn ascending(s: Set<u32>) -> Seq<u32> {
    choose|q: Seq<u32>| lists_ascending(q, s)
}

/// A set has only one ascending list.
pub proof fn lemma_ascending_is(q: Seq<u32>, s: Set<u32>)
    requires
        lists_ascending(q, s),
    ensures
        ascending(s) == q,
{
    let p = ascending(s);
    assert(lists_ascending(p, s));
    lemma_unique(p, q);
}

proof fn lemma_unique(p: Seq<u32>, q: Seq<u32>)
    requires
        forall|i: int, j: int| 0 <= i < j < p.len() ==> #[trigger] p[i] < #[trigger] p[j],
        forall|i: int, j: int| 0 <= i < j < q.len() ==> #[trigger] q[i] < #[trigger] q[j],
        forall|o: u32| #[trigger] p.contains(o) <==> q.contains(o),
    ensures
        p == q,
    decreases p.len(),
{
    if p.len() == 0 {
        if q.len() > 0 {
            assert(q.contains(q[0]));
            assert(p.contains(q[0]));
        }
        assert(p =~= q);
    } else {
        let x = p.last();
        assert(p.contains(p[p.len() - 1]));
        assert(q.contains(x));
        assert(q.len() > 0);
        let y = q.last();
        assert(q.contains(q[q.len() - 1]));
        assert(p.contains(y));
        let i = p.index_of(y);
        let j = q.index_of(x);
        assert(p[i] == y && q[j] == x);
        assert(y <= x) by {
            if i < p.len() - 1 {
                assert(p[i] < p[p.len() - 1]);
            }
        }
        assert(x <= y) by {
            if j < q.len() - 1 {
                assert(q[j] < q[q.len() - 1]);
            }
        }
        let p1 = p.drop_last();
        let q1 = q.drop_last();
        assert forall|o: u32| #[trigger] p1.contains(o) <==> q1.contains(o) by {
            if p1.contains(o) {
                let k = p1.index_of(o);
                assert(p[k] == o);
                assert(p.contains(o));
                assert(q.contains(o));
                let m = q.index_of(o);
                assert(p[k] < p[p.len() - 1]);
                assert(m < q.len() - 1);
                assert(q1[m] == o);
            }
            if q1.contains(o) {
                let k = q1.index_of(o);
                assert(q[k] == o);
                assert(q.contains(o));
                assert(p.contains(o));
                let m = p.index_of(o);
                assert(q[k] < q[q.len() - 1]);
                assert(m < p.len() - 1);
                assert(p1[m] == o);
            }
        }
        lemma_unique(p1, q1);
        assert(p =~= p1.push(x));
        assert(q =~= q1.push(y));
    }
}

/// Every set of offsets has an ascending list.
pub proof fn lemma_ascending_exists(s: Set<u32>)
    ensures
        lists_ascending(ascending(s), s),
{
    let q = lemma_listing(s, 0x1_0000_0000);
    assert(s.intersect(Set::new(|o: u32| o < 0x1_0000_0000nat)) =~= s);
    lemma_ascending_is(q, s);
}

/// A list of the members of `s` below `bound`.
proof fn lemma_listing(s: Set<u32>, bound: nat) -> (q: Seq<u32>)
    requires
        bound <= 0x1_0000_0000,
    ensures
        lists_ascending(q, s.intersect(Set::new(|o: u32| o < bound))),
    decreases bound,
{
    if bound == 0 {
        let q = Seq::<u32>::empty();
        assert(lists_ascending(q, s.intersect(Set::new(|o: u32| o < bound))));
        q
    } else {
        let below = s.intersect(Set::new(|o: u32| o < bound - 1));
        let here = s.intersect(Set::new(|o: u32| o < bound));
        let q = lemma_listing(s, (bound - 1) as nat);
        let o = (bound - 1) as u32;
        if s.contains(o) {
            lemma_ascending_push(q, below, o);
            assert(below.insert(o) =~= here);
            q.push(o)
        } else {
            assert(below =~= here);
            q
        }
    }
}

/// Appending a larger member keeps the list ascending.
pub proof fn lemma_ascending_push(q: Seq<u32>, s: Set<u32>, o: u32)
    requires
        lists_ascending(q, s),
        forall|p: u32| s.contains(p) ==> p < o,
    ensures
        lists_ascending(q.push(o), s.insert(o)),
{
    let r = q.push(o);
    assert forall|i: int, j: int| 0 <= i < j < r.len() implies #[trigger] r[i] < #[trigger] r[j] by {
        if j == q.len() {
            assert(q.contains(q[i]));
        }
    }
    assert forall|p: u32| #[trigger] r.contains(p) <==> s.insert(o).contains(p) by {
        if q.contains(p) {
            let i = q.index_of(p);
            assert(r[i] == p);
        }
        if p == o {
            assert(r[q.len() as int] == p);
        }
        if r.contains(p) && p != o {
            let i = r.index_of(p);
            assert(q[i] == p);
        }
    }
}

/// The list of a set rises from one member to the next and holds nothing but the members.
pub proof fn law_list_of_a_set_rises(q: Seq<u32>, s: Set<u32>, i: int, j: int, o: u32)
    requires
        lists_ascending(q, s),
        0 <= i < j < q.len(),
    ensures
        q[i] < q[j],
        s.contains(q[i]) && s.contains(q[j]),
        s.contains(o) ==> q.contains(o),
        ascending(s) == q,
{
    lemma_ascending_is(q, s);
    assert(q.contains(q[i]) && q.contains(q[j]));
}

} // verus!
