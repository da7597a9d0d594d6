//! A small set of peer addresses.

use crate::primitives::IrysAddress;
use vstd::prelude::*;

verus! {

/// A set of addresses, held without repetition.
#[derive(Debug)]
pub struct AddressSet {
    pub members: Vec<IrysAddress>,
}

/// Whether `address` occurs in `list`.
pub fn list_contains(list: &Vec<IrysAddress>, address: IrysAddress) -> (r: bool)
    ensures
        r == list@.contains(address),
{
    let mut i: usize = 0;
    while i < list.len()
        invariant
            i <= list@.len(),
            forall|j: int| 0 <= j < i ==> list@[j] != address,
        decreases list@.len() - i,
    {
        if list[i] == address {
            assert(list@[i as int] == address);
            return true;
        }
        i += 1;
    }
    false
}

impl View for AddressSet {
    type V = Set<IrysAddress>;

    open spec fn view(&self) -> Set<IrysAddress> {
        self.members@.to_set()
    }
}

impl AddressSet {
    /// The empty set.
    pub fn new() -> (r: AddressSet)
        ensures
            r@ == Set::<IrysAddress>::empty(),
    {
        let r = AddressSet { members: Vec::new() };
        assert(r@ =~= Set::<IrysAddress>::empty());
        r
    }

    /// Whether `address` is a member.
    pub fn contains(&self, address: IrysAddress) -> (r: bool)
        ensures
            r == self@.contains(address),
    {
        list_contains(&self.members, address)
    }

    /// Makes `address` a member.
    pub fn insert(&mut self, address: IrysAddress)
        ensures
            final(self)@ == old(self)@.insert(address),
    {
        if !self.contains(address) {
            let ghost before = self.members@;
            self.members.push(address);
            proof {
                assert(self.members@ == before.push(address));
                assert forall|a: IrysAddress|
                    self.members@.contains(a) <==> before.contains(a) || a == address by {
                    if before.contains(a) {
                        let j = before.index_of(a);
                        assert(self.members@[j] == a);
                    }
                    if a == address {
                        assert(self.members@[before.len() as int] == a);
                    }
                }
                assert(self@ =~= old(self)@.insert(address));
            }
        } else {
            assert(self@ =~= old(self)@.insert(address));
        }
    }

    /// Keeps only the members that occur in `list`.
    pub fn retain_listed(&mut self, list: &Vec<IrysAddress>)
        ensures
            final(self)@ == old(self)@.intersect(list@.to_set()),
    {
        let mut kept: Vec<IrysAddress> = Vec::new();
        let mut i: usize = 0;
        while i < self.members.len()
            invariant
                i <= self.members@.len(),
                forall|a: IrysAddress|
                    #[trigger] kept@.contains(a) <==> self.members@.take(i as int).contains(a)
                        && list@.contains(a),
                self.members@ == old(self).members@,
            decreases self.members@.len() - i,
        {
            let a = self.members[i];
            let ghost before = kept@;
            let listed = list_contains(list, a);
            if listed {
                kept.push(a);
            }
            proof {
                let head = self.members@.take(i as int);
                let next = self.members@.take(i as int + 1);
                assert(next =~= head.push(a));
                assert forall|b: IrysAddress| next.contains(b) <==> head.contains(b) || b == a by {
                    if head.contains(b) {
                        let j = head.index_of(b);
                        assert(next[j] == b);
                    }
                    if b == a {
                        assert(next[i as int] == b);
                    }
                }
                assert forall|b: IrysAddress| #[trigger] kept@.contains(b) <==> next.contains(b)
                    && list@.contains(b) by {
                    assert(before.contains(b) <==> head.contains(b) && list@.contains(b));
                    if before.contains(b) {
                        let j = before.index_of(b);
                        assert(kept@[j] == b);
                    }
                    if listed && b == a {
                        assert(kept@[before.len() as int] == b);
                    }
                    if kept@.contains(b) {
                        let j = kept@.index_of(b);
                        if j < before.len() {
                            assert(before[j] == b);
                        }
                    }
                }
            }
            i += 1;
        }
        proof {
            assert(self.members@.take(i as int) =~= self.members@);
        }
        self.members = kept;
        assert(self@ =~= old(self)@.intersect(list@.to_set()));
    }

    /// Whether every address in `list` is a member.
    pub fn covers(&self, list: &Vec<IrysAddress>) -> (r: bool)
        ensures
            r == list@.to_set().subset_of(self@),
    {
        let mut i: usize = 0;
        while i < list.len()
            invariant
                i <= list@.len(),
                forall|j: int| 0 <= j < i ==> self@.contains(#[trigger] list@[j]),
            decreases list@.len() - i,
        {
            if !self.contains(list[i]) {
                assert(list@.to_set().contains(list@[i as int]));
                return false;
            }
            i += 1;
        }
        assert forall|a: IrysAddress| list@.to_set().contains(a) implies self@.contains(a) by {
            let j = list@.index_of(a);
            assert(list@[j] == a);
        }
        true
    }
}

} // verus!
