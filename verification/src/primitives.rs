//! Identifiers and amounts shared by every service.

use vstd::prelude::*;

verus! {

/// One more than the largest `u128`.
pub open spec fn two_pow_128() -> nat {
    0x1_0000_0000_0000_0000_0000_0000_0000_0000nat
}

/// One more than the largest value of [`U256`] and of [`H256`].
pub open spec fn two_pow_256() -> nat {
    two_pow_128() * two_pow_128()
}

/// A key type whose values are totally ordered by a natural number, their rank.
pub trait OrderedKey: Sized + Copy {
    /// The position of the key in the order.
    spec fn rank(self) -> nat;

    /// Distinct keys have distinct ranks.
    proof fn rank_is_injective(a: Self, b: Self)
        requires
            a.rank() == b.rank(),
        ensures
            a == b,
    ;

    /// Whether this key comes strictly before `other`.
    fn precedes(&self, other: &Self) -> (r: bool)
        ensures
            r == (self.rank() < other.rank()),
    ;
}

impl OrderedKey for u32 {
    open spec fn rank(self) -> nat {
        self as nat
    }

    proof fn rank_is_injective(a: Self, b: Self) {
    }

    fn precedes(&self, other: &Self) -> (r: bool) {
        *self < *other
    }
}

/// A 256-bit identifier: a transaction id, a block hash, a data root, a partition hash.
/// `hi` holds the first sixteen bytes, most significant byte first, `lo` the other sixteen.
#[derive(Clone, Copy, Debug, PartialEq, Eq, Structural, Hash)]
pub struct H256 {
    pub hi: u128,
    pub lo: u128,
}

/// A 160-bit account address; `hi` holds the first four bytes, `lo` the other sixteen.
#[derive(Clone, Copy, Debug, PartialEq, Eq, Structural, Hash)]
pub struct IrysAddress {
    pub hi: u32,
    pub lo: u128,
}

/// An unsigned 256-bit amount in the smallest token unit.
#[derive(Clone, Copy, Debug, PartialEq, Eq, Structural)]
pub struct U256 {
    pub hi: u128,
    pub lo: u128,
}

/// Identifies a transaction.
pub type IrysTransactionId = H256;

/// Identifies the Merkle root of a transaction's data.
pub type DataRoot = H256;

proof fn lemma_halves(a_hi: nat, a_lo: nat, b_hi: nat, b_lo: nat)
    requires
        a_lo < two_pow_128(),
        b_lo < two_pow_128(),
    ensures
        a_hi * two_pow_128() + a_lo < b_hi * two_pow_128() + b_lo <==> a_hi < b_hi || (a_hi == b_hi
            && a_lo < b_lo),
        a_hi * two_pow_128() + a_lo == b_hi * two_pow_128() + b_lo <==> a_hi == b_hi && a_lo
            == b_lo,
{
    if a_hi < b_hi {
        assert((a_hi + 1) * two_pow_128() <= b_hi * two_pow_128()) by (nonlinear_arith)
            requires
                a_hi + 1 <= b_hi,
        ;
        assert((a_hi + 1) * two_pow_128() == a_hi * two_pow_128() + two_pow_128())
            by (nonlinear_arith);
    } else if b_hi < a_hi {
        assert((b_hi + 1) * two_pow_128() <= a_hi * two_pow_128()) by (nonlinear_arith)
            requires
                b_hi + 1 <= a_hi,
        ;
        assert((b_hi + 1) * two_pow_128() == b_hi * two_pow_128() + two_pow_128())
            by (nonlinear_arith);
    }
}

impl H256 {
    /// The identifier whose bytes are all zero.
    pub fn zero() -> (r: H256)
        ensures
            r == (H256 { hi: 0, lo: 0 }),
    {
        H256 { hi: 0, lo: 0 }
    }
}

impl OrderedKey for H256 {
    /// The identifier read as one big-endian number.
    open spec fn rank(self) -> nat {
        self.hi as nat * two_pow_128() + self.lo as nat
    }

    proof fn rank_is_injective(a: Self, b: Self) {
        lemma_halves(a.hi as nat, a.lo as nat, b.hi as nat, b.lo as nat);
    }

    fn precedes(&self, other: &Self) -> (r: bool) {
        proof {
            lemma_halves(self.hi as nat, self.lo as nat, other.hi as nat, other.lo as nat);
        }
        self.hi < other.hi || (self.hi == other.hi && self.lo < other.lo)
    }
}

impl OrderedKey for IrysAddress {
    /// The address read as one big-endian number.
    open spec fn rank(self) -> nat {
        self.hi as nat * two_pow_128() + self.lo as nat
    }

    proof fn rank_is_injective(a: Self, b: Self) {
        lemma_halves(a.hi as nat, a.lo as nat, b.hi as nat, b.lo as nat);
    }

    fn precedes(&self, other: &Self) -> (r: bool) {
        proof {
            lemma_halves(self.hi as nat, self.lo as nat, other.hi as nat, other.lo as nat);
        }
        self.hi < other.hi || (self.hi == other.hi && self.lo < other.lo)
    }
}

impl View for U256 {
    type V = nat;

    /// The amount as a natural number.
    open spec fn view(&self) -> nat {
        self.hi as nat * two_pow_128() + self.lo as nat
    }
}

impl U256 {
    /// No tokens.
    pub fn zero() -> (r: U256)
        ensures
            r@ == 0,
    {
        U256 { hi: 0, lo: 0 }
    }

    /// The largest amount.
    pub fn max_value() -> (r: U256)
        ensures
            r@ == two_pow_256() - 1,
    {
        let r = U256 { hi: u128::MAX, lo: u128::MAX };
        assert(u128::MAX as nat * two_pow_128() + u128::MAX as nat == two_pow_256() - 1)
            by (nonlinear_arith)
            requires
                u128::MAX as nat == two_pow_128() - 1,
        ;
        r
    }

    /// The amount `n`.
    pub fn from_u64(n: u64) -> (r: U256)
        ensures
            r@ == n,
    {
        U256 { hi: 0, lo: n as u128 }
    }

    /// Whether this amount is smaller than `other`.
    pub fn less_than(&self, other: &U256) -> (r: bool)
        ensures
            r == (self@ < other@),
    {
        proof {
            lemma_halves(self.hi as nat, self.lo as nat, other.hi as nat, other.lo as nat);
        }
        self.hi < other.hi || (self.hi == other.hi && self.lo < other.lo)
    }

    /// The sum, unless it does not fit.
    pub fn checked_add(&self, other: &U256) -> (r: Option<U256>)
        ensures
            match r {
                Some(s) => s@ == self@ + other@,
                None => self@ + other@ >= two_pow_256(),
            },
    {
        let lo: u128 = self.lo.wrapping_add(other.lo);
        let carry: u128 = if lo < self.lo {
            1
        } else {
            0
        };
        proof {
            let h = two_pow_128();
            let a = self.hi as nat;
            let b = other.hi as nat;
            let c = carry as nat;
            assert(lo + c * h == self.lo + other.lo);
            assert(a * h + b * h + c * h == (a + b + c) * h) by (nonlinear_arith);
            if a + b + c >= h {
                assert((a + b + c) * h >= h * h) by (nonlinear_arith)
                    requires
                        a + b + c >= h,
                ;
            }
        }
        match self.hi.checked_add(other.hi) {
            None => None,
            Some(part) => match part.checked_add(carry) {
                None => None,
                Some(hi) => Some(U256 { hi, lo }),
            },
        }
    }

    /// The sum, or the largest amount where the sum does not fit.
    pub fn saturating_add(&self, other: &U256) -> (r: U256)
        ensures
            r@ == if self@ + other@ < two_pow_256() {
                self@ + other@
            } else {
                (two_pow_256() - 1) as nat
            },
    {
        proof {
            lemma_u256_bound(*self);
            lemma_u256_bound(*other);
        }
        match self.checked_add(other) {
            Some(s) => {
                proof {
                    lemma_u256_bound(s);
                }
                s
            },
            None => U256::max_value(),
        }
    }
}

impl U256 {
    /// The amount divided by ten, and what is left.
    pub fn div_rem_ten(&self) -> (r: (U256, u64))
        ensures
            self@ == r.0@ * 10 + r.1,
            r.1 < 10,
    {
        // Two to the power of 128 is ten times this number, and six.
        let tenth: u128 = 34028236692093846346337460743176821145;
        let carried: u128 = self.hi % 10;
        let rest: u128 = carried * 6 + self.lo % 10;
        let lo: u128 = carried * tenth + self.lo / 10 + rest / 10;
        (U256 { hi: self.hi / 10, lo }, (rest % 10) as u64)
    }
}

/// Every amount is below two to the power of 256.
pub proof fn lemma_u256_bound(a: U256)
    ensures
        a@ < two_pow_256(),
{
    let h = two_pow_128();
    assert(a.hi as nat * h + h <= h * h) by (nonlinear_arith)
        requires
            a.hi as nat + 1 <= h,
    ;
}

/// Two amounts with the same value are the same amount.
pub proof fn lemma_u256_injective(a: U256, b: U256)
    requires
        a@ == b@,
    ensures
        a == b,
{
    lemma_halves(a.hi as nat, a.lo as nat, b.hi as nat, b.lo as nat);
}

/// The amount with the value `n`.
pub open spec fn amount_of(n: nat) -> U256 {
    choose|a: U256| a@ == n
}

/// An amount is the one with its value.
pub proof fn lemma_amount_of(a: U256)
    ensures
        amount_of(a@) == a,
{
    lemma_u256_injective(amount_of(a@), a);
}

/// Every number below two to the power of 256 is the value of an amount.
pub proof fn lemma_amount_exists(n: nat)
    requires
        n < two_pow_256(),
    ensures
        amount_of(n)@ == n,
{
    let h = two_pow_128();
    let q = n / h;
    let r = n % h;
    assert(n == q * h + r && r < h) by (nonlinear_arith)
        requires
            q == n / h,
            r == n % h,
            h == two_pow_128(),
    ;
    assert(q < h) by (nonlinear_arith)
        requires
            n == q * h + r,
            n < h * h,
            h > 0,
    ;
    let a = U256 { hi: q as u128, lo: r as u128 };
    assert(a@ == n);
}

/// The data ledgers of the chain.
#[derive(Clone, Copy, Debug, PartialEq, Eq, Structural)]
pub enum DataLedger {
    /// Permanent storage.
    Publish,
    /// Where data waits for its permanent place.
    Submit,
    /// Storage for one year.
    OneYear,
    /// Storage for thirty days.
    ThirtyDay,
}

/// Identifiers are ordered by their high half, and by their low half where that is the same.
pub proof fn law_identifiers_are_ordered_by_their_halves(a: H256, b: H256)
    ensures
        a.hi < b.hi ==> a.rank() < b.rank(),
        a.hi == b.hi && a.lo < b.lo ==> a.rank() < b.rank(),
{
    if a.hi < b.hi {
        lemma_high_half_decides(a.hi as nat, a.lo, b.hi as nat, b.lo);
    }
}

/// Addresses are ordered by their high part, and by their low part where that is the same.
pub proof fn law_addresses_are_ordered_by_their_parts(a: IrysAddress, b: IrysAddress)
    ensures
        a.hi < b.hi ==> a.rank() < b.rank(),
        a.hi == b.hi && a.lo < b.lo ==> a.rank() < b.rank(),
{
    if a.hi < b.hi {
        lemma_high_half_decides(a.hi as nat, a.lo, b.hi as nat, b.lo);
    }
}

proof fn lemma_high_half_decides(a_hi: nat, a_lo: u128, b_hi: nat, b_lo: u128)
    requires
        a_hi < b_hi,
    ensures
        a_hi * two_pow_128() + a_lo < b_hi * two_pow_128() + b_lo,
{
    let h = two_pow_128();
    assert(a_hi * h + h <= b_hi * h) by (nonlinear_arith)
        requires
            a_hi + 1 <= b_hi,
    ;
}

} // verus!
