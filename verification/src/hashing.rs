//! Hashing with SHA-256.

use crate::primitives::H256;
use openssl::sha;
use vstd::prelude::*;

verus! {

/// The SHA-256 hash of the bytes, as `openssl::sha::sha256` computes it.
pub uninterp spec fn sha256_bytes(message: Seq<u8>) -> Seq<u8>;

/// `openssl::sha::sha256`: the SHA-256 hash of the message, which depends on the message alone.
/// Of the hash itself nothing is claimed.
#[verifier::external_body]
fn sha256(message: &[u8]) -> (r: [u8; 32])
    ensures
        r@ == sha256_bytes(message@),
{
    sha::sha256(message)
}

/// The bytes read as one big-endian number.
pub open spec fn big_endian(bytes: Seq<u8>) -> nat
    decreases bytes.len(),
{
    if bytes.len() == 0 {
        0
    } else {
        big_endian(bytes.drop_last()) * 256 + bytes.last() as nat
    }
}

/// How large a number of `n` bytes can be.
pub open spec fn power_256(n: nat) -> nat
    decreases n,
{
    if n == 0 {
        1
    } else {
        256 * power_256((n - 1) as nat)
    }
}

proof fn lemma_big_endian_bound(bytes: Seq<u8>)
    ensures
        big_endian(bytes) < power_256(bytes.len()),
    decreases bytes.len(),
{
    if bytes.len() > 0 {
        lemma_big_endian_bound(bytes.drop_last());
    }
}

proof fn lemma_power_grows(a: nat, b: nat)
    requires
        a <= b,
    ensures
        power_256(a) <= power_256(b),
    decreases b,
{
    if a < b {
        lemma_power_grows(a, (b - 1) as nat);
    }
}

proof fn lemma_power_16()
    ensures
        power_256(16) == 0x1_0000_0000_0000_0000_0000_0000_0000_0000nat,
{
    reveal_with_fuel(power_256, 17);
}

/// Sixteen bytes, from `start` on, read as one big-endian number.
fn read_half(bytes: &[u8], start: usize) -> (r: u128)
    requires
        bytes@.len() == 32,
        start == 0 || start == 16,
    ensures
        r == big_endian(bytes@.subrange(start as int, start + 16)),
{
    let mut r: u128 = 0;
    let mut i: usize = 0;
    let ghost all = bytes@.subrange(start as int, start + 16);
    while i < 16
        invariant
            i <= 16,
            bytes@.len() == 32,
            start == 0 || start == 16,
            all == bytes@.subrange(start as int, start + 16),
            r == big_endian(all.take(i as int)),
        decreases 16 - i,
    {
        proof {
            let next = all.take(i as int + 1);
            assert(next.drop_last() =~= all.take(i as int));
            assert(next.last() == bytes@[start + i]);
            lemma_big_endian_bound(next);
            lemma_power_grows(next.len(), 16);
            lemma_power_16();
        }
        r = r * 256 + bytes[start + i] as u128;
        i += 1;
    }
    assert(all.take(16) =~= all);
    r
}

/// The identifier with the given bytes.
pub open spec fn id_with_bytes(bytes: Seq<u8>) -> H256 {
    H256 {
        hi: big_endian(bytes.subrange(0, 16)) as u128,
        lo: big_endian(bytes.subrange(16, 32)) as u128,
    }
}

impl H256 {
    /// The identifier with the given bytes, most significant byte first.
    pub fn from_bytes(bytes: &[u8]) -> (r: H256)
        requires
            bytes@.len() == 32,
        ensures
            r == id_with_bytes(bytes@),
    {
        H256 { hi: read_half(bytes, 0), lo: read_half(bytes, 16) }
    }

    /// The bytes of the identifier, most significant byte first.
    pub fn to_bytes(&self) -> (r: Vec<u8>)
        ensures
            r@ == id_bytes(*self),
    {
        let mut r: Vec<u8> = Vec::new();
        push_half(&mut r, self.hi);
        push_half(&mut r, self.lo);
        assert(r@ =~= id_bytes(*self));
        r
    }
}

/// The `n` last big-endian bytes of a number.
pub open spec fn bytes_of(value: nat, n: nat) -> Seq<u8>
    decreases n,
{
    if n == 0 {
        Seq::empty()
    } else {
        bytes_of(value / 256, (n - 1) as nat).push((value % 256) as u8)
    }
}

/// The bytes of an identifier, most significant byte first.
pub open spec fn id_bytes(id: H256) -> Seq<u8> {
    bytes_of(id.hi as nat, 16) + bytes_of(id.lo as nat, 16)
}

/// Appends the sixteen bytes of a number, most significant byte first.
fn push_half(r: &mut Vec<u8>, value: u128)
    ensures
        final(r)@ == old(r)@ + bytes_of(value as nat, 16),
{
    let ghost start = r@;
    let mut reversed: Vec<u8> = Vec::new();
    let mut rest: u128 = value;
    let mut i: usize = 0;
    assert(bytes_of(value as nat, 16) =~= bytes_of(rest as nat, 16) + reversed@.reverse());
    while i < 16
        invariant
            i <= 16,
            reversed@.len() == i,
            bytes_of(value as nat, 16) == bytes_of(rest as nat, (16 - i) as nat)
                + reversed@.reverse(),
        decreases 16 - i,
    {
        let b: u8 = (rest % 256) as u8;
        let ghost before = reversed@;
        let ghost front = bytes_of((rest / 256) as nat, (16 - i - 1) as nat);
        reversed.push(b);
        proof {
            assert(bytes_of(rest as nat, (16 - i) as nat) == front.push(b));
            assert(reversed@.reverse() =~= seq![b] + before.reverse());
            assert(front.push(b) + before.reverse() =~= front + reversed@.reverse());
        }
        rest = rest / 256;
        i += 1;
    }
    assert(bytes_of(rest as nat, 0) + reversed@.reverse() =~= reversed@.reverse());
    let mut k: usize = 16;
    assert(start + reversed@.reverse().take(0) =~= start);
    while k > 0
        invariant
            k <= 16,
            reversed@.len() == 16,
            r@ == start + reversed@.reverse().take(16 - k),
        decreases k,
    {
        k -= 1;
        r.push(reversed[k]);
        assert(reversed@.reverse().take(16 - k) =~= reversed@.reverse().take(16 - k - 1).push(
            reversed@[k as int],
        ));
    }
    assert(reversed@.reverse().take(16) =~= reversed@.reverse());
}

proof fn lemma_bytes_hold_the_number(value: nat, n: nat)
    requires
        value < power_256(n),
    ensures
        bytes_of(value, n).len() == n,
        big_endian(bytes_of(value, n)) == value,
    decreases n,
{
    if n > 0 {
        lemma_bytes_hold_the_number(value / 256, (n - 1) as nat);
        let front = bytes_of(value / 256, (n - 1) as nat);
        assert(bytes_of(value, n).drop_last() =~= front);
    }
}

/// An identifier is the one with its bytes.
pub proof fn law_bytes_round_trip(id: H256)
    ensures
        id_bytes(id).len() == 32,
        id_with_bytes(id_bytes(id)) == id,
{
    lemma_power_16();
    lemma_bytes_hold_the_number(id.hi as nat, 16);
    lemma_bytes_hold_the_number(id.lo as nat, 16);
    assert(id_bytes(id).subrange(0, 16) =~= bytes_of(id.hi as nat, 16));
    assert(id_bytes(id).subrange(16, 32) =~= bytes_of(id.lo as nat, 16));
}

/// The SHA-256 hash of the message as an identifier.
pub open spec fn hash_of(message: Seq<u8>) -> H256 {
    id_with_bytes(sha256_bytes(message))
}

/// The SHA-256 hash of the message.
pub fn hash_sha256(message: &Vec<u8>) -> (r: H256)
    ensures
        r == hash_of(message@),
{
    H256::from_bytes(sha256(message.as_slice()).as_slice())
}

/// The first byte of a number is the most significant one: what comes behind it counts for less
/// than one of it.
pub proof fn law_first_byte_is_the_most_significant(bytes: Seq<u8>)
    requires
        bytes.len() > 0,
    ensures
        big_endian(bytes) == bytes[0] * vstd::arithmetic::power::pow(256, (bytes.len() - 1) as nat)
            + big_endian(bytes.drop_first()),
        big_endian(bytes.drop_first()) < vstd::arithmetic::power::pow(
            256,
            (bytes.len() - 1) as nat,
        ),
    decreases bytes.len(),
{
    let rest = bytes.drop_first();
    lemma_big_endian_bound(rest);
    lemma_power_is_pow((bytes.len() - 1) as nat);
    if bytes.len() == 1 {
        assert(bytes.drop_last() =~= Seq::<u8>::empty());
        assert(rest =~= Seq::<u8>::empty());
        assert(big_endian(bytes.drop_last()) == 0);
        assert(big_endian(rest) == 0);
        vstd::arithmetic::power::lemma_pow0(256);
        assert(bytes[0] * 1 == bytes[0]);
    } else {
        let front = bytes.drop_last();
        law_first_byte_is_the_most_significant(front);
        assert(front.drop_first() =~= rest.drop_last());
        assert(rest.last() == bytes.last());
        let p = vstd::arithmetic::power::pow(256, (bytes.len() - 2) as nat);
        vstd::arithmetic::power::lemma_pow_adds(256, 1, (bytes.len() - 2) as nat);
        vstd::arithmetic::power::lemma_pow1(256);
        let q = vstd::arithmetic::power::pow(256, (bytes.len() - 1) as nat);
        assert(q == 256 * p);
        let b = bytes[0] as int;
        assert(front[0] == bytes[0]);
        assert((b * p) * 256 == b * q) by (nonlinear_arith)
            requires
                q == 256 * p,
        ;
    }
}

proof fn lemma_power_is_pow(n: nat)
    ensures
        power_256(n) == vstd::arithmetic::power::pow(256, n),
    decreases n,
{
    vstd::arithmetic::power::lemma_pow0(256);
    if n > 0 {
        lemma_power_is_pow((n - 1) as nat);
        vstd::arithmetic::power::lemma_pow_adds(256, 1, (n - 1) as nat);
        vstd::arithmetic::power::lemma_pow1(256);
    }
}

/// The first sixteen bytes of an id are its upper half, the other ones its lower half.
pub proof fn law_upper_half_comes_first(bytes: Seq<u8>)
    requires
        bytes.len() == 32,
    ensures
        id_with_bytes(bytes).hi == big_endian(bytes.take(16)),
        id_with_bytes(bytes).lo == big_endian(bytes.skip(16)),
{
    assert(bytes.subrange(0, 16) =~= bytes.take(16));
    assert(bytes.subrange(16, 32) =~= bytes.skip(16));
    lemma_big_endian_bound(bytes.take(16));
    lemma_big_endian_bound(bytes.skip(16));
    lemma_power_16();
}

} // verus!
