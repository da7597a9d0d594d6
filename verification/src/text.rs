//! Text that numbers and messages are written with.

use crate::primitives::U256;
use vstd::prelude::*;
use vstd::string::StringExecFns;

verus! {

/// The character that stands for a decimal digit.
pub open spec fn digit_char(d: nat) -> char {
    (d + 0x30) as char
}

/// The decimal numeral of `n`.
pub open spec fn decimal(n: nat) -> Seq<char>
    decreases n,
{
    if n < 10 {
        seq![digit_char(n)]
    } else {
        decimal(n / 10).push(digit_char(n % 10))
    }
}

fn digit_text(d: u64) -> (r: String)
    requires
        d < 10,
    ensures
        r@ == seq![digit_char(d as nat)],
{
    proof {
        reveal_strlit("0");
        reveal_strlit("1");
        reveal_strlit("2");
        reveal_strlit("3");
        reveal_strlit("4");
        reveal_strlit("5");
        reveal_strlit("6");
        reveal_strlit("7");
        reveal_strlit("8");
        reveal_strlit("9");
    }
    let r: &str = if d == 0 {
        "0"
    } else if d == 1 {
        "1"
    } else if d == 2 {
        "2"
    } else if d == 3 {
        "3"
    } else if d == 4 {
        "4"
    } else if d == 5 {
        "5"
    } else if d == 6 {
        "6"
    } else if d == 7 {
        "7"
    } else if d == 8 {
        "8"
    } else {
        "9"
    };
    assert(r@ =~= seq![digit_char(d as nat)]);
    String::from_str(r)
}

/// Writes `n` in decimal.
pub fn decimal_text(n: u64) -> (r: String)
    ensures
        r@ == decimal(n as nat),
    decreases n,
{
    if n < 10 {
        digit_text(n)
    } else {
        let mut r = decimal_text(n / 10);
        let last = digit_text(n % 10);
        r.append(last.as_str());
        assert(r@ =~= decimal(n as nat));
        r
    }
}

/// Writes an amount in decimal.
pub fn amount_text(a: &U256) -> (r: String)
    ensures
        r@ == decimal(a@),
    decreases a@,
{
    let (tens, last) = a.div_rem_ten();
    if tens.hi == 0 && tens.lo == 0 {
        assert(decimal(a@) == seq![digit_char(last as nat)]);
        digit_text(last)
    } else {
        assert(tens@ > 0) by {
            if tens.hi > 0 {
                assert(tens.hi as nat * crate::primitives::two_pow_128() > 0) by (nonlinear_arith)
                    requires
                        tens.hi > 0,
                ;
            }
        }
        let mut r = amount_text(&tens);
        let digit = digit_text(last);
        r.append(digit.as_str());
        assert(a@ / 10 == tens@ && a@ % 10 == last);
        assert(r@ =~= decimal(a@));
        r
    }
}

/// `head` followed by `tail`.
pub fn join(head: &str, tail: &str) -> (r: String)
    ensures
        r@ == head@ + tail@,
{
    let mut r = String::from_str(head);
    r.append(tail);
    r
}

/// A number is written with the text of its tens and then its last digit; a digit is its own text.
pub proof fn law_digits_stand_in_order(tens: nat, digit: nat)
    requires
        digit < 10,
    ensures
        decimal(digit) == seq![digit_char(digit)],
        tens > 0 ==> decimal(10 * tens + digit) == decimal(tens).push(digit_char(digit)),
        digit_char(0) == '0',
        digit_char(1) == '1',
        digit_char(9) == '9',
{
    assert((10 * tens + digit) / 10 == tens);
    assert((10 * tens + digit) % 10 == digit);
}

} // verus!
