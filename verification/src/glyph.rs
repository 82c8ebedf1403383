//! Row indices written in subscript digits. A subscript digit takes three
//! bytes, and the last of them is 128 more than the digit.
use vstd::prelude::*;
use vstd::arithmetic::power::{
    lemma_pow0,
    lemma_pow1,
    lemma_pow_adds,
    lemma_pow_increases,
    lemma_pow_positive,
    pow,
};
use vstd::slice::slice_subrange;
use crate::text::{all_digits, decimal, is_digit, lemma_decimal_grows};

verus! {

/// The decimal digits that the first `count` groups of three bytes of
/// `token` stand for, in order. A group stands for a digit when its last
/// byte is 128 more than a digit; any other group is passed over.
pub open spec fn group_digits(token: Seq<u8>, count: nat) -> Seq<u8>
    decreases count,
{
    if count == 0 {
        Seq::empty()
    } else {
        let before = group_digits(token, (count - 1) as nat);
        let last = token[3 * count - 1];
        if 128 <= last <= 137 {
            before.push((last - 80) as u8)
        } else {
            before
        }
    }
}

/// The decimal digits that `token` stands for: those of all its whole
/// groups of three bytes.
pub open spec fn glyph_digits(token: Seq<u8>) -> Seq<u8> {
    group_digits(token, token.len() / 3)
}

/// The number that the subscript digits of `token` write; 0 where it holds
/// none.
pub open spec fn index_value(token: Seq<u8>) -> int {
    decimal(glyph_digits(token))
}

/// The number that `token` writes, where it fits in 64 bits.
pub open spec fn index_of(token: Seq<u8>) -> Option<u64> {
    if index_value(token) <= u64::MAX {
        Some(index_value(token) as u64)
    } else {
        None
    }
}

/// How many bytes the character takes that starts with the byte `b`.
pub open spec fn char_width(b: u8) -> nat {
    if b >= 240 {
        4
    } else if b >= 224 {
        3
    } else if b >= 192 {
        2
    } else {
        1
    }
}

/// The first character of `s`: as many bytes as its first byte announces,
/// or all of `s` where it is shorter.
pub open spec fn first_char(s: Seq<u8>) -> Seq<u8> {
    if s.len() == 0 {
        s
    } else if char_width(s[0]) <= s.len() {
        s.take(char_width(s[0]) as int)
    } else {
        s
    }
}

/// The first character of `text`.
pub fn leading_char(text: &[u8]) -> (r: &[u8])
    ensures
        r@ == first_char(text@),
{
    let n: usize = text.len();
    if n == 0 {
        return text;
    }
    let b: u8 = text[0];
    let w: usize = if b >= 240 {
        4
    } else if b >= 224 {
        3
    } else if b >= 192 {
        2
    } else {
        1
    };
    if w <= n {
        slice_subrange(text, 0, w)
    } else {
        text
    }
}

/// What the first groups of a token stand for are digits.
pub proof fn lemma_group_digits(token: Seq<u8>, count: nat)
    ensures
        all_digits(group_digits(token, count)),
        group_digits(token, count).len() <= count,
    decreases count,
{
    if count > 0 {
        lemma_group_digits(token, (count - 1) as nat);
        let before = group_digits(token, (count - 1) as nat);
        let last = token[3 * count - 1];
        if 128 <= last <= 137 {
            assert forall|i: int| 0 <= i < before.len() + 1 implies is_digit(
                #[trigger] before.push((last - 80) as u8)[i],
            ) by {
                if i < before.len() {
                    assert(is_digit(before[i]));
                }
            }
        }
    }
}

/// The subscript digits of `token`, as decimal digits.
pub fn recover_digits(token: &[u8]) -> (r: Vec<u8>)
    ensures
        r@ == glyph_digits(token@),
        all_digits(r@),
{
    let n: usize = token.len();
    let groups: usize = n / 3;
    let mut out: Vec<u8> = Vec::new();
    let mut g: usize = 0;
    while g < groups
        invariant
            g <= groups,
            n == token@.len(),
            groups == n / 3,
            out@ == group_digits(token@, g as nat),
        decreases groups - g,
    {
        let last: u8 = token[3 * g + 2];
        if 128 <= last && last <= 137 {
            out.push(last - 80);
        }
        g = g + 1;
    }
    proof {
        lemma_group_digits(token@, groups as nat);
    }
    out
}

/// 10 to the power of `e`, by `num::pow`. The contract says that the call
/// returns that power, for every exponent at which it fits in 64 bits.
#[verifier::external_body]
fn power_of_ten(e: usize) -> (r: u64)
    requires
        e <= 19,
    ensures
        r == pow(10, e as nat),
{
    num::pow(10u64, e)
}

/// One more factor of 10.
proof fn lemma_pow10_step(e: nat)
    ensures
        pow(10, e + 1) == 10 * pow(10, e),
        pow(10, e) > 0,
{
    lemma_pow_adds(10, 1, e);
    lemma_pow1(10);
    lemma_pow_positive(10, e);
}

/// 10 to the power of 19 fits in 64 bits, and no higher power of 10 does.
proof fn lemma_pow10_bounds(e: nat)
    ensures
        0 < pow(10, e),
        e <= 19 ==> pow(10, e) <= 10_000_000_000_000_000_000,
        e >= 20 ==> pow(10, e) >= 100_000_000_000_000_000_000,
{
    lemma_pow0(10);
    lemma_pow10_step(0);
    lemma_pow10_step(1);
    lemma_pow10_step(2);
    lemma_pow10_step(3);
    lemma_pow10_step(4);
    lemma_pow10_step(5);
    lemma_pow10_step(6);
    lemma_pow10_step(7);
    lemma_pow10_step(8);
    lemma_pow10_step(9);
    lemma_pow10_step(10);
    lemma_pow10_step(11);
    lemma_pow10_step(12);
    lemma_pow10_step(13);
    lemma_pow10_step(14);
    lemma_pow10_step(15);
    lemma_pow10_step(16);
    lemma_pow10_step(17);
    lemma_pow10_step(18);
    lemma_pow10_step(19);
    assert(pow(10, 19) == 10_000_000_000_000_000_000);
    assert(pow(10, 20) == 100_000_000_000_000_000_000);
    lemma_pow_positive(10, e);
    if e <= 19 {
        lemma_pow_increases(10, e, 19);
    } else {
        lemma_pow_increases(10, 20, e);
    }
}

/// The digits from `k` on write what remains of a number when the digits
/// before `k`, shifted to their places, are taken from it.
pub proof fn lemma_decimal_split(s: Seq<u8>, k: int)
    requires
        0 <= k <= s.len(),
    ensures
        decimal(s) == decimal(s.take(k)) * pow(10, (s.len() - k) as nat) + decimal(s.skip(k)),
    decreases s.len() - k,
{
    if k == s.len() {
        lemma_pow0(10);
        assert(s.take(k) =~= s);
        assert(s.skip(k) =~= Seq::<u8>::empty());
    } else {
        let front = s.drop_last();
        lemma_decimal_split(front, k);
        assert(front.take(k) =~= s.take(k));
        assert(s.skip(k).drop_last() =~= front.skip(k));
        let e = (front.len() - k) as nat;
        lemma_pow10_step(e);
        let a = decimal(s.take(k));
        let p = pow(10, e);
        let b = decimal(front.skip(k));
        let l = s.last() as int - 48;
        assert((a * p + b) * 10 + l == a * (10 * p) + (b * 10 + l)) by (nonlinear_arith);
    }
}

/// The row index that `token` writes in subscript digits: the digits that
/// its groups of three bytes stand for, read as one decimal number. It is
/// `None` where the number does not fit in 64 bits.
pub fn decode_index(token: &[u8]) -> (r: Option<u64>)
    ensures
        r == index_of(token@),
{
    let digits: Vec<u8> = recover_digits(token);
    let n: usize = digits.len();
    let mut acc: u128 = 0;
    let mut x: usize = 0;
    proof {
        lemma_pow_positive(10, n as nat);
        assert(digits@.take(0) =~= Seq::<u8>::empty());
        assert(decimal(digits@.take(0)) * pow(10, n as nat) == 0) by (nonlinear_arith)
            requires
                decimal(digits@.take(0)) == 0,
        ;
    }
    while x < n
        invariant
            x <= n,
            n == digits@.len(),
            all_digits(digits@),
            digits@ == glyph_digits(token@),
            acc == decimal(digits@.take(x as int)) * pow(10, (n - x) as nat),
            acc <= u64::MAX,
        decreases n - x,
    {
        let d: u8 = digits[x] - 48;
        let e: usize = n - x - 1;
        proof {
            assert(is_digit(digits@[x as int]));
            assert(digits@.take(x + 1).drop_last() =~= digits@.take(x as int));
            lemma_pow10_step(e as nat);
            lemma_pow10_bounds(e as nat);
            lemma_decimal_split(digits@, x + 1);
            lemma_decimal_grows(digits@.skip(x + 1), 0);
            assert(all_digits(digits@.skip(x + 1))) by {
                assert forall|i: int| 0 <= i < digits@.skip(x + 1).len() implies is_digit(
                    #[trigger] digits@.skip(x + 1)[i],
                ) by {
                    assert(is_digit(digits@[x + 1 + i]));
                }
            }
            let a = decimal(digits@.take(x as int));
            let p = pow(10, e as nat);
            assert((a * 10 + d) * p == a * (10 * p) + d * p) by (nonlinear_arith);
            assert(d > 0 ==> d * p >= p) by (nonlinear_arith)
                requires
                    p > 0,
            ;
            assert(decimal(digits@) >= (a * 10 + d) * p);
            assert(a >= 0) by {
                lemma_decimal_grows(digits@, x as int);
            }
            assert(a * (10 * p) >= 0) by (nonlinear_arith)
                requires
                    a >= 0,
                    p > 0,
            ;
            assert(e <= 19 ==> d * p <= 90_000_000_000_000_000_000) by (nonlinear_arith)
                requires
                    0 <= d <= 9,
                    0 < p,
                    e <= 19 ==> p <= 10_000_000_000_000_000_000,
            ;
        }
        if d != 0 {
            if e > 19 {
                return None;
            }
            let term: u128 = (d as u128) * (power_of_ten(e) as u128);
            acc = acc + term;
            if acc > 0xffff_ffff_ffff_ffff {
                return None;
            }
        } else {
            assert(d * pow(10, e as nat) == 0) by (nonlinear_arith)
                requires
                    d == 0,
            ;
        }
        x = x + 1;
    }
    proof {
        lemma_pow0(10);
        assert(digits@.take(n as int) =~= digits@);
    }
    Some(acc as u64)
}

} // verus!
