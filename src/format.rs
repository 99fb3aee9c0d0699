use vstd::prelude::*;
use crate::num::Num;
use crate::token::{pow10, is_digit, digit_of, lemma_pow10_mono};

verus! {

/// The character of a decimal digit.
pub open spec fn digit_char(d: int) -> char {
    ((48 + d) as u8) as char
}

/// The decimal numeral of `v`, without leading zeros.
pub open spec fn decimal(v: nat) -> Seq<char>
    decreases v,
{
    if v < 10 {
        seq![digit_char(v as int)]
    } else {
        decimal(v / 10).push(digit_char((v % 10) as int))
    }
}

/// The last `k` decimal digits of `f`, padded with leading zeros.
pub open spec fn padded_digits(f: nat, k: nat) -> Seq<char>
    decreases k,
{
    if k == 0 {
        seq![]
    } else {
        padded_digits(f / 10, (k - 1) as nat).push(digit_char((f % 10) as int))
    }
}

/// `s` without its trailing `'0'` characters.
pub open spec fn strip_zeros(s: Seq<char>) -> Seq<char>
    decreases s.len(),
{
    if s.len() > 0 && s.last() == '0' {
        strip_zeros(s.drop_last())
    } else {
        s
    }
}

pub open spec fn abs(n: int) -> int {
    if n < 0 {
        -n
    } else {
        n
    }
}

/// The magnitude of `q` times 10^10, rounded to the nearest integer, halves away from zero.
pub open spec fn scaled_magnitude(q: Num) -> int {
    (abs(q.num as int) * pow10(11) / (q.den as int) + 5) / 10
}

/// `q` written with at most ten decimals: the magnitude rounded to ten
/// decimals, trailing zeros and a bare point dropped, and a minus sign before
/// a negative value (one that rounds to zero is written `-0`).
pub open spec fn format_spec(q: Num) -> Seq<char> {
    let r = scaled_magnitude(q);
    let sign = if q.num < 0 { seq!['-'] } else { Seq::<char>::empty() };
    let whole = decimal((r / pow10(10)) as nat);
    let frac = (r % pow10(10)) as nat;
    if frac == 0 {
        sign + whole
    } else {
        sign + whole + seq!['.'] + strip_zeros(padded_digits(frac, 10))
    }
}

pub(crate) fn digit_to_char(d: u128) -> (c: char)
    requires
        d < 10,
    ensures
        c == digit_char(d as int),
        is_digit(c),
        digit_of(c) == d,
{
    (48u8 + d as u8) as char
}

fn push_decimal(out: &mut Vec<char>, v: u128)
    ensures
        final(out)@ == old(out)@ + decimal(v as nat),
    decreases v,
{
    if v >= 10 {
        push_decimal(out, v / 10);
    }
    out.push(digit_to_char(v % 10));
    proof {
        assert(final(out)@ =~= old(out)@ + decimal(v as nat));
    }
}

/// One step of long division: `10 * r == digit * d + rem`. Computed by adding
/// `r` ten times modulo `d`, so no intermediate exceeds `2 * d`.
fn next_digit(r: u128, d: u128) -> (res: (u128, u128))
    requires
        r < d,
        d <= i128::MAX,
    ensures
        10 * r == res.0 * d + res.1,
        res.1 < d,
        res.0 < 10,
{
    let mut acc: u128 = 0;
    let mut digit: u128 = 0;
    let mut j: u128 = 0;
    while j < 10
        invariant
            r < d,
            d <= i128::MAX,
            j <= 10,
            digit <= j,
            acc < d,
            digit * d + acc == j * r,
        decreases 10 - j,
    {
        if acc >= d - r {
            proof {
                assert((digit + 1) * d + (acc - (d - r)) == (j + 1) * r) by (nonlinear_arith)
                    requires digit * d + acc == j * r;
            }
            acc = acc - (d - r);
            digit = digit + 1;
        } else {
            proof {
                assert(digit * d + (acc + r) == (j + 1) * r) by (nonlinear_arith)
                    requires digit * d + acc == j * r;
            }
            acc = acc + r;
        }
        j = j + 1;
    }
    proof {
        assert(digit < 10) by (nonlinear_arith)
            requires digit * d + acc == 10 * r, r < d, acc >= 0, digit >= 0;
    }
    (digit, acc)
}

proof fn lemma_pow10_facts()
    ensures
        pow10(10) == 10000000000,
        pow10(11) == 100000000000,
{
    reveal_with_fuel(pow10, 12);
}

/// Writes `q` for display: the whole part, then up to ten decimals with the
/// trailing zeros removed. A whole number is written without a point.
pub fn format_number(q: Num) -> (r: Vec<char>)
    requires
        q.wf(),
    ensures
        r@ == format_spec(q),
{
    let ax: u128 = if q.num < 0 { (-q.num) as u128 } else { q.num as u128 };
    let d: u128 = q.den as u128;
    let mut whole: u128 = ax / d;
    let r0: u128 = ax % d;
    let mut rem: u128 = r0;
    let mut f: u128 = 0;
    let mut k: u128 = 0;
    while k < 10
        invariant
            d == q.den,
            d >= 1,
            d <= i128::MAX,
            rem < d,
            k <= 10,
            f < pow10(k as nat),
            f * d + rem == r0 * pow10(k as nat),
        decreases 10 - k,
    {
        let (digit, r2) = next_digit(rem, d);
        proof {
            lemma_pow10_facts();
            lemma_pow10_mono((k + 1) as nat, 10);
            assert(pow10((k + 1) as nat) == 10 * pow10(k as nat));
            assert((f * 10 + digit) * d + r2 == r0 * pow10((k + 1) as nat)) by (nonlinear_arith)
                requires
                    f * d + rem == r0 * pow10(k as nat),
                    10 * rem == digit * d + r2,
                    pow10((k + 1) as nat) == 10 * pow10(k as nat);
            assert(f * 10 + digit < pow10((k + 1) as nat)) by (nonlinear_arith)
                requires
                    f < pow10(k as nat),
                    digit < 10,
                    pow10((k + 1) as nat) == 10 * pow10(k as nat);
        }
        f = f * 10 + digit;
        rem = r2;
        k = k + 1;
    }
    let (last, r11) = next_digit(rem, d);
    proof {
        lemma_pow10_facts();
        let big = ax as int * 100000000000;
        vstd::arithmetic::div_mod::lemma_fundamental_div_mod(ax as int, d as int);
        assert(ax == d * whole + r0);
        assert(big == d * (whole * 100000000000 + f * 10 + last) + r11) by (nonlinear_arith)
            requires
                big == ax as int * 100000000000,
                ax == d * whole + r0,
                f * d + rem == r0 * 10000000000,
                10 * rem == last * d + r11;
        vstd::arithmetic::div_mod::lemma_fundamental_div_mod_converse(
            big, d as int, whole * 100000000000 + f * 10 + last, r11 as int);
        assert(scaled_magnitude(q) == whole * 10000000000 + f + if last >= 5 { 1int } else { 0int });
    }
    if last >= 5 {
        f = f + 1;
        if f == 10000000000 {
            f = 0;
            whole = whole + 1;
        }
    }
    proof {
        let sm = scaled_magnitude(q);
        vstd::arithmetic::div_mod::lemma_fundamental_div_mod_converse(
            sm, 10000000000, whole as int, f as int);
    }
    let mut out: Vec<char> = Vec::new();
    if q.num < 0 {
        out.push('-');
    }
    push_decimal(&mut out, whole);
    if f > 0 {
        out.push('.');
        let mut frac: Vec<char> = Vec::new();
        push_padded(&mut frac, f, 10);
        let ghost target = strip_zeros(frac@);
        while frac.len() > 0 && frac[frac.len() - 1] == '0'
            invariant
                strip_zeros(frac@) == target,
            decreases frac@.len(),
        {
            frac.pop();
        }
        out.append(&mut frac);
    }
    proof {
        assert(out@ =~= format_spec(q));
    }
    out
}

fn push_padded(out: &mut Vec<char>, f: u128, k: u32)
    ensures
        final(out)@ == old(out)@ + padded_digits(f as nat, k as nat),
    decreases k,
{
    if k > 0 {
        push_padded(out, f / 10, k - 1);
        out.push(digit_to_char(f % 10));
        proof {
            assert(final(out)@ =~= old(out)@ + padded_digits(f as nat, k as nat));
        }
    } else {
        proof {
            assert(final(out)@ =~= old(out)@ + padded_digits(f as nat, k as nat));
        }
    }
}

/// Relies on std's `FromIterator<char>` for `String`: the string holds the
/// given characters in order.
#[verifier::external_body]
pub(crate) fn string_from_chars(cs: &Vec<char>) -> (r: String)
    ensures
        r@ == cs@,
{
    cs.iter().collect()
}

/// Every character of `s` is a digit.
pub open spec fn all_digits(s: Seq<char>) -> bool {
    forall|i: int| 0 <= i < s.len() ==> is_digit(#[trigger] s[i])
}

pub(crate) proof fn lemma_decimal_digits(v: nat)
    ensures
        all_digits(decimal(v)),
        decimal(v).len() >= 1,
    decreases v,
{
    if v >= 10 {
        lemma_decimal_digits(v / 10);
    }
}

pub(crate) proof fn lemma_padded_digits(f: nat, k: nat)
    ensures
        all_digits(padded_digits(f, k)),
    decreases k,
{
    if k > 0 {
        lemma_padded_digits(f / 10, (k - 1) as nat);
    }
}

pub(crate) proof fn lemma_strip_prefix(s: Seq<char>)
    ensures
        strip_zeros(s).len() <= s.len(),
        forall|i: int| 0 <= i < strip_zeros(s).len() ==> strip_zeros(s)[i] == s[i],
    decreases s.len(),
{
    if s.len() > 0 && s.last() == '0' {
        let p = s.drop_last();
        lemma_strip_prefix(p);
        assert forall|i: int| 0 <= i < strip_zeros(s).len() implies strip_zeros(s)[i] == s[i] by {
            assert(p[i] == s[i]);
        }
    }
}

} // verus!
