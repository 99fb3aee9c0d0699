use vstd::prelude::*;
use crate::error::CalcError;
use crate::num::Num;
use crate::token::{
    Token, tokenize_spec, scan, numeral_spec, digit_value, digit_count, point_count,
    frac_len, is_digit, digit_of, pow10,
};
use crate::format::{format_spec, decimal, digit_char, scaled_magnitude, abs, lemma_decimal_digits, all_digits};
use crate::calculator::{CalcModel, Key, edit_spec, display_spec};

verus! {

/// The buffer after `k` presses of `DEL`.
pub open spec fn after_deletes(m: CalcModel, k: nat) -> CalcModel
    decreases k,
{
    if k == 0 {
        m
    } else {
        after_deletes(edit_spec(m, Key::Delete), (k - 1) as nat)
    }
}

/// Pressing `DEL` once per character empties any buffer, and the display then
/// reads `0`.
pub proof fn delete_drains(m: CalcModel)
    ensures
        after_deletes(m, m.text.len()).text.len() == 0,
        m.text.len() > 0 ==> display_spec(after_deletes(m, m.text.len())) == seq!['0'],
    decreases m.text.len(),
{
    if m.text.len() > 0 {
        let m1 = edit_spec(m, Key::Delete);
        delete_drains(m1);
        lemma_deletes_keep_no_result(m1, m1.text.len());
    }
}

proof fn lemma_deletes_keep_no_result(m: CalcModel, k: nat)
    requires
        m.result is None,
    ensures
        after_deletes(m, k).result is None,
    decreases k,
{
    if k > 0 {
        lemma_deletes_keep_no_result(edit_spec(m, Key::Delete), (k - 1) as nat);
    }
}

proof fn lemma_decimal_reads_back(v: nat)
    ensures
        digit_value(decimal(v)) == v,
        point_count(decimal(v)) == 0,
        digit_count(decimal(v)) >= 1,
        frac_len(decimal(v)) == 0,
    decreases v,
{
    let s = decimal(v);
    let d = (v % 10) as int;
    let c = digit_char(d);
    assert(digit_of(c) == d && is_digit(c));
    if v >= 10 {
        lemma_decimal_reads_back(v / 10);
        assert(s.drop_last() =~= decimal(v / 10));
        assert(s.last() == c);
    } else {
        let e = Seq::<char>::empty();
        assert(s.drop_last() =~= e);
        assert(s.last() == c);
        assert(digit_value(e) == 0 && point_count(e) == 0 && digit_count(e) == 0);
    }
}

/// A text of digits alone scans to no token and one pending numeral.
proof fn lemma_scan_digits(s: Seq<char>)
    requires
        all_digits(s),
    ensures
        scan(s) == Ok::<(Seq<Token>, Seq<char>), CalcError>((seq![], s)),
    decreases s.len(),
{
    if s.len() > 0 {
        let p = s.drop_last();
        assert(is_digit(s[s.len() - 1]));
        lemma_scan_digits(p);
        assert(p.push(s.last()) =~= s);
    } else {
        assert(s =~= seq![]);
    }
}

/// Formatting a whole, non-negative value and tokenizing the text gives back
/// one number token of the same value.
pub proof fn format_round_trip(v: Num)
    requires
        v.wf(),
        v.num >= 0,
        v.num % v.den == 0,
    ensures
        tokenize_spec(format_spec(v)) == Ok::<Seq<Token>, CalcError>(
            seq![Token::Number(Num { num: (v.num / v.den) as i128, den: 1 })],
        ),
        (v.num / v.den) * v.den == v.num,
{
    let n = v.num as int;
    let d = v.den as int;
    let k = n / d;
    vstd::arithmetic::div_mod::lemma_fundamental_div_mod(n, d);
    assert(n == d * k);
    assert(pow10(10) == 10000000000 && pow10(11) == 100000000000) by {
        reveal_with_fuel(pow10, 12);
    }
    assert(abs(n) == n);
    assert(n * 100000000000 == d * (k * 100000000000)) by (nonlinear_arith)
        requires n == d * k;
    vstd::arithmetic::div_mod::lemma_div_multiples_vanish(k * 100000000000, d);
    assert(n * 100000000000 / d == k * 100000000000);
    assert(scaled_magnitude(v) == k * 10000000000);
    vstd::arithmetic::div_mod::lemma_div_multiples_vanish(k, 10000000000);
    vstd::arithmetic::div_mod::lemma_mod_multiples_basic(k, 10000000000);
    assert(k >= 0 && k <= n) by (nonlinear_arith)
        requires n == d * k, d >= 1, n >= 0;
    let s = decimal(k as nat);
    assert(format_spec(v) =~= s);
    lemma_decimal_digits(k as nat);
    lemma_decimal_reads_back(k as nat);
    lemma_scan_digits(s);
    assert(numeral_spec(s) == Ok::<Num, CalcError>(Num { num: k as i128, den: 1 }));
    assert(k * d == n) by (nonlinear_arith)
        requires n == d * k;
}

} // verus!
