use vstd::prelude::*;
use vstd::string::StrSliceExecFns;
use crate::error::CalcError;
use crate::num::{Num, Op};

verus! {

/// One lexical unit of an expression.
#[derive(Clone, Copy, Debug, PartialEq, Eq, Structural)]
pub enum Token {
    Number(Num),
    Operator(Op),
    LeftParen,
    RightParen,
}

pub open spec fn is_digit(c: char) -> bool {
    48 <= c as u32 <= 57
}

/// The value of a decimal digit character.
pub open spec fn digit_of(c: char) -> int {
    c as u32 - 48
}

/// A character that belongs to a numeral: a digit or the decimal point.
pub open spec fn is_numeral_char(c: char) -> bool {
    is_digit(c) || c == '.'
}

/// A character of the Unicode `White_Space` property.
pub open spec fn is_space(c: char) -> bool {
    let u = c as u32;
    (9 <= u <= 13) || u == 32 || u == 0x85 || u == 0xA0 || u == 0x1680 || (0x2000 <= u <= 0x200A)
        || u == 0x2028 || u == 0x2029 || u == 0x202F || u == 0x205F || u == 0x3000
}

fn space_char(c: char) -> (r: bool)
    ensures
        r == is_space(c),
{
    let u = c as u32;
    (9 <= u && u <= 13) || u == 32 || u == 0x85 || u == 0xA0 || u == 0x1680 || (0x2000 <= u && u
        <= 0x200A) || u == 0x2028 || u == 0x2029 || u == 0x202F || u == 0x205F || u == 0x3000
}

/// The operator that a character stands for, if any.
pub open spec fn op_of(c: char) -> Option<Op> {
    if c == '+' {
        Some(Op::Add)
    } else if c == '-' {
        Some(Op::Sub)
    } else if c == '*' {
        Some(Op::Mul)
    } else if c == '/' {
        Some(Op::Div)
    } else if c == '%' {
        Some(Op::Rem)
    } else {
        None
    }
}

/// The token of an operator or parenthesis character.
pub open spec fn symbol_token(c: char) -> Option<Token> {
    match op_of(c) {
        Some(op) => Some(Token::Operator(op)),
        None => if c == '(' {
            Some(Token::LeftParen)
        } else if c == ')' {
            Some(Token::RightParen)
        } else {
            None
        },
    }
}

pub open spec fn pow10(e: nat) -> int
    decreases e,
{
    if e == 0 {
        1
    } else {
        10 * pow10((e - 1) as nat)
    }
}

/// How many decimal points a numeral holds.
pub open spec fn point_count(s: Seq<char>) -> nat
    decreases s.len(),
{
    if s.len() == 0 {
        0
    } else {
        point_count(s.drop_last()) + if s.last() == '.' { 1nat } else { 0nat }
    }
}

/// How many digits a numeral holds.
pub open spec fn digit_count(s: Seq<char>) -> nat
    decreases s.len(),
{
    if s.len() == 0 {
        0
    } else {
        digit_count(s.drop_last()) + if is_digit(s.last()) { 1nat } else { 0nat }
    }
}

/// The digits of a numeral read as one integer, the point left out.
pub open spec fn digit_value(s: Seq<char>) -> int
    decreases s.len(),
{
    if s.len() == 0 {
        0
    } else if is_digit(s.last()) {
        10 * digit_value(s.drop_last()) + digit_of(s.last())
    } else {
        digit_value(s.drop_last())
    }
}

/// How many digits follow the decimal point.
pub open spec fn frac_len(s: Seq<char>) -> nat
    decreases s.len(),
{
    if s.len() == 0 || s.last() == '.' || point_count(s.drop_last()) == 0 {
        0
    } else {
        frac_len(s.drop_last()) + if is_digit(s.last()) { 1nat } else { 0nat }
    }
}

/// The exact value of a numeral: its digits over a power of ten. A numeral with
/// two points or no digit, or one whose parts do not fit, is `InvalidNumber`.
pub open spec fn numeral_spec(s: Seq<char>) -> Result<Num, CalcError> {
    if point_count(s) > 1 || digit_count(s) == 0 || digit_value(s) > i128::MAX
        || pow10(frac_len(s)) > i128::MAX {
        Err(CalcError::InvalidNumber)
    } else {
        Ok(Num { num: digit_value(s) as i128, den: pow10(frac_len(s)) as i128 })
    }
}

/// Appends the pending numeral, if any, to the tokens.
pub open spec fn flush_spec(toks: Seq<Token>, pend: Seq<char>) -> Result<Seq<Token>, CalcError> {
    if pend.len() == 0 {
        Ok(toks)
    } else {
        match numeral_spec(pend) {
            Ok(q) => Ok(toks.push(Token::Number(q))),
            Err(e) => Err(e),
        }
    }
}

/// Scans `s` from the left: the tokens emitted so far and the pending numeral.
/// Numeral characters accumulate, whitespace is skipped, an operator or a
/// parenthesis flushes the numeral and is emitted, anything else is refused.
pub open spec fn scan(s: Seq<char>) -> Result<(Seq<Token>, Seq<char>), CalcError>
    decreases s.len(),
{
    if s.len() == 0 {
        Ok((seq![], seq![]))
    } else {
        match scan(s.drop_last()) {
            Err(e) => Err(e),
            Ok((toks, pend)) => {
                let c = s.last();
                if is_numeral_char(c) {
                    Ok((toks, pend.push(c)))
                } else if is_space(c) {
                    Ok((toks, pend))
                } else {
                    match symbol_token(c) {
                        Some(t) => match flush_spec(toks, pend) {
                            Ok(ts) => Ok((ts.push(t), seq![])),
                            Err(e) => Err(e),
                        },
                        None => Err(CalcError::InvalidCharacter(c)),
                    }
                }
            },
        }
    }
}

/// The tokens of a whole text.
pub open spec fn tokenize_spec(s: Seq<char>) -> Result<Seq<Token>, CalcError> {
    match scan(s) {
        Ok((toks, pend)) => flush_spec(toks, pend),
        Err(e) => Err(e),
    }
}

pub(crate) proof fn lemma_pow10_mono(a: nat, b: nat)
    requires
        a <= b,
    ensures
        1 <= pow10(a) <= pow10(b),
    decreases b,
{
    if b > a {
        lemma_pow10_mono(a, (b - 1) as nat);
    } else {
        lemma_pow10_pos(a);
    }
}

pub(crate) proof fn lemma_pow10_pos(a: nat)
    ensures
        pow10(a) >= 1,
    decreases a,
{
    if a > 0 {
        lemma_pow10_pos((a - 1) as nat);
    }
}

/// Reading more characters never makes a numeral's parts smaller.
proof fn lemma_numeral_mono(s: Seq<char>, k: int)
    requires
        0 <= k <= s.len(),
    ensures
        0 <= digit_value(s.take(k)) <= digit_value(s),
        point_count(s.take(k)) <= point_count(s),
        point_count(s) <= 1 ==> frac_len(s.take(k)) <= frac_len(s),
    decreases s.len(),
{
    if k == s.len() {
        assert(s.take(k) =~= s);
        lemma_digit_value_nonneg(s);
    } else {
        let p = s.drop_last();
        assert(p.take(k) =~= s.take(k));
        lemma_numeral_mono(p, k);
        lemma_digit_value_nonneg(p);
        if s.last() == '.' && point_count(s) <= 1 {
            lemma_no_point_no_frac(p.take(k));
        }
    }
}

proof fn lemma_digit_value_nonneg(s: Seq<char>)
    ensures
        digit_value(s) >= 0,
    decreases s.len(),
{
    if s.len() > 0 {
        lemma_digit_value_nonneg(s.drop_last());
    }
}

proof fn lemma_no_point_no_frac(s: Seq<char>)
    requires
        point_count(s) == 0,
    ensures
        frac_len(s) == 0,
{
}

/// Reads a numeral made of digits and points.
fn parse_numeral(s: &Vec<char>) -> (r: Result<Num, CalcError>)
    requires
        forall|i: int| 0 <= i < s@.len() ==> is_numeral_char(#[trigger] s@[i]),
    ensures
        r == numeral_spec(s@),
        r matches Ok(q) ==> q.wf(),
{
    let mut n: i128 = 0;
    let mut d: i128 = 1;
    let mut points: usize = 0;
    let mut digits: usize = 0;
    let mut i: usize = 0;
    while i < s.len()
        invariant
            i <= s@.len(),
            forall|j: int| 0 <= j < s@.len() ==> is_numeral_char(#[trigger] s@[j]),
            n == digit_value(s@.take(i as int)),
            n >= 0,
            d == pow10(frac_len(s@.take(i as int))),
            d >= 1,
            points == point_count(s@.take(i as int)),
            points <= 1,
            digits == digit_count(s@.take(i as int)),
            digits <= i,
        decreases s@.len() - i,
    {
        let c = s[i];
        proof {
            assert(s@.take(i + 1).drop_last() =~= s@.take(i as int));
            assert(s@.take(i + 1).last() == c);
        }
        if c == '.' {
            if points == 1 {
                proof {
                    lemma_numeral_mono(s@, i + 1);
                }
                return Err(CalcError::InvalidNumber);
            }
            points = 1;
            proof {
                assert(frac_len(s@.take(i + 1)) == 0);
            }
            d = 1;
        } else {
            let v = (c as u32 - 48) as i128;
            if n > (i128::MAX - v) / 10 {
                proof {
                    lemma_numeral_mono(s@, i + 1);
                    assert(n * 10 + v > i128::MAX) by (nonlinear_arith)
                        requires n > (i128::MAX - v) / 10, 0 <= v <= 9;
                }
                return Err(CalcError::InvalidNumber);
            }
            proof {
                assert(n * 10 + v <= i128::MAX) by (nonlinear_arith)
                    requires n <= (i128::MAX - v) / 10, 0 <= v <= 9, n >= 0;
            }
            n = n * 10 + v;
            if points == 1 {
                if d > i128::MAX / 10 {
                    proof {
                        lemma_numeral_mono(s@, i + 1);
                        if point_count(s@) <= 1 {
                            lemma_pow10_mono(frac_len(s@.take(i + 1)), frac_len(s@));
                        }
                    }
                    return Err(CalcError::InvalidNumber);
                }
                proof {
                    assert(d * 10 <= i128::MAX) by (nonlinear_arith)
                        requires d <= i128::MAX / 10;
                }
                d = d * 10;
            }
            digits = digits + 1;
        }
        i = i + 1;
    }
    proof {
        assert(s@.take(i as int) =~= s@);
        lemma_pow10_pos(frac_len(s@));
        lemma_digit_value_nonneg(s@);
    }
    if digits == 0 {
        return Err(CalcError::InvalidNumber);
    }
    Ok(Num { num: n, den: d })
}

/// Once scanning fails on a prefix, it fails the same way on the whole text.
proof fn lemma_scan_err_persists(s: Seq<char>, k: int, e: CalcError)
    requires
        0 <= k <= s.len(),
        scan(s.take(k)) == Err::<(Seq<Token>, Seq<char>), CalcError>(e),
    ensures
        scan(s) == Err::<(Seq<Token>, Seq<char>), CalcError>(e),
    decreases s.len(),
{
    if k == s.len() {
        assert(s.take(k) =~= s);
    } else {
        let p = s.drop_last();
        assert(p.take(k) =~= s.take(k));
        lemma_scan_err_persists(p, k, e);
    }
}

/// The operator that `c` stands for, if any.
pub fn op_char(c: char) -> (r: Option<Op>)
    ensures
        r == op_of(c),
{
    if c == '+' {
        Some(Op::Add)
    } else if c == '-' {
        Some(Op::Sub)
    } else if c == '*' {
        Some(Op::Mul)
    } else if c == '/' {
        Some(Op::Div)
    } else if c == '%' {
        Some(Op::Rem)
    } else {
        None
    }
}

fn symbol(c: char) -> (r: Option<Token>)
    ensures
        r == symbol_token(c),
{
    match op_char(c) {
        Some(op) => Some(Token::Operator(op)),
        None => if c == '(' {
            Some(Token::LeftParen)
        } else if c == ')' {
            Some(Token::RightParen)
        } else {
            None
        },
    }
}

fn flush_numeral(tokens: &mut Vec<Token>, pend: &mut Vec<char>) -> (r: Result<(), CalcError>)
    requires
        forall|i: int| 0 <= i < old(pend)@.len() ==> is_numeral_char(#[trigger] old(pend)@[i]),
    ensures
        final(pend)@ == Seq::<char>::empty(),
        match flush_spec(old(tokens)@, old(pend)@) {
            Ok(ts) => r is Ok && final(tokens)@ == ts,
            Err(e) => r == Err::<(), CalcError>(e),
        },
{
    if pend.len() > 0 {
        match parse_numeral(pend) {
            Ok(q) => tokens.push(Token::Number(q)),
            Err(e) => {
                pend.clear();
                return Err(e);
            },
        }
    }
    pend.clear();
    Ok(())
}

/// The characters of a string, in order.
pub fn chars_of(text: &str) -> (r: Vec<char>)
    ensures
        r@ == text@,
{
    let len = text.unicode_len();
    let mut out: Vec<char> = Vec::new();
    let mut i: usize = 0;
    while i < len
        invariant
            len == text@.len(),
            i <= len,
            out@ == text@.take(i as int),
        decreases len - i,
    {
        out.push(text.get_char(i));
        proof {
            assert(out@ =~= text@.take(i + 1));
        }
        i = i + 1;
    }
    proof {
        assert(text@.take(len as int) =~= text@);
    }
    out
}

/// Splits a text into tokens, left to right: each maximal run of digits and
/// points becomes one number, each operator or parenthesis one token, and
/// whitespace is skipped. An empty text gives no tokens.
pub fn tokenize(text: &str) -> (r: Result<Vec<Token>, CalcError>)
    ensures
        match r {
            Ok(v) => tokenize_spec(text@) == Ok::<Seq<Token>, CalcError>(v@),
            Err(e) => tokenize_spec(text@) == Err::<Seq<Token>, CalcError>(e),
        },
{
    let chars = chars_of(text);
    tokenize_chars(&chars)
}

/// [`tokenize`] on a text held as characters.
pub fn tokenize_chars(text: &Vec<char>) -> (r: Result<Vec<Token>, CalcError>)
    ensures
        match r {
            Ok(v) => tokenize_spec(text@) == Ok::<Seq<Token>, CalcError>(v@),
            Err(e) => tokenize_spec(text@) == Err::<Seq<Token>, CalcError>(e),
        },
{
    let len = text.len();
    let mut tokens: Vec<Token> = Vec::new();
    let mut pend: Vec<char> = Vec::new();
    let mut i: usize = 0;
    proof {
        assert(text@.take(0) =~= Seq::<char>::empty());
        assert(tokens@ =~= Seq::<Token>::empty());
        assert(pend@ =~= Seq::<char>::empty());
    }
    while i < len
        invariant
            len == text@.len(),
            i <= len,
            scan(text@.take(i as int)) == Ok::<(Seq<Token>, Seq<char>), CalcError>((tokens@, pend@)),
            forall|j: int| 0 <= j < pend@.len() ==> is_numeral_char(#[trigger] pend@[j]),
        decreases len - i,
    {
        let c = text[i];
        proof {
            assert(text@.take(i + 1).drop_last() =~= text@.take(i as int));
            assert(text@.take(i + 1).last() == c);
        }
        let code = c as u32;
        if (48 <= code && code <= 57) || c == '.' {
            pend.push(c);
        } else if space_char(c) {
        } else {
            match symbol(c) {
                Some(t) => {
                    match flush_numeral(&mut tokens, &mut pend) {
                        Ok(()) => {},
                        Err(e) => {
                            proof {
                                lemma_scan_err_persists(text@, i + 1, e);
                            }
                            return Err(e);
                        },
                    }
                    tokens.push(t);
                },
                None => {
                    proof {
                        lemma_scan_err_persists(text@, i + 1, CalcError::InvalidCharacter(c));
                    }
                    return Err(CalcError::InvalidCharacter(c));
                },
            }
        }
        i = i + 1;
    }
    proof {
        assert(text@.take(len as int) =~= text@);
    }
    match flush_numeral(&mut tokens, &mut pend) {
        Ok(()) => Ok(tokens),
        Err(e) => Err(e),
    }
}

} // verus!
