use vstd::prelude::*;
use crate::error::CalcError;
use crate::num::{Num, Op};
use crate::token::{is_digit, digit_of, op_of, op_char, tokenize_spec, tokenize_chars, chars_of};
use crate::eval::{evaluate_spec, evaluate};
use crate::format::{
    format_spec, format_number, digit_char, decimal, padded_digits, strip_zeros, all_digits,
    scaled_magnitude, string_from_chars, digit_to_char, lemma_decimal_digits, lemma_padded_digits,
    lemma_strip_prefix,
};
use crate::token::pow10;

verus! {

/// A key of the calculator's keypad.
#[derive(Clone, Copy, Debug, PartialEq, Eq, Structural)]
pub enum Key {
    /// A decimal digit; a value above 9 is no key and does nothing.
    Digit(u8),
    Point,
    Operator(Op),
    Equals,
    Clear,
    ClearEntry,
    Delete,
}

/// The key that a keypad label names: `"0"`..`"9"`, `"."`, `"+ - * / %"`,
/// `"="`, `"C"`, `"CE"`, `"DEL"`.
pub open spec fn key_of_label(s: Seq<char>) -> Option<Key> {
    if s.len() == 1 {
        let c = s[0];
        if is_digit(c) {
            Some(Key::Digit(digit_of(c) as u8))
        } else if c == '.' {
            Some(Key::Point)
        } else if c == '=' {
            Some(Key::Equals)
        } else if c == 'C' {
            Some(Key::Clear)
        } else {
            match op_of(c) {
                Some(op) => Some(Key::Operator(op)),
                None => None,
            }
        }
    } else if s == seq!['C', 'E'] {
        Some(Key::ClearEntry)
    } else if s == seq!['D', 'E', 'L'] {
        Some(Key::Delete)
    } else {
        None
    }
}

impl Key {
    /// Reads a keypad label; any other text is no key.
    pub fn from_label(label: &str) -> (r: Option<Key>)
        ensures
            r == key_of_label(label@),
    {
        let cs = chars_of(label);
        if cs.len() == 1 {
            let c = cs[0];
            let code = c as u32;
            if 48 <= code && code <= 57 {
                Some(Key::Digit((code - 48) as u8))
            } else if c == '.' {
                Some(Key::Point)
            } else if c == '=' {
                Some(Key::Equals)
            } else if c == 'C' {
                Some(Key::Clear)
            } else {
                match op_char(c) {
                    Some(op) => Some(Key::Operator(op)),
                    None => None,
                }
            }
        } else if cs.len() == 2 && cs[0] == 'C' && cs[1] == 'E' {
            proof {
                assert(cs@ =~= seq!['C', 'E']);
            }
            Some(Key::ClearEntry)
        } else if cs.len() == 3 && cs[0] == 'D' && cs[1] == 'E' && cs[2] == 'L' {
            proof {
                assert(cs@ =~= seq!['D', 'E', 'L']);
                assert(cs@ != seq!['C', 'E']) by {
                    assert(seq!['C', 'E'].len() == 2);
                }
            }
            Some(Key::Delete)
        } else {
            proof {
                if cs@ == seq!['C', 'E'] {
                    assert(cs@[0] == 'C' && cs@[1] == 'E');
                }
                if cs@ == seq!['D', 'E', 'L'] {
                    assert(cs@[0] == 'D' && cs@[1] == 'E' && cs@[2] == 'L');
                }
            }
            None
        }
    }
}

/// The character of an operator.
pub open spec fn op_symbol(op: Op) -> char {
    match op {
        Op::Add => '+',
        Op::Sub => '-',
        Op::Mul => '*',
        Op::Div => '/',
        Op::Rem => '%',
    }
}

fn op_to_char(op: Op) -> (c: char)
    ensures
        c == op_symbol(op),
        op_of(c) == Some(op),
{
    match op {
        Op::Add => '+',
        Op::Sub => '-',
        Op::Mul => '*',
        Op::Div => '/',
        Op::Rem => '%',
    }
}

pub open spec fn is_op_char(c: char) -> bool {
    op_of(c) is Some
}

/// The text ends with an operator character.
pub open spec fn ends_with_op(s: Seq<char>) -> bool {
    s.len() > 0 && is_op_char(s.last())
}

/// The numeral at the end of `s`, the part after its last operator, holds no point.
pub open spec fn numeral_open(s: Seq<char>) -> bool
    decreases s.len(),
{
    if s.len() == 0 {
        true
    } else if s.last() == '.' {
        false
    } else if is_op_char(s.last()) {
        true
    } else {
        numeral_open(s.drop_last())
    }
}

/// No numeral of `s` holds two points: each point opens a numeral that had none.
pub open spec fn points_ok(s: Seq<char>) -> bool
    decreases s.len(),
{
    s.len() == 0 || (points_ok(s.drop_last()) && (s.last() != '.' || numeral_open(s.drop_last())))
}

/// No two operator characters stand side by side in `s`.
pub open spec fn ops_ok(s: Seq<char>) -> bool
    decreases s.len(),
{
    s.len() == 0 || (ops_ok(s.drop_last()) && !(is_op_char(s.last()) && ends_with_op(s.drop_last())))
}

/// What an expression buffer holds: its text, the result cached by the last
/// successful `=`, and whether that `=` was the last key.
pub struct CalcModel {
    pub text: Seq<char>,
    pub result: Option<Num>,
    pub just_evaluated: bool,
}

impl CalcModel {
    pub open spec fn wf(self) -> bool {
        &&& points_ok(self.text)
        &&& ops_ok(self.text)
        &&& (self.result matches Some(v) ==> v.wf() && (self.text == format_spec(v) || self.text.len() == 0))
    }
}

/// The buffer after a key other than `=`. Each of them but `CE` drops the
/// cached result. A digit starts a new text right after `=`, else it is appended. A point
/// starts `0.` after `=` or on an empty text, is appended when the last
/// numeral has none, and is ignored otherwise. An operator is appended to a
/// text that is not empty and does not end with one. `C` empties the text and
/// forgets the result, `CE` empties the text only, `DEL` removes its last
/// character.
pub open spec fn edit_spec(m: CalcModel, key: Key) -> CalcModel {
    let s = m.text;
    match key {
        Key::Digit(d) => if d > 9 {
            m
        } else {
            CalcModel {
                text: if m.just_evaluated {
                    seq![digit_char(d as int)]
                } else {
                    s.push(digit_char(d as int))
                },
                result: None,
                just_evaluated: false,
            }
        },
        Key::Point => CalcModel {
            text: if m.just_evaluated || s.len() == 0 {
                seq!['0', '.']
            } else if numeral_open(s) {
                s.push('.')
            } else {
                s
            },
            result: None,
            just_evaluated: false,
        },
        Key::Operator(op) => CalcModel {
            text: if s.len() > 0 && !ends_with_op(s) {
                s.push(op_symbol(op))
            } else {
                s
            },
            result: None,
            just_evaluated: false,
        },
        Key::Clear => CalcModel { text: seq![], result: None, just_evaluated: false },
        Key::ClearEntry => CalcModel { text: seq![], result: m.result, just_evaluated: m.just_evaluated },
        Key::Delete => CalcModel {
            text: if s.len() > 0 {
                s.drop_last()
            } else {
                s
            },
            result: None,
            just_evaluated: false,
        },
        Key::Equals => m,
    }
}

/// The value of an expression text.
pub open spec fn commit_spec(s: Seq<char>) -> Result<Num, CalcError> {
    match tokenize_spec(s) {
        Ok(ts) => evaluate_spec(ts),
        Err(e) => Err(e),
    }
}

/// The buffer after `=`: an empty text is left alone; a text that evaluates is
/// replaced by its formatted value, which is cached; on an error the text is
/// unchanged, no result stays cached, and the error is returned.
pub open spec fn equals_spec(m: CalcModel) -> (CalcModel, Result<(), CalcError>) {
    if m.text.len() == 0 {
        (m, Ok(()))
    } else {
        match commit_spec(m.text) {
            Ok(v) => (CalcModel { text: format_spec(v), result: Some(v), just_evaluated: true }, Ok(())),
            Err(e) => (CalcModel { text: m.text, result: None, just_evaluated: m.just_evaluated }, Err(e)),
        }
    }
}

/// What a display shows of a buffer: `0` for an empty text, else the cached
/// result if any, else the text.
pub open spec fn display_spec(m: CalcModel) -> Seq<char> {
    if m.text.len() == 0 {
        seq!['0']
    } else {
        match m.result {
            Some(v) => format_spec(v),
            None => m.text,
        }
    }
}

/// The expression buffer that keypad input edits.
#[derive(Debug)]
pub struct Calculator {
    expression: Vec<char>,
    result: Option<Num>,
    just_evaluated: bool,
}

impl View for Calculator {
    type V = CalcModel;

    closed spec fn view(&self) -> CalcModel {
        CalcModel { text: self.expression@, result: self.result, just_evaluated: self.just_evaluated }
    }
}

impl Default for Calculator {
    fn default() -> (r: Calculator)
        ensures
            r@ == (CalcModel { text: seq![], result: None, just_evaluated: false }),
    {
        Calculator::new()
    }
}

/// Appending digits changes neither well-formedness nor whether the last
/// numeral is open.
proof fn lemma_append_digits(s: Seq<char>, t: Seq<char>)
    requires
        all_digits(t),
    ensures
        points_ok(s + t) == points_ok(s),
        ops_ok(s + t) == ops_ok(s),
        numeral_open(s + t) == numeral_open(s),
    decreases t.len(),
{
    if t.len() == 0 {
        assert(s + t =~= s);
    } else {
        let u = t.drop_last();
        assert((s + t).drop_last() =~= s + u);
        assert((s + t).last() == t.last());
        assert(is_digit(t[t.len() - 1]));
        lemma_append_digits(s, u);
    }
}

proof fn lemma_empty_ok()
    ensures
        points_ok(Seq::<char>::empty()),
        ops_ok(Seq::<char>::empty()),
        numeral_open(Seq::<char>::empty()),
{
}

/// A digit is neither a point nor an operator.
proof fn lemma_digit_plain(c: char)
    requires
        is_digit(c),
    ensures
        c != '.',
        !is_op_char(c),
{
}

proof fn lemma_push_one(s: Seq<char>, c: char)
    ensures
        s.push(c).drop_last() == s,
        s.push(c).last() == c,
{
    assert(s.push(c).drop_last() =~= s);
}

/// The formatted text of a number is a well-formed buffer text.
proof fn lemma_format_ok(v: Num)
    ensures
        points_ok(format_spec(v)),
        ops_ok(format_spec(v)),
{
    let r = scaled_magnitude(v);
    let sign = if v.num < 0 { seq!['-'] } else { Seq::<char>::empty() };
    let whole = decimal((r / pow10(10)) as nat);
    let frac = (r % pow10(10)) as nat;
    lemma_empty_ok();
    lemma_push_one(Seq::<char>::empty(), '-');
    assert(seq!['-'] =~= Seq::<char>::empty().push('-'));
    lemma_decimal_digits((r / pow10(10)) as nat);
    lemma_append_digits(sign, whole);
    let w = sign + whole;
    if frac != 0 {
        let x = w.push('.');
        lemma_push_one(w, '.');
        let st = strip_zeros(padded_digits(frac, 10));
        lemma_padded_digits(frac, 10);
        lemma_strip_prefix(padded_digits(frac, 10));
        assert forall|i: int| 0 <= i < st.len() implies is_digit(#[trigger] st[i]) by {
            assert(st[i] == padded_digits(frac, 10)[i]);
        }
        lemma_append_digits(x, st);
        assert(sign + whole + seq!['.'] + st =~= x + st);
    }
}

impl Calculator {
    /// An empty buffer.
    pub fn new() -> (r: Calculator)
        ensures
            r@ == (CalcModel { text: seq![], result: None, just_evaluated: false }),
            r@.wf(),
    {
        Calculator { expression: Vec::new(), result: None, just_evaluated: false }
    }

    /// `C`: empties the text and forgets the cached result.
    pub fn clear(&mut self)
        requires
            old(self)@.wf(),
        ensures
            final(self)@ == edit_spec(old(self)@, Key::Clear),
            final(self)@.wf(),
    {
        self.expression.clear();
        self.result = None;
        self.just_evaluated = false;
        proof {
            assert(self.expression@ =~= seq![]);
        }
    }

    /// `CE`: empties the text.
    pub fn clear_entry(&mut self)
        requires
            old(self)@.wf(),
        ensures
            final(self)@ == edit_spec(old(self)@, Key::ClearEntry),
            final(self)@.wf(),
    {
        self.expression.clear();
        proof {
            assert(self.expression@ =~= seq![]);
        }
    }

    /// `DEL`: removes the last character of the text, if any.
    pub fn delete_last(&mut self)
        requires
            old(self)@.wf(),
        ensures
            final(self)@ == edit_spec(old(self)@, Key::Delete),
            final(self)@.wf(),
    {
        self.expression.pop();
        self.result = None;
        self.just_evaluated = false;
    }

    /// Whether the text ends with an operator character.
    pub fn ends_with_operator(&self) -> (r: bool)
        ensures
            r == ends_with_op(self@.text),
    {
        let n = self.expression.len();
        if n == 0 {
            false
        } else {
            op_char(self.expression[n - 1]).is_some()
        }
    }

    /// Whether a point may be appended: the text is not empty and the numeral
    /// after its last operator has none.
    pub fn can_add_decimal(&self) -> (r: bool)
        ensures
            r == (self@.text.len() > 0 && numeral_open(self@.text)),
    {
        if self.expression.len() == 0 {
            return false;
        }
        let s = &self.expression;
        let mut i: usize = s.len();
        proof {
            assert(s@.take(i as int) =~= s@);
        }
        while i > 0
            invariant
                s@ == self@.text,
                i <= s@.len(),
                numeral_open(s@.take(i as int)) == numeral_open(s@),
            decreases i,
        {
            i = i - 1;
            let c = s[i];
            proof {
                assert(s@.take(i + 1).drop_last() =~= s@.take(i as int));
                assert(s@.take(i + 1).last() == c);
            }
            if c == '.' {
                proof {
                    assert(!numeral_open(s@.take(i + 1)));
                }
                return false;
            }
            if op_char(c).is_some() {
                proof {
                    assert(numeral_open(s@.take(i + 1)));
                }
                return true;
            }
        }
        true
    }

    /// `=`: evaluates the text. On success the text becomes the formatted
    /// value, which is also cached; on an error the text is kept and the
    /// cached result dropped.
    pub fn calculate(&mut self) -> (r: Result<(), CalcError>)
        requires
            old(self)@.wf(),
        ensures
            (final(self)@, r) == equals_spec(old(self)@),
            final(self)@.wf(),
    {
        if self.expression.len() == 0 {
            return Ok(());
        }
        match tokenize_chars(&self.expression) {
            Ok(tokens) => match evaluate(tokens) {
                Ok(v) => {
                    self.expression = format_number(v);
                    self.result = Some(v);
                    self.just_evaluated = true;
                    proof {
                        lemma_format_ok(v);
                    }
                    Ok(())
                },
                Err(e) => {
                    self.result = None;
                    Err(e)
                },
            },
            Err(e) => {
                self.result = None;
                Err(e)
            },
        }
    }

    /// Applies one key to the buffer.
    pub fn add_input(&mut self, key: Key) -> (r: Result<(), CalcError>)
        requires
            old(self)@.wf(),
        ensures
            final(self)@.wf(),
            key is Equals ==> (final(self)@, r) == equals_spec(old(self)@),
            !(key is Equals) ==> final(self)@ == edit_spec(old(self)@, key) && r is Ok,
    {
        let ghost s = self.expression@;
        match key {
            Key::Digit(d) => {
                if d > 9 {
                    return Ok(());
                }
                let c = digit_to_char(d as u128);
                proof {
                    lemma_digit_plain(c);
                    lemma_empty_ok();
                }
                if self.just_evaluated {
                    self.expression = vec![c];
                    proof {
                        lemma_push_one(Seq::<char>::empty(), c);
                        assert(self.expression@ =~= Seq::<char>::empty().push(c));
                    }
                } else {
                    self.expression.push(c);
                    proof {
                        lemma_push_one(s, c);
                    }
                }
                self.result = None;
                self.just_evaluated = false;
                Ok(())
            },
            Key::Point => {
                if self.just_evaluated || self.expression.len() == 0 {
                    self.expression = vec!['0', '.'];
                    proof {
                        lemma_empty_ok();
                        lemma_digit_plain('0');
                        let z = Seq::<char>::empty().push('0');
                        lemma_push_one(Seq::<char>::empty(), '0');
                        assert(points_ok(z) && ops_ok(z) && numeral_open(z));
                        lemma_push_one(z, '.');
                        assert(self.expression@ =~= z.push('.'));
                    }
                } else if self.can_add_decimal() {
                    self.expression.push('.');
                    proof {
                        lemma_push_one(s, '.');
                    }
                }
                self.result = None;
                self.just_evaluated = false;
                Ok(())
            },
            Key::Operator(op) => {
                if self.expression.len() > 0 && !self.ends_with_operator() {
                    let c = op_to_char(op);
                    self.expression.push(c);
                    proof {
                        lemma_push_one(s, c);
                    }
                }
                self.result = None;
                self.just_evaluated = false;
                Ok(())
            },
            Key::Equals => self.calculate(),
            Key::Clear => {
                self.clear();
                Ok(())
            },
            Key::ClearEntry => {
                self.clear_entry();
                Ok(())
            },
            Key::Delete => {
                self.delete_last();
                Ok(())
            },
        }
    }

    /// The expression text.
    pub fn get_expression(&self) -> (r: String)
        ensures
            r@ == self@.text,
    {
        string_from_chars(&self.expression)
    }

    /// The expression text, as characters.
    pub fn expression_chars(&self) -> (r: Vec<char>)
        ensures
            r@ == self@.text,
    {
        self.expression.clone()
    }

    /// The value cached by the last successful `=`, until the next key.
    pub fn get_result(&self) -> (r: Option<Num>)
        ensures
            r == self@.result,
    {
        self.result
    }

    /// What a display shows of the buffer.
    pub fn display(&self) -> (r: Vec<char>)
        requires
            self@.wf(),
        ensures
            r@ == display_spec(self@),
    {
        if self.expression.len() == 0 {
            let z = vec!['0'];
            proof {
                assert(z@ =~= seq!['0']);
            }
            z
        } else {
            match self.result {
                Some(v) => format_number(v),
                None => self.expression.clone(),
            }
        }
    }
}

/// Every key other than `=` keeps a buffer well formed.
pub proof fn edit_keeps_wf(m: CalcModel, key: Key)
    requires
        m.wf(),
    ensures
        edit_spec(m, key).wf(),
{
    let s = m.text;
    lemma_empty_ok();
    match key {
        Key::Digit(d) => {
            if d <= 9 {
                let c = digit_char(d as int);
                assert(is_digit(c));
                lemma_digit_plain(c);
                lemma_push_one(s, c);
                lemma_push_one(Seq::<char>::empty(), c);
                assert(seq![c] =~= Seq::<char>::empty().push(c));
            }
        },
        Key::Point => {
            let z = Seq::<char>::empty().push('0');
            lemma_digit_plain('0');
            lemma_push_one(Seq::<char>::empty(), '0');
            assert(points_ok(z) && ops_ok(z) && numeral_open(z));
            lemma_push_one(z, '.');
            assert(seq!['0', '.'] =~= z.push('.'));
            lemma_push_one(s, '.');
        },
        Key::Operator(op) => {
            lemma_push_one(s, op_symbol(op));
            assert(is_op_char(op_symbol(op)));
        },
        _ => {},
    }
}

/// The buffer after a sequence of keys other than `=`.
pub open spec fn after_keys(m: CalcModel, keys: Seq<Key>) -> CalcModel
    decreases keys.len(),
{
    if keys.len() == 0 {
        m
    } else {
        edit_spec(after_keys(m, keys.drop_last()), keys.last())
    }
}

/// Whatever digits and points are typed into a well-formed buffer, no numeral
/// of its text ends up with two points.
pub proof fn digits_and_points_keep_one_point(m: CalcModel, keys: Seq<Key>)
    requires
        m.wf(),
        forall|i: int| 0 <= i < keys.len() ==> (#[trigger] keys[i] is Digit || keys[i] is Point),
    ensures
        points_ok(after_keys(m, keys).text),
        after_keys(m, keys).wf(),
    decreases keys.len(),
{
    if keys.len() > 0 {
        let p = keys.drop_last();
        assert forall|i: int| 0 <= i < p.len() implies (#[trigger] p[i] is Digit || p[i] is Point) by {
            assert(p[i] == keys[i]);
        }
        digits_and_points_keep_one_point(m, p);
        edit_keeps_wf(after_keys(m, p), keys.last());
    }
}

} // verus!
