use vstd::prelude::*;
use crate::error::CalcError;

verus! {

/// The magnitude bound of each component of a [`Num`]: `i128::MIN` is left out,
/// so that every value can be negated.
pub open spec fn fits(v: int) -> bool {
    -(i128::MAX as int) <= v <= i128::MAX as int
}

/// Remainder of a division truncated toward zero: the sign follows `x`.
pub open spec fn trunc_rem(x: int, y: int) -> int
    recommends
        y != 0,
{
    let ay = if y < 0 { -y } else { y };
    if x >= 0 {
        x % ay
    } else {
        -((-x) % ay)
    }
}

/// The four-function operators of an expression.
#[derive(Clone, Copy, Debug, PartialEq, Eq, Structural)]
pub enum Op {
    Add,
    Sub,
    Mul,
    Div,
    Rem,
}

/// An exact rational number `num / den`. Results of arithmetic are kept in
/// lowest terms; a numeral keeps the power of ten it was written with.
#[derive(Clone, Copy, Debug, PartialEq, Eq, Structural)]
pub struct Num {
    pub num: i128,
    pub den: i128,
}

/// `a * b`, when it fits.
pub open spec fn mul_fit(a: int, b: int) -> Option<int> {
    if fits(a * b) {
        Some(a * b)
    } else {
        None
    }
}

fn checked_mul(a: i128, b: i128) -> (r: Option<i128>)
    ensures
        r matches Some(v) ==> mul_fit(a as int, b as int) == Some(v as int),
        r is None ==> mul_fit(a as int, b as int) is None,
{
    match a.checked_mul(b) {
        Some(v) => {
            if v == i128::MIN {
                None
            } else {
                Some(v)
            }
        },
        None => None,
    }
}

/// Greatest common divisor, by Euclid's algorithm.
pub open spec fn gcd(a: nat, b: nat) -> nat
    decreases b,
{
    if b == 0 {
        a
    } else {
        gcd(b, a % b)
    }
}

/// `n / d` with both parts divided by their greatest common divisor; the sign
/// stays on the numerator.
pub open spec fn reduced(n: int, d: int) -> Num {
    let a = if n < 0 { -n } else { n };
    let g = gcd(a as nat, d as nat);
    let q = a / (g as int);
    Num { num: (if n < 0 { -q } else { q }) as i128, den: (d / (g as int)) as i128 }
}

/// The result of applying `op` to two well-formed numbers: with `x = a.num * b.den`,
/// `y = b.num * a.den` and `d = a.den * b.den`, the sum is `(x + y) / d`, the
/// difference `(x - y) / d`, the remainder `trunc_rem(x, y) / d`, the quotient
/// `x / y` and the product `(a.num * b.num) / d`, each reduced to lowest terms.
/// `Overflow` when one of the products or sums that the operator uses leaves
/// the range of [`fits`].
pub open spec fn apply_spec(op: Op, a: Num, b: Num) -> Result<Num, CalcError> {
    if (op is Div || op is Rem) && b.num == 0 {
        Err(CalcError::DivisionByZero)
    } else {
        match op {
            Op::Mul => match mul_fit(a.num as int, b.num as int) {
                Some(p) => match mul_fit(a.den as int, b.den as int) {
                    Some(d) => Ok(reduced(p, d)),
                    None => Err(CalcError::Overflow),
                },
                None => Err(CalcError::Overflow),
            },
            Op::Div => match mul_fit(a.num as int, b.den as int) {
                Some(x) => match mul_fit(b.num as int, a.den as int) {
                    Some(y) => if y > 0 {
                        Ok(reduced(x, y))
                    } else {
                        Ok(reduced(-x, -y))
                    },
                    None => Err(CalcError::Overflow),
                },
                None => Err(CalcError::Overflow),
            },
            _ => {
                let x = a.num * b.den;
                let y = b.num * a.den;
                let d = a.den * b.den;
                if !(fits(x) && fits(y) && fits(d)) {
                    Err(CalcError::Overflow)
                } else {
                    match op {
                        Op::Add => if fits(x + y) {
                            Ok(reduced(x + y, d))
                        } else {
                            Err(CalcError::Overflow)
                        },
                        Op::Sub => if fits(x - y) {
                            Ok(reduced(x - y, d))
                        } else {
                            Err(CalcError::Overflow)
                        },
                        _ => Ok(reduced(trunc_rem(x, y), d)),
                    }
                }
            },
        }
    }
}

proof fn lemma_gcd_bounds(a: nat, b: nat)
    requires
        b > 0,
    ensures
        0 < gcd(a, b) <= b,
    decreases b,
{
    assert(gcd(a, b) == gcd(b, a % b));
    assert(a % b < b);
    if a % b > 0 {
        lemma_gcd_bounds(b, a % b);
    } else {
        assert(gcd(b, 0) == b);
    }
}

proof fn lemma_gcd_divides(a: nat, b: nat)
    requires
        b > 0,
    ensures
        a % gcd(a, b) == 0,
        b % gcd(a, b) == 0,
    decreases b,
{
    lemma_gcd_bounds(a, b);
    let r = a % b;
    assert(gcd(a, b) == gcd(b, r));
    vstd::arithmetic::div_mod::lemma_fundamental_div_mod(a as int, b as int);
    if r == 0 {
        assert(gcd(b, 0) == b);
        vstd::arithmetic::div_mod::lemma_mod_self_0(b as int);
    } else {
        lemma_gcd_divides(b, r);
        let g = gcd(b, r);
        lemma_gcd_bounds(b, r);
        vstd::arithmetic::div_mod::lemma_fundamental_div_mod(b as int, g as int);
        vstd::arithmetic::div_mod::lemma_fundamental_div_mod(r as int, g as int);
        let (ai, bi, ri, gi) = (a as int, b as int, r as int, g as int);
        let (qa, qb, qr) = (ai / bi, bi / gi, ri / gi);
        let k = qb * qa + qr;
        assert(ai == k * gi) by (nonlinear_arith)
            requires
                ai == bi * qa + ri,
                bi == gi * qb,
                ri == gi * qr,
                k == qb * qa + qr;
        vstd::arithmetic::div_mod::lemma_mod_multiples_basic(k, gi);
    }
}

/// Reducing keeps the value: `reduced(n, d)` stands for `n / d`.
pub proof fn reduced_same_value(n: int, d: int)
    requires
        fits(n),
        0 < d <= i128::MAX,
    ensures
        reduced(n, d).num * d == n * reduced(n, d).den,
        reduced(n, d).den > 0,
{
    let a = if n < 0 { -n } else { n };
    let g = gcd(a as nat, d as nat) as int;
    lemma_gcd_bounds(a as nat, d as nat);
    lemma_gcd_divides(a as nat, d as nat);
    vstd::arithmetic::div_mod::lemma_fundamental_div_mod(a, g);
    vstd::arithmetic::div_mod::lemma_fundamental_div_mod(d, g);
    let q = a / g;
    let e = d / g;
    assert(0 <= q <= a) by (nonlinear_arith)
        requires a == g * q, g >= 1, a >= 0;
    assert(1 <= e <= d) by (nonlinear_arith)
        requires d == g * e, g >= 1, d >= 1;
    assert(q * d == a * e) by (nonlinear_arith)
        requires a == g * q, d == g * e;
    let m = if n < 0 { -q } else { q };
    assert(m * d == n * e) by (nonlinear_arith)
        requires q * d == a * e, (n < 0 ==> m == -q && a == -n), (n >= 0 ==> m == q && a == n);
}

fn gcd_exec(a: u128, b: u128) -> (r: u128)
    ensures
        r == gcd(a as nat, b as nat),
{
    let mut x = a;
    let mut y = b;
    while y != 0
        invariant
            gcd(x as nat, y as nat) == gcd(a as nat, b as nat),
        decreases y,
    {
        let t = x % y;
        x = y;
        y = t;
    }
    x
}

/// `n / d` in lowest terms.
fn lowest_terms(n: i128, d: i128) -> (r: Num)
    requires
        fits(n as int),
        d > 0,
    ensures
        r == reduced(n as int, d as int),
        r.wf(),
{
    let a: u128 = if n < 0 { (-n) as u128 } else { n as u128 };
    let g = gcd_exec(a, d as u128);
    proof {
        lemma_gcd_bounds(a as nat, d as nat);
    }
    let q = (a / g) as i128;
    let du = d as u128;
    let den = (du / g) as i128;
    proof {
        assert(du / g >= 1) by (nonlinear_arith)
            requires 0 < g <= du;
    }
    Num { num: if n < 0 { -q } else { q }, den }
}

impl Num {
    /// A number is well formed when its denominator is positive and both
    /// components fit.
    pub open spec fn wf(self) -> bool {
        self.den > 0 && fits(self.num as int)
    }

    /// The integer `v`.
    pub fn from_int(v: i64) -> (r: Num)
        ensures
            r.wf(),
            r.num == v as i128,
            r.den == 1,
    {
        Num { num: v as i128, den: 1 }
    }

    /// Checks well-formedness at run time.
    pub fn is_valid(&self) -> (r: bool)
        ensures
            r == self.wf(),
    {
        self.den > 0 && self.num != i128::MIN
    }

    /// `a op b`, exactly, in lowest terms.
    pub fn apply(op: Op, a: Num, b: Num) -> (r: Result<Num, CalcError>)
        requires
            a.wf(),
            b.wf(),
        ensures
            r == apply_spec(op, a, b),
            r matches Ok(v) ==> v.wf(),
    {
        if (op == Op::Div || op == Op::Rem) && b.num == 0 {
            return Err(CalcError::DivisionByZero);
        }
        if op == Op::Mul {
            let p = match checked_mul(a.num, b.num) {
                Some(v) => v,
                None => return Err(CalcError::Overflow),
            };
            let d = match checked_mul(a.den, b.den) {
                Some(v) => v,
                None => return Err(CalcError::Overflow),
            };
            proof {
                assert(d > 0) by (nonlinear_arith)
                    requires d as int == a.den * b.den, a.den > 0, b.den > 0;
            }
            return Ok(lowest_terms(p, d));
        }
        let x = match checked_mul(a.num, b.den) {
            Some(v) => v,
            None => return Err(CalcError::Overflow),
        };
        let y = match checked_mul(b.num, a.den) {
            Some(v) => v,
            None => return Err(CalcError::Overflow),
        };
        if op == Op::Div {
            proof {
                assert(y != 0) by (nonlinear_arith)
                    requires y as int == b.num * a.den, b.num != 0, a.den > 0;
            }
            if y > 0 {
                return Ok(lowest_terms(x, y));
            } else {
                return Ok(lowest_terms(-x, -y));
            }
        }
        let d = match checked_mul(a.den, b.den) {
            Some(v) => v,
            None => return Err(CalcError::Overflow),
        };
        proof {
            assert(d > 0) by (nonlinear_arith)
                requires d as int == a.den * b.den, a.den > 0, b.den > 0;
        }
        match op {
            Op::Add => {
                if (x >= 0 && y > i128::MAX - x) || (x < 0 && y < -i128::MAX - x) {
                    Err(CalcError::Overflow)
                } else {
                    Ok(lowest_terms(x + y, d))
                }
            },
            Op::Sub => {
                if (x >= 0 && y < x - i128::MAX) || (x < 0 && y > x + i128::MAX) {
                    Err(CalcError::Overflow)
                } else {
                    Ok(lowest_terms(x - y, d))
                }
            },
            _ => {
                proof {
                    assert(y != 0) by (nonlinear_arith)
                        requires y as int == b.num * a.den, b.num != 0, a.den > 0;
                }
                let ax = if x >= 0 { x } else { -x };
                let ay = if y >= 0 { y } else { -y };
                let m = ax % ay;
                proof {
                    assert(0 <= m < ay);
                }
                if x >= 0 {
                    Ok(lowest_terms(m, d))
                } else {
                    Ok(lowest_terms(-m, d))
                }
            },
        }
    }
}

} // verus!
