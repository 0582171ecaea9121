//! Fraction arithmetic for one operator applied to two fractions.
//!
//! Addition and subtraction go through the least common multiple of the two
//! denominators; multiplication and division multiply numerators and
//! denominators directly (division by the reciprocal). Signs are resolved
//! first, so that addition and subtraction work on magnitudes: a negative
//! operand turns an addition into an effective subtraction, and the result
//! carries the sign of the dominant operand. Multiplication and division are
//! negative exactly when the operands' signs differ.

use crate::fraction::{Fraction, Symbol};
use crate::num::{common_multiple, gcd, lcm, lemma_gcd_divides};
use vstd::arithmetic::div_mod::lemma_fundamental_div_mod;
use vstd::prelude::*;

verus! {

/// How an evaluation can fail.
#[derive(Clone, Copy, PartialEq, Eq, Structural, Debug)]
pub enum EvalError {
    /// A token is neither an operator symbol nor a fraction literal with a
    /// nonzero denominator and both halves integers of representable size.
    ParseError,
    /// The token sequence has even length or breaks the
    /// fraction/operator alternation.
    ValidationError,
    /// A division's right operand is zero.
    DivisionByZero,
    /// An intermediate numerator or denominator magnitude exceeds `i64::MAX`.
    Overflow,
}

/// What multiplying two canonical fractions returns.
pub open spec fn spec_times(f1: Fraction, f2: Fraction) -> Result<Fraction, EvalError>
    recommends
        f1.wf(),
        f2.wf(),
{
    let n: int = f1.numerator * f2.numerator;
    let d: int = f1.denominator * f2.denominator;
    if n > i64::MAX || d > i64::MAX {
        Err(EvalError::Overflow)
    } else {
        Ok(Fraction { numerator: n as i64, denominator: d as i64, sign: f1.sign == f2.sign })
    }
}

/// What dividing two canonical fractions returns: multiplication by the
/// reciprocal of the right operand.
pub open spec fn spec_divided(f1: Fraction, f2: Fraction) -> Result<Fraction, EvalError>
    recommends
        f1.wf(),
        f2.wf(),
{
    if f2.numerator == 0 {
        Err(EvalError::DivisionByZero)
    } else {
        let n: int = f1.numerator * f2.denominator;
        let d: int = f1.denominator * f2.numerator;
        if n > i64::MAX || d > i64::MAX {
            Err(EvalError::Overflow)
        } else {
            Ok(Fraction { numerator: n as i64, denominator: d as i64, sign: f1.sign == f2.sign })
        }
    }
}

/// What adding two canonical fractions returns, the second taken with
/// effective sign `s2`: the signed numerators scaled to the least common
/// denominator are added, and the result carries the magnitude and the sign
/// of that sum (the left operand's sign when the sum is zero).
pub open spec fn spec_add_signed(f1: Fraction, f2: Fraction, s2: bool) -> Result<
    Fraction,
    EvalError,
>
    recommends
        f1.wf(),
        f2.wf(),
{
    let d1: int = f1.denominator as int;
    let d2: int = f2.denominator as int;
    let g: int = gcd(d1, d2);
    let m1: int = d2 / g;
    let m2: int = d1 / g;
    let l: int = d1 * m1;
    let a1: int = f1.numerator * m1;
    let a2: int = f2.numerator * m2;
    if d1 * d2 > i64::MAX || a1 > i64::MAX || a2 > i64::MAX {
        Err(EvalError::Overflow)
    } else {
        let s: int = (if f1.sign {
            a1
        } else {
            -a1
        }) + (if s2 {
            a2
        } else {
            -a2
        });
        let m: int = if s < 0 {
            -s
        } else {
            s
        };
        if m > i64::MAX {
            Err(EvalError::Overflow)
        } else {
            Ok(
                Fraction {
                    numerator: m as i64,
                    denominator: l as i64,
                    sign: if s == 0 {
                        f1.sign
                    } else {
                        s > 0
                    },
                },
            )
        }
    }
}

/// What applying one operator to two canonical fractions returns.
/// Subtraction is addition with the right operand's sign flipped.
pub open spec fn spec_calculation(symbol: Symbol, f1: Fraction, f2: Fraction) -> Result<
    Fraction,
    EvalError,
>
    recommends
        f1.wf(),
        f2.wf(),
{
    match symbol {
        Symbol::Plus => spec_add_signed(f1, f2, f2.sign),
        Symbol::Minus => spec_add_signed(f1, f2, !f2.sign),
        Symbol::Times => spec_times(f1, f2),
        Symbol::Divided => spec_divided(f1, f2),
    }
}

/// The least common multiple of two positive denominators is positive,
/// reached by positive multipliers, and no larger than the plain product.
pub proof fn lemma_lcm_facts(d1: int, d2: int)
    requires
        1 <= d1,
        1 <= d2,
    ensures
        1 <= gcd(d1, d2),
        1 <= d2 / gcd(d1, d2) <= d2,
        1 <= d1 / gcd(d1, d2) <= d1,
        d1 * (d2 / gcd(d1, d2)) == lcm(d1, d2),
        d2 * (d1 / gcd(d1, d2)) == lcm(d1, d2),
        1 <= lcm(d1, d2) <= d1 * d2,
{
    lemma_gcd_divides(d1, d2);
    let g = gcd(d1, d2);
    lemma_fundamental_div_mod(d1, g);
    lemma_fundamental_div_mod(d2, g);
    assert(d1 == g * (d1 / g));
    assert(d2 == g * (d2 / g));
    assert(1 <= d2 / g <= d2 && 1 <= d1 / g <= d1) by (nonlinear_arith)
        requires
            d1 == g * (d1 / g),
            d2 == g * (d2 / g),
            1 <= g,
            1 <= d1,
            1 <= d2,
    ;
    assert(d1 * (d2 / g) == d2 * (d1 / g)) by (nonlinear_arith)
        requires
            d1 == g * (d1 / g),
            d2 == g * (d2 / g),
            1 <= g,
    ;
    assert(1 <= d1 * (d2 / g) <= d1 * d2) by (nonlinear_arith)
        requires
            d2 == g * (d2 / g),
            1 <= g,
            1 <= d1,
            1 <= d2,
            1 <= d2 / g <= d2,
    ;
}

/// A successful calculation on canonical fractions yields a canonical
/// fraction.
pub proof fn lemma_calculation_wf(symbol: Symbol, f1: Fraction, f2: Fraction)
    requires
        f1.wf(),
        f2.wf(),
    ensures
        spec_calculation(symbol, f1, f2) matches Ok(f) ==> f.wf(),
{
    let n1: int = f1.numerator as int;
    let n2: int = f2.numerator as int;
    let d1: int = f1.denominator as int;
    let d2: int = f2.denominator as int;
    assert(0 <= n1 * n2 && 1 <= d1 * d2 && 0 <= n1 * d2 && 0 <= d1 * n2) by (nonlinear_arith)
        requires
            0 <= n1,
            0 <= n2,
            1 <= d1,
            1 <= d2,
    ;
    assert(1 <= n2 ==> 1 <= d1 * n2) by (nonlinear_arith)
        requires
            1 <= d1,
    ;
    match symbol {
        Symbol::Times => {},
        Symbol::Divided => {},
        Symbol::Plus => {
            lemma_lcm_facts(d1, d2);
        },
        Symbol::Minus => {
            lemma_lcm_facts(d1, d2);
        },
    }
}

/// A successful multiplication is exact: the result's signed value over its
/// denominator equals the product of the operands as rationals.
pub proof fn lemma_times_exact(f1: Fraction, f2: Fraction)
    requires
        f1.wf(),
        f2.wf(),
    ensures
        spec_times(f1, f2) matches Ok(f) ==> f.signed() == f1.signed() * f2.signed()
            && f.denominator == f1.denominator * f2.denominator,
{
    if spec_times(f1, f2) is Ok {
        let f = spec_times(f1, f2).unwrap();
        assert(0 <= f1.numerator * f2.numerator && 1 <= f1.denominator * f2.denominator)
            by (nonlinear_arith)
            requires
                0 <= f1.numerator,
                0 <= f2.numerator,
                1 <= f1.denominator,
                1 <= f2.denominator,
        ;
        assert(f.signed() == f1.signed() * f2.signed()) by (nonlinear_arith)
            requires
                0 <= f1.numerator,
                0 <= f2.numerator,
                f1.numerator * f2.numerator <= i64::MAX,
                f.numerator == f1.numerator * f2.numerator,
                f.sign == (f1.sign == f2.sign),
                f.signed() == if f.sign {
                    f.numerator as int
                } else {
                    -(f.numerator as int)
                },
                f1.signed() == if f1.sign {
                    f1.numerator as int
                } else {
                    -(f1.numerator as int)
                },
                f2.signed() == if f2.sign {
                    f2.numerator as int
                } else {
                    -(f2.numerator as int)
                },
        ;
    }
}

/// A successful division is exact: the result equals the left operand
/// divided by the right one as rationals (cross-multiplied form).
pub proof fn lemma_divided_exact(f1: Fraction, f2: Fraction)
    requires
        f1.wf(),
        f2.wf(),
    ensures
        spec_divided(f1, f2) matches Ok(f) ==> f.signed() * f1.denominator * f2.signed() == f1.signed()
            * f2.denominator * f.denominator,
{
    if spec_divided(f1, f2) is Ok {
        let f = spec_divided(f1, f2).unwrap();
        assert(0 <= f1.numerator * f2.denominator && 1 <= f1.denominator * f2.numerator)
            by (nonlinear_arith)
            requires
                0 <= f1.numerator,
                1 <= f2.numerator,
                1 <= f1.denominator,
                1 <= f2.denominator,
        ;
        assert(f.signed() * f1.denominator * f2.signed() == f1.signed() * f2.denominator
            * f.denominator) by (nonlinear_arith)
            requires
                0 <= f1.numerator,
                0 <= f2.numerator,
                f.numerator == f1.numerator * f2.denominator,
                f.denominator == f1.denominator * f2.numerator,
                f.sign == (f1.sign == f2.sign),
                f.signed() == if f.sign {
                    f.numerator as int
                } else {
                    -(f.numerator as int)
                },
                f1.signed() == if f1.sign {
                    f1.numerator as int
                } else {
                    -(f1.numerator as int)
                },
                f2.signed() == if f2.sign {
                    f2.numerator as int
                } else {
                    -(f2.numerator as int)
                },
        ;
    }
}

/// A successful addition over the least common denominator is exact: the
/// result equals the sum of the operands as rationals (cross-multiplied
/// form; for subtraction the second operand's sign is flipped).
pub proof fn lemma_add_signed_exact(f1: Fraction, f2: Fraction, s2: bool)
    requires
        f1.wf(),
        f2.wf(),
    ensures
        spec_add_signed(f1, f2, s2) matches Ok(f) ==> {
            let sv2: int = if s2 {
                f2.numerator as int
            } else {
                -(f2.numerator as int)
            };
            f.signed() * (f1.denominator * f2.denominator) == (f1.signed() * f2.denominator + sv2
                * f1.denominator) * f.denominator
        },
{
    let d1: int = f1.denominator as int;
    let d2: int = f2.denominator as int;
    lemma_lcm_facts(d1, d2);
    let g: int = gcd(d1, d2);
    let m1: int = d2 / g;
    let m2: int = d1 / g;
    if spec_add_signed(f1, f2, s2) is Ok {
        let f = spec_add_signed(f1, f2, s2).unwrap();
        let sv1: int = f1.signed();
        let sv2: int = if s2 {
            f2.numerator as int
        } else {
            -(f2.numerator as int)
        };
        let a1: int = f1.numerator * m1;
        let a2: int = f2.numerator * m2;
        let s: int = (if f1.sign {
            a1
        } else {
            -a1
        }) + (if s2 {
            a2
        } else {
            -a2
        });
        assert(f.denominator == d1 * m1);
        assert(f.signed() == s);
        assert(s == sv1 * m1 + sv2 * m2) by (nonlinear_arith)
            requires
                a1 == f1.numerator * m1,
                a2 == f2.numerator * m2,
                s == (if f1.sign {
                    a1
                } else {
                    (-a1)
                }) + (if s2 {
                    a2
                } else {
                    (-a2)
                }),
                sv1 == if f1.sign {
                    f1.numerator as int
                } else {
                    -(f1.numerator as int)
                },
                sv2 == if s2 {
                    f2.numerator as int
                } else {
                    -(f2.numerator as int)
                },
        ;
        assert(d2 == g * m1 && d1 == g * m2) by {
            lemma_gcd_divides(d1, d2);
            lemma_fundamental_div_mod(d2, g);
            lemma_fundamental_div_mod(d1, g);
        }
        assert(sv1 * d2 + sv2 * d1 == g * (sv1 * m1 + sv2 * m2)) by (nonlinear_arith)
            requires
                d2 == g * m1,
                d1 == g * m2,
        ;
        assert(d1 * d2 == (d1 * m1) * g) by (nonlinear_arith)
            requires
                d2 == g * m1,
        ;
        assert((sv1 * m1 + sv2 * m2) * (d1 * d2) == (sv1 * d2 + sv2 * d1) * (d1 * m1))
            by (nonlinear_arith)
            requires
                sv1 * d2 + sv2 * d1 == g * (sv1 * m1 + sv2 * m2),
                d1 * d2 == (d1 * m1) * g,
        ;
    }
}

/// Addition of two canonical fractions, the second taken with effective
/// sign `s2`, over the least common denominator.
fn add_signed(f1: Fraction, f2: Fraction, s2: bool) -> (r: Result<Fraction, EvalError>)
    requires
        f1.wf(),
        f2.wf(),
    ensures
        r == spec_add_signed(f1, f2, s2),
{
    proof {
        lemma_lcm_facts(f1.denominator as int, f2.denominator as int);
    }
    if f1.denominator.checked_mul(f2.denominator).is_none() {
        return Err(EvalError::Overflow);
    }
    let (m1, m2, l) = common_multiple(f1.denominator, f2.denominator);
    let a1 = match f1.numerator.checked_mul(m1) {
        Some(v) => v,
        None => {
            proof {
                assert(f1.numerator * m1 > i64::MAX) by (nonlinear_arith)
                    requires
                        0 <= f1.numerator,
                        1 <= m1,
                        f1.numerator * m1 > i64::MAX || f1.numerator * m1 < i64::MIN,
                ;
            }
            return Err(EvalError::Overflow);
        },
    };
    let a2 = match f2.numerator.checked_mul(m2) {
        Some(v) => v,
        None => {
            proof {
                assert(f2.numerator * m2 > i64::MAX) by (nonlinear_arith)
                    requires
                        0 <= f2.numerator,
                        1 <= m2,
                        f2.numerator * m2 > i64::MAX || f2.numerator * m2 < i64::MIN,
                ;
            }
            return Err(EvalError::Overflow);
        },
    };
    proof {
        assert(0 <= f1.numerator * m1 && 0 <= f2.numerator * m2) by (nonlinear_arith)
            requires
                0 <= f1.numerator,
                0 <= f2.numerator,
                0 <= m1,
                0 <= m2,
        ;
    }
    if f1.sign == s2 {
        match a1.checked_add(a2) {
            Some(n) => Ok(Fraction::new(n, l, f1.sign)),
            None => Err(EvalError::Overflow),
        }
    } else {
        if a1 >= a2 {
            Ok(Fraction::new(a1 - a2, l, f1.sign))
        } else {
            Ok(Fraction::new(a2 - a1, l, s2))
        }
    }
}

/// Applies one operator to two canonical fractions, exactly as
/// `spec_calculation` states; a successful result is again canonical.
pub fn calculation(symbol: Symbol, f1: Fraction, f2: Fraction) -> (r: Result<Fraction, EvalError>)
    requires
        f1.wf(),
        f2.wf(),
    ensures
        r == spec_calculation(symbol, f1, f2),
        r matches Ok(f) ==> f.wf(),
{
    proof {
        lemma_calculation_wf(symbol, f1, f2);
        assert(0 <= f1.numerator * f2.numerator && 1 <= f1.denominator * f2.denominator && 0
            <= f1.numerator * f2.denominator && 0 <= f1.denominator * f2.numerator)
            by (nonlinear_arith)
            requires
                0 <= f1.numerator,
                0 <= f2.numerator,
                1 <= f1.denominator,
                1 <= f2.denominator,
        ;
    }
    match symbol {
        Symbol::Plus => add_signed(f1, f2, f2.sign),
        Symbol::Minus => add_signed(f1, f2, !f2.sign),
        Symbol::Times => {
            let n = match f1.numerator.checked_mul(f2.numerator) {
                Some(v) => v,
                None => {
                    return Err(EvalError::Overflow);
                },
            };
            let d = match f1.denominator.checked_mul(f2.denominator) {
                Some(v) => v,
                None => {
                    return Err(EvalError::Overflow);
                },
            };
            Ok(Fraction::new(n, d, f1.sign == f2.sign))
        },
        Symbol::Divided => {
            if f2.numerator == 0 {
                return Err(EvalError::DivisionByZero);
            }
            let n = match f1.numerator.checked_mul(f2.denominator) {
                Some(v) => v,
                None => {
                    return Err(EvalError::Overflow);
                },
            };
            let d = match f1.denominator.checked_mul(f2.numerator) {
                Some(v) => v,
                None => {
                    return Err(EvalError::Overflow);
                },
            };
            Ok(Fraction::new(n, d, f1.sign == f2.sign))
        },
    }
}

} // verus!

