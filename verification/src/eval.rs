//! Two-pass left-to-right evaluation of a token sequence.
//!
//! The first pass repeatedly collapses the leftmost multiplication or
//! division; the second collapses the remaining additions and subtractions
//! from the left. Each collapse replaces a fraction/operator/fraction window
//! by the single resulting fraction, so the alternation invariant of the
//! sequence is preserved, and the sequence ends at length one. The final
//! fraction is then reduced to lowest terms.

use crate::calc::{calculation, spec_calculation, EvalError};
use crate::fraction::{formula_fracs_wf, formula_wf, is_high, Formula, Fraction, Item, Symbol};
use crate::num::{gcd, reduction};
use crate::parse::{spec_parse_formula, to_formula};
use vstd::arithmetic::div_mod::lemma_fundamental_div_mod;
use vstd::prelude::*;

verus! {

/// The position of the first multiplication or division symbol, or the
/// length of the sequence if there is none.
pub open spec fn find_high(s: Seq<Item>) -> int
    decreases s.len(),
{
    if s.len() == 0 {
        0
    } else if is_high(s[0]) {
        0
    } else {
        1 + find_high(s.drop_first())
    }
}

/// `find_high` points at the first high-precedence symbol: nothing before it
/// is one, and (within bounds) it is one itself.
pub proof fn lemma_find_high_props(s: Seq<Item>)
    ensures
        0 <= find_high(s) <= s.len(),
        forall|j: int| 0 <= j < find_high(s) ==> !is_high(#[trigger] s[j]),
        find_high(s) < s.len() ==> is_high(s[find_high(s)]),
    decreases s.len(),
{
    if s.len() == 0 {
    } else if is_high(s[0]) {
    } else {
        lemma_find_high_props(s.drop_first());
        assert forall|j: int| 0 <= j < find_high(s) implies !is_high(#[trigger] s[j]) by {
            if j > 0 {
                assert(s.drop_first()[j - 1] == s[j]);
            }
        }
        if find_high(s) < s.len() {
            assert(s.drop_first()[find_high(s) - 1] == s[find_high(s)]);
        }
    }
}

/// The sequence after one reduction step: the window around the operator at
/// position `i` is replaced by the single fraction `f`.
pub open spec fn window_reduce(s: Seq<Item>, i: int, f: Fraction) -> Seq<Item>
    recommends
        1 <= i,
        i + 1 < s.len(),
{
    s.subrange(0, i - 1) + seq![Item::Fraction(f)] + s.subrange(i + 2, s.len() as int)
}

/// One reduction step preserves the alternation invariant: replacing a
/// fraction/operator/fraction window at an odd operator position by one
/// canonical fraction keeps fractions at even and operators at odd positions,
/// keeps every fraction canonical, and shortens the sequence by two.
pub proof fn lemma_window_reduce_wf(s: Seq<Item>, i: int, f: Fraction)
    requires
        formula_wf(s),
        formula_fracs_wf(s),
        f.wf(),
        1 <= i,
        i % 2 == 1,
        i + 1 < s.len(),
    ensures
        formula_wf(window_reduce(s, i, f)),
        formula_fracs_wf(window_reduce(s, i, f)),
        window_reduce(s, i, f).len() == s.len() - 2,
{
    let w = window_reduce(s, i, f);
    assert(w.len() == s.len() - 2);
    assert forall|j: int| 0 <= j < w.len() implies (if j % 2 == 0 {
        (#[trigger] w[j]) is Fraction
    } else {
        w[j] is Symbol
    }) && (w[j] is Fraction ==> w[j].spec_fraction().wf()) by {
        if j < i - 1 {
            assert(w[j] == s[j]);
        } else if j == i - 1 {
            assert(w[j] == Item::Fraction(f));
        } else {
            assert(w[j] == s[j + 2]);
        }
    }
}

/// The result of the high-precedence pass: the leftmost multiplication or
/// division window is collapsed until no such operator remains; an arithmetic
/// failure is reported as is. (On a sequence that breaks the alternation
/// invariant the result is a validation error; the evaluator never reaches
/// that case, since validation comes first.)
pub open spec fn spec_eval_high(s: Seq<Item>) -> Result<Seq<Item>, EvalError>
    decreases s.len(),
{
    let i = find_high(s);
    if i >= s.len() {
        Ok(s)
    } else if !(1 <= i && i + 1 < s.len() && s[i - 1] is Fraction && s[i] is Symbol && s[i
        + 1] is Fraction) {
        Err(EvalError::ValidationError)
    } else {
        match spec_calculation(s[i].spec_symbol(), s[i - 1].spec_fraction(), s[i + 1].spec_fraction()) {
            Err(e) => Err(e),
            Ok(f) => spec_eval_high(window_reduce(s, i, f)),
        }
    }
}

/// The result of the low-precedence pass: the leftmost three tokens are
/// collapsed until a single fraction remains.
pub open spec fn spec_eval_low(s: Seq<Item>) -> Result<Fraction, EvalError>
    decreases s.len(),
{
    if s.len() == 1 && s[0] is Fraction {
        Ok(s[0].spec_fraction())
    } else if !(3 <= s.len() && s[0] is Fraction && s[1] is Symbol && s[2] is Fraction) {
        Err(EvalError::ValidationError)
    } else {
        match spec_calculation(s[1].spec_symbol(), s[0].spec_fraction(), s[2].spec_fraction()) {
            Err(e) => Err(e),
            Ok(f) => spec_eval_low(window_reduce(s, 1, f)),
        }
    }
}

/// The final fraction brought to lowest terms: numerator and denominator
/// divided by their greatest common divisor, the sign kept.
pub open spec fn spec_reduce_final(f: Fraction) -> Fraction
    recommends
        f.wf(),
{
    let g: int = gcd(f.numerator as int, f.denominator as int);
    Fraction {
        numerator: (f.numerator as int / g) as i64,
        denominator: (f.denominator as int / g) as i64,
        sign: f.sign,
    }
}

/// What evaluating a validated token sequence returns: the high-precedence
/// pass, then the low-precedence pass, then reduction to lowest terms.
pub open spec fn spec_evaluate(s: Seq<Item>) -> Result<Fraction, EvalError> {
    match spec_eval_high(s) {
        Err(e) => Err(e),
        Ok(s2) => match spec_eval_low(s2) {
            Err(e) => Err(e),
            Ok(f) => Ok(spec_reduce_final(f)),
        },
    }
}

/// The position of the first multiplication or division symbol, if any.
pub fn find_high_op(formula: &Formula) -> (r: Option<usize>)
    ensures
        match r {
            Some(i) => i == find_high(formula@) && i < formula@.len(),
            None => find_high(formula@) == formula@.len(),
        },
{
    proof {
        lemma_find_high_props(formula@);
    }
    let n = formula.len();
    for i in 0..n
        invariant
            n == formula@.len(),
            forall|j: int| 0 <= j < i ==> !is_high(#[trigger] formula@[j]),
            0 <= find_high(formula@) <= formula@.len(),
            forall|j: int| 0 <= j < find_high(formula@) ==> !is_high(#[trigger] formula@[j]),
            find_high(formula@) < formula@.len() ==> is_high(formula@[find_high(formula@)]),
    {
        let found = match formula[i] {
            Item::Symbol(Symbol::Times) => true,
            Item::Symbol(Symbol::Divided) => true,
            _ => false,
        };
        if found {
            return Some(i);
        }
    }
    None
}

/// Applies the operator at odd position `i` to its two fraction neighbours
/// and replaces the three-token window by the result. The alternation
/// invariant is preserved; on an arithmetic failure the sequence is left
/// unchanged and the failure is returned.
pub fn reduce_at(formula: &mut Formula, i: usize) -> (r: Result<(), EvalError>)
    requires
        formula_wf(old(formula)@),
        formula_fracs_wf(old(formula)@),
        i % 2 == 1,
        i + 1 < old(formula)@.len(),
    ensures
        match spec_calculation(
            old(formula)@[i as int].spec_symbol(),
            old(formula)@[i - 1].spec_fraction(),
            old(formula)@[i + 1].spec_fraction(),
        ) {
            Ok(f) => r is Ok && final(formula)@ == window_reduce(old(formula)@, i as int, f)
                && formula_wf(final(formula)@) && formula_fracs_wf(final(formula)@)
                && final(formula)@.len() == old(formula)@.len() - 2,
            Err(e) => r == Err::<(), EvalError>(e) && final(formula)@ == old(formula)@,
        },
{
    let ghost s0 = formula@;
    let n = formula.len();
    let sym = formula[i].symbol();
    let f1 = formula[i - 1].fraction();
    let f2 = formula[i + 1].fraction();
    match calculation(sym, f1, f2) {
        Err(e) => Err(e),
        Ok(f) => {
            formula.remove(i - 1);
            formula.remove(i - 1);
            formula.set(i - 1, Item::Fraction(f));
            proof {
                assert(formula@ =~= window_reduce(s0, i as int, f));
                lemma_window_reduce_wf(s0, i as int, f);
            }
            Ok(())
        },
    }
}

/// Brings a canonical fraction to lowest terms. A fraction already in lowest
/// terms (greatest common divisor one) comes back unchanged.
pub fn reduce(f: Fraction) -> (r: Fraction)
    requires
        f.wf(),
    ensures
        r == spec_reduce_final(f),
        r.wf(),
        gcd(f.numerator as int, f.denominator as int) == 1 ==> r == f,
{
    let divide = reduction(f.numerator, f.denominator);
    proof {
        let n: int = f.numerator as int;
        let d: int = f.denominator as int;
        let g: int = divide as int;
        lemma_fundamental_div_mod(n, g);
        lemma_fundamental_div_mod(d, g);
        assert(0 <= n / g && 1 <= d / g) by (nonlinear_arith)
            requires
                n == g * (n / g),
                d == g * (d / g),
                0 <= n,
                1 <= d,
                1 <= g,
        ;
    }
    Fraction::new(f.numerator / divide, f.denominator / divide, f.sign)
}

/// Evaluates a validated token sequence: collapses every multiplication and
/// division from the left, then every addition and subtraction from the
/// left, and reduces the final fraction to lowest terms.
#[verifier::loop_isolation(false)]
pub fn evaluate_formula(formula: Formula) -> (r: Result<Fraction, EvalError>)
    requires
        formula_wf(formula@),
        formula_fracs_wf(formula@),
    ensures
        r == spec_evaluate(formula@),
        r matches Ok(f) ==> f.wf(),
{
    let mut formula = formula;
    let ghost s0 = formula@;
    let mut i_opt = find_high_op(&formula);
    while i_opt.is_some()
        invariant
            formula_wf(formula@),
            formula_fracs_wf(formula@),
            spec_eval_high(formula@) == spec_eval_high(s0),
            match i_opt {
                Some(i) => i == find_high(formula@) && i < formula@.len(),
                None => find_high(formula@) == formula@.len(),
            },
        decreases formula@.len(),
    {
        let i = i_opt.unwrap();
        let ghost sc = formula@;
        proof {
            lemma_find_high_props(sc);
            assert(sc[i as int] is Symbol);
            if i % 2 == 0 {
                assert(sc[i as int] is Fraction);
            }
            assert(i % 2 == 1);
            if i + 1 == sc.len() {
                assert(false);
            }
            assert(sc[i - 1] is Fraction);
            assert(sc[i + 1] is Fraction);
        }
        match reduce_at(&mut formula, i) {
            Err(e) => {
                proof {
                    assert(spec_eval_high(sc) == Err::<Seq<Item>, EvalError>(e));
                    assert(spec_evaluate(s0) == Err::<Fraction, EvalError>(e));
                }
                return Err(e);
            },
            Ok(()) => {
                proof {
                    assert(spec_eval_high(sc) == spec_eval_high(formula@));
                }
            },
        }
        i_opt = find_high_op(&formula);
    }
    assert(spec_eval_high(s0) == Ok::<Seq<Item>, EvalError>(formula@));
    let ghost s1 = formula@;
    while formula.len() != 1
        invariant
            formula_wf(formula@),
            formula_fracs_wf(formula@),
            spec_eval_low(formula@) == spec_eval_low(s1),
            spec_eval_high(s0) == Ok::<Seq<Item>, EvalError>(s1),
        decreases formula@.len(),
    {
        let ghost sc = formula@;
        proof {
            assert(sc.len() >= 3);
            assert(sc[0] is Fraction);
            assert(sc[1] is Symbol);
            assert(sc[2] is Fraction);
        }
        match reduce_at(&mut formula, 1) {
            Err(e) => {
                proof {
                    assert(spec_eval_low(sc) == Err::<Fraction, EvalError>(e));
                    assert(spec_evaluate(s0) == Err::<Fraction, EvalError>(e));
                }
                return Err(e);
            },
            Ok(()) => {
                proof {
                    assert(spec_eval_low(sc) == spec_eval_low(formula@));
                }
            },
        }
    }
    let f0 = formula[0].fraction();
    assert(spec_eval_low(s1) == Ok::<Fraction, EvalError>(f0));
    Ok(reduce(f0))
}

/// What evaluating an input string returns: the token sequence it denotes,
/// validated and evaluated; a malformed piece is a parse error, a broken
/// alternation a validation error.
pub open spec fn spec_fraction_calculation(s: Seq<char>) -> Result<Fraction, EvalError> {
    match spec_parse_formula(s) {
        None => Err(EvalError::ParseError),
        Some(items) => if !formula_wf(items) {
            Err(EvalError::ValidationError)
        } else {
            spec_evaluate(items)
        },
    }
}

/// Evaluates a space-separated fraction expression: tokenize, validate,
/// collapse multiplications and divisions left to right, then additions and
/// subtractions, and reduce the result to lowest terms.
pub fn fraction_calculation(formula: &str) -> (r: Result<Fraction, EvalError>)
    ensures
        r == spec_fraction_calculation(formula@),
        r matches Ok(f) ==> f.wf(),
{
    match to_formula(formula) {
        Err(e) => Err(e),
        Ok(v) => evaluate_formula(v),
    }
}

} // verus!
