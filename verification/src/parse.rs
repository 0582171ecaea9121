//! Tokenizing and validating an input string.
//!
//! The input is split on single space characters; each piece is an operator
//! symbol (`+`, `-`, `×`, `÷`) or a fraction literal `N/D` with optionally
//! signed decimal halves. Signs are normalized: two negative halves make a
//! positive fraction, exactly one makes a negative one, and magnitudes are
//! stored non-negative. A zero denominator or a magnitude beyond `i64::MAX`
//! makes the literal malformed. Validation then demands an odd number of
//! tokens alternating fraction/operator.

use crate::calc::EvalError;
use crate::fraction::{formula_fracs_wf, formula_wf, Formula, Fraction, Item, Symbol};
use vstd::prelude::*;
use vstd::string::StrSliceExecFns;

verus! {

/// A decimal digit character.
pub open spec fn is_digit(c: char) -> bool {
    48 <= c as u32 <= 57
}

/// The numeric value of a decimal digit character.
pub open spec fn digit_val(c: char) -> int {
    c as u32 - 48
}

/// Every character of the sequence is a decimal digit.
pub open spec fn all_digits(s: Seq<char>) -> bool {
    forall|i: int| 0 <= i < s.len() ==> is_digit(#[trigger] s[i])
}

/// The value of a sequence of decimal digits, most significant first.
pub open spec fn digits_value(s: Seq<char>) -> int
    decreases s.len(),
{
    if s.len() == 0 {
        0
    } else {
        digits_value(s.drop_last()) * 10 + digit_val(s.last())
    }
}

/// The value of a digit sequence is non-negative.
pub proof fn lemma_digits_value_nonneg(s: Seq<char>)
    requires
        all_digits(s),
    ensures
        digits_value(s) >= 0,
    decreases s.len(),
{
    if s.len() > 0 {
        assert(all_digits(s.drop_last()));
        lemma_digits_value_nonneg(s.drop_last());
    }
}

/// The value of a digit sequence is at least the value of any of its
/// prefixes: appending digits never shrinks the value.
pub proof fn lemma_digits_value_prefix_le(s: Seq<char>, k: int)
    requires
        all_digits(s),
        0 <= k <= s.len(),
    ensures
        digits_value(s.subrange(0, k)) <= digits_value(s),
    decreases s.len() - k,
{
    if k == s.len() {
        assert(s.subrange(0, k) =~= s);
    } else {
        let p = s.subrange(0, k);
        let q = s.subrange(0, k + 1);
        assert(q.drop_last() =~= p);
        assert(all_digits(p));
        lemma_digits_value_nonneg(p);
        assert(digits_value(q) == digits_value(p) * 10 + digit_val(q.last()));
        assert(digits_value(p) * 10 >= digits_value(p)) by (nonlinear_arith)
            requires
                digits_value(p) >= 0,
        ;
        lemma_digits_value_prefix_le(s, k + 1);
    }
}

/// A parsed integer literal: an optional leading minus, then at least one
/// digit. The result is the sign (`true` meaning no minus) and the magnitude.
pub open spec fn spec_parse_int(s: Seq<char>) -> Option<(bool, int)> {
    if s.len() >= 1 && s[0] == '-' {
        if s.len() >= 2 && all_digits(s.drop_first()) {
            Some((false, digits_value(s.drop_first())))
        } else {
            None
        }
    } else if s.len() >= 1 && all_digits(s) {
        Some((true, digits_value(s)))
    } else {
        None
    }
}

/// The position of the first `/`, or the length of the sequence if none.
pub open spec fn find_slash(s: Seq<char>) -> int
    decreases s.len(),
{
    if s.len() == 0 {
        0
    } else if s[0] == '/' {
        0
    } else {
        1 + find_slash(s.drop_first())
    }
}

/// `find_slash` points at the first slash: nothing before it is one, and
/// (within bounds) it is one itself.
pub proof fn lemma_find_slash_props(s: Seq<char>)
    ensures
        0 <= find_slash(s) <= s.len(),
        forall|j: int| 0 <= j < find_slash(s) ==> (#[trigger] s[j]) != '/',
        find_slash(s) < s.len() ==> s[find_slash(s)] == '/',
    decreases s.len(),
{
    if s.len() == 0 {
    } else if s[0] == '/' {
    } else {
        lemma_find_slash_props(s.drop_first());
        assert forall|j: int| 0 <= j < find_slash(s) implies (#[trigger] s[j]) != '/' by {
            if j > 0 {
                assert(s.drop_first()[j - 1] == s[j]);
            }
        }
        if find_slash(s) < s.len() {
            assert(s.drop_first()[find_slash(s) - 1] == s[find_slash(s)]);
        }
    }
}

/// The canonical fraction denoted by a piece `N/D`: both halves integer
/// literals, the denominator nonzero, both magnitudes representable. The
/// fraction is negative exactly when one half has a negative value.
pub open spec fn spec_parse_fraction(p: Seq<char>) -> Option<Fraction> {
    let i = find_slash(p);
    if i >= p.len() {
        None
    } else {
        match (spec_parse_int(p.subrange(0, i)), spec_parse_int(
            p.subrange(i + 1, p.len() as int),
        )) {
            (Some((ns, n)), Some((ds, d))) => {
                if n > i64::MAX || d > i64::MAX || d == 0 {
                    None
                } else {
                    let n_neg = !ns && n > 0;
                    let d_neg = !ds && d > 0;
                    Some(
                        Fraction {
                            numerator: n as i64,
                            denominator: d as i64,
                            sign: n_neg == d_neg,
                        },
                    )
                }
            },
            _ => None,
        }
    }
}

/// The token denoted by one piece: one of the four operator symbols, or a
/// fraction literal.
pub open spec fn spec_parse_item(p: Seq<char>) -> Option<Item> {
    if p.len() == 1 && p[0] == '+' {
        Some(Item::Symbol(Symbol::Plus))
    } else if p.len() == 1 && p[0] == '-' {
        Some(Item::Symbol(Symbol::Minus))
    } else if p.len() == 1 && p[0] == '×' {
        Some(Item::Symbol(Symbol::Times))
    } else if p.len() == 1 && p[0] == '÷' {
        Some(Item::Symbol(Symbol::Divided))
    } else {
        match spec_parse_fraction(p) {
            Some(f) => Some(Item::Fraction(f)),
            None => None,
        }
    }
}

/// The pieces of a character sequence split on single spaces. An empty
/// input yields one empty piece, as splitting does.
pub open spec fn spec_split(s: Seq<char>) -> Seq<Seq<char>>
    decreases s.len(),
{
    if s.len() == 0 {
        seq![Seq::<char>::empty()]
    } else if s[0] == ' ' {
        seq![Seq::<char>::empty()] + spec_split(s.drop_first())
    } else {
        let r = spec_split(s.drop_first());
        seq![seq![s[0]] + r[0]] + r.drop_first()
    }
}

/// Splitting yields at least one piece.
pub proof fn lemma_split_nonempty(s: Seq<char>)
    ensures
        spec_split(s).len() >= 1,
    decreases s.len(),
{
    if s.len() > 0 {
        lemma_split_nonempty(s.drop_first());
    }
}

/// The tokens denoted by a sequence of pieces: all pieces must parse.
pub open spec fn spec_parse_pieces(ps: Seq<Seq<char>>) -> Option<Seq<Item>>
    decreases ps.len(),
{
    if ps.len() == 0 {
        Some(Seq::<Item>::empty())
    } else {
        match (spec_parse_item(ps[0]), spec_parse_pieces(ps.drop_first())) {
            (Some(it), Some(rest)) => Some(seq![it] + rest),
            _ => None,
        }
    }
}

/// The token sequence denoted by an input string: split on spaces, each
/// piece an operator symbol or a fraction literal.
pub open spec fn spec_parse_formula(s: Seq<char>) -> Option<Seq<Item>> {
    spec_parse_pieces(spec_split(s))
}

/// Every fraction token a piece parses to is canonical.
pub proof fn lemma_parse_item_wf(p: Seq<char>)
    ensures
        spec_parse_item(p) matches Some(it) ==> (it is Fraction ==> it.spec_fraction().wf()),
{
    if spec_parse_item(p) is Some && spec_parse_item(p).unwrap() is Fraction {
        let i = find_slash(p);
        if i < p.len() {
            let left = spec_parse_int(p.subrange(0, i));
            let right = spec_parse_int(p.subrange(i + 1, p.len() as int));
            if left is Some && right is Some {
                let l = p.subrange(0, i);
                let r = p.subrange(i + 1, p.len() as int);
                if l.len() >= 1 && l[0] == '-' {
                    lemma_digits_value_nonneg(l.drop_first());
                } else {
                    lemma_digits_value_nonneg(l);
                }
                if r.len() >= 1 && r[0] == '-' {
                    lemma_digits_value_nonneg(r.drop_first());
                } else {
                    lemma_digits_value_nonneg(r);
                }
            }
        }
    }
}

/// Every fraction token of a fully parsed sequence of pieces is canonical.
pub proof fn lemma_parse_pieces_wf(ps: Seq<Seq<char>>)
    ensures
        spec_parse_pieces(ps) matches Some(items) ==> formula_fracs_wf(items),
    decreases ps.len(),
{
    if ps.len() > 0 && spec_parse_pieces(ps) is Some {
        lemma_parse_item_wf(ps[0]);
        lemma_parse_pieces_wf(ps.drop_first());
        let items = spec_parse_pieces(ps).unwrap();
        let rest = spec_parse_pieces(ps.drop_first()).unwrap();
        assert forall|i: int|
            0 <= i < items.len() && (#[trigger] items[i]) is Fraction implies items[i].spec_fraction().wf() by {
            if i > 0 {
                assert(items[i] == rest[i - 1]);
            }
        }
    }
}

/// The characters of a string, as a vector.
pub fn str_chars(s: &str) -> (r: Vec<char>)
    ensures
        r@ == s@,
{
    let n = s.unicode_len();
    let mut v: Vec<char> = Vec::new();
    for i in 0..n
        invariant
            n == s@.len(),
            v@ == s@.subrange(0, i as int),
    {
        let c = s.get_char(i);
        v.push(c);
        proof {
            assert(v@ =~= s@.subrange(0, i + 1));
        }
    }
    proof {
        assert(v@ =~= s@);
    }
    v
}

/// The first piece of a split, with `p` put in front of it.
pub open spec fn prepend_first(p: Seq<char>, ss: Seq<Seq<char>>) -> Seq<Seq<char>>
    recommends
        ss.len() >= 1,
{
    seq![p + ss[0]] + ss.drop_first()
}

/// Splits a character vector on single spaces.
pub fn split_spaces(v: &Vec<char>) -> (r: Vec<Vec<char>>)
    ensures
        r@.map_values(|p: Vec<char>| p@) == spec_split(v@),
{
    let n = v.len();
    let mut pieces: Vec<Vec<char>> = Vec::new();
    let mut cur: Vec<char> = Vec::new();
    proof {
        assert(v@.subrange(0, n as int) =~= v@);
    }
    for i in 0..n
        invariant
            n == v@.len(),
            spec_split(v@) == pieces@.map_values(|p: Vec<char>| p@) + prepend_first(
                cur@,
                spec_split(v@.subrange(i as int, n as int)),
            ),
    {
        let ghost rest_i = v@.subrange(i as int, n as int);
        let ghost rest_i1 = v@.subrange(i + 1, n as int);
        proof {
            lemma_split_nonempty(rest_i1);
            assert(rest_i.len() > 0);
            assert(rest_i[0] == v@[i as int]);
            assert(rest_i.drop_first() =~= rest_i1);
        }
        let c = v[i];
        if c == ' ' {
            let ghost old_pieces = pieces@;
            let ghost old_cur = cur@;
            pieces.push(cur);
            cur = Vec::new();
            proof {
                assert(spec_split(rest_i) == seq![Seq::<char>::empty()] + spec_split(rest_i1));
                assert(prepend_first(old_cur, spec_split(rest_i)) =~~= seq![old_cur] + spec_split(
                    rest_i1,
                ));
                assert(prepend_first(cur@, spec_split(rest_i1)) =~~= spec_split(rest_i1));
                assert(pieces@.map_values(|p: Vec<char>| p@) =~~= old_pieces.map_values(
                    |p: Vec<char>| p@,
                ) + seq![old_cur]);
                assert(pieces@.map_values(|p: Vec<char>| p@) + prepend_first(
                    cur@,
                    spec_split(rest_i1),
                ) =~~= old_pieces.map_values(|p: Vec<char>| p@) + prepend_first(
                    old_cur,
                    spec_split(rest_i),
                ));
            }
        } else {
            let ghost old_cur = cur@;
            cur.push(c);
            proof {
                let r = spec_split(rest_i1);
                assert(spec_split(rest_i) == seq![seq![rest_i[0]] + r[0]] + r.drop_first());
                assert(prepend_first(old_cur, spec_split(rest_i)) =~~= seq![old_cur + seq![
                    v@[i as int],
                ] + r[0]] + r.drop_first());
                assert(cur@ =~= old_cur + seq![v@[i as int]]);
                assert(prepend_first(cur@, r) =~~= seq![old_cur + seq![v@[i as int]] + r[0]]
                    + r.drop_first());
            }
        }
    }
    proof {
        let rest_n = v@.subrange(n as int, n as int);
        assert(rest_n =~= Seq::<char>::empty());
        assert(spec_split(rest_n) == seq![Seq::<char>::empty()]);
        assert(prepend_first(cur@, spec_split(rest_n)) =~~= seq![cur@]);
    }
    let ghost old_pieces = pieces@;
    let ghost last_cur = cur@;
    pieces.push(cur);
    proof {
        assert(pieces@.map_values(|p: Vec<char>| p@) =~~= old_pieces.map_values(|p: Vec<char>| p@)
            + seq![last_cur]);
        assert(pieces@.map_values(|p: Vec<char>| p@) =~~= spec_split(v@));
    }
    pieces
}

/// Parses the digit run `p[from..to]` as an unsigned value. `None` exactly
/// when the run is empty, holds a non-digit, or its value exceeds `i64::MAX`.
fn parse_uint(p: &Vec<char>, from: usize, to: usize) -> (r: Option<i64>)
    requires
        from <= to <= p@.len(),
    ensures
        match r {
            Some(v) => {
                &&& p@.subrange(from as int, to as int).len() >= 1
                &&& all_digits(p@.subrange(from as int, to as int))
                &&& 0 <= v == digits_value(p@.subrange(from as int, to as int))
            },
            None => !(p@.subrange(from as int, to as int).len() >= 1 && all_digits(
                p@.subrange(from as int, to as int),
            ) && digits_value(p@.subrange(from as int, to as int)) <= i64::MAX),
        },
{
    let ghost sub = p@.subrange(from as int, to as int);
    if from == to {
        return None;
    }
    let mut acc: i64 = 0;
    let mut j: usize = from;
    while j < to
        invariant
            from <= j <= to <= p@.len(),
            sub == p@.subrange(from as int, to as int),
            all_digits(p@.subrange(from as int, j as int)),
            0 <= acc == digits_value(p@.subrange(from as int, j as int)),
        decreases to - j,
    {
        let ghost pre = p@.subrange(from as int, j as int);
        let ghost pre1 = p@.subrange(from as int, j + 1);
        proof {
            assert(pre1.drop_last() =~= pre);
            assert(pre1.last() == p@[j as int]);
        }
        let c = p[j];
        let u = c as u32;
        if u < 48 || u > 57 {
            proof {
                assert(sub[j - from] == p@[j as int]);
                assert(!is_digit(sub[j - from]));
            }
            return None;
        }
        let d = (u - 48) as i64;
        let next = match acc.checked_mul(10) {
            Some(m) => m.checked_add(d),
            None => None,
        };
        match next {
            Some(v) => {
                acc = v;
            },
            None => {
                proof {
                    assert(digits_value(pre1) > i64::MAX);
                    if all_digits(sub) && digits_value(sub) <= i64::MAX {
                        assert(sub.subrange(0, j + 1 - from) =~= pre1);
                        lemma_digits_value_prefix_le(sub, j + 1 - from);
                    }
                }
                return None;
            },
        }
        j = j + 1;
        proof {
            assert(all_digits(pre1));
        }
    }
    proof {
        assert(p@.subrange(from as int, j as int) =~= sub);
    }
    Some(acc)
}

/// Parses one piece as a token, exactly as `spec_parse_item` states.
pub fn parse_piece(p: &Vec<char>) -> (r: Option<Item>)
    ensures
        r == spec_parse_item(p@),
{
    proof {
        lemma_find_slash_props(p@);
    }
    if p.len() == 1 {
        let c = p[0];
        if c == '+' {
            return Some(Item::Symbol(Symbol::Plus));
        }
        if c == '-' {
            return Some(Item::Symbol(Symbol::Minus));
        }
        if c == '×' {
            return Some(Item::Symbol(Symbol::Times));
        }
        if c == '÷' {
            return Some(Item::Symbol(Symbol::Divided));
        }
    }
    let n = p.len();
    let mut si: usize = 0;
    let mut found = false;
    for k in 0..n
        invariant
            n == p@.len(),
            !found ==> forall|j: int| 0 <= j < k ==> (#[trigger] p@[j]) != '/',
            found ==> si < k && p@[si as int] == '/' && (forall|j: int|
                0 <= j < si ==> (#[trigger] p@[j]) != '/'),
            0 <= find_slash(p@) <= p@.len(),
            forall|j: int| 0 <= j < find_slash(p@) ==> (#[trigger] p@[j]) != '/',
            find_slash(p@) < p@.len() ==> p@[find_slash(p@)] == '/',
    {
        if !found && p[k] == '/' {
            si = k;
            found = true;
        }
    }
    if !found {
        assert(find_slash(p@) >= p@.len());
        return None;
    }
    assert(si == find_slash(p@));
    let ghost left = p@.subrange(0, si as int);
    let ghost right = p@.subrange(si + 1, n as int);
    let (ns, nv) = if si >= 1 && p[0] == '-' {
        proof {
            assert(left[0] == '-');
            assert(left.drop_first() =~= p@.subrange(1, si as int));
        }
        (false, parse_uint(p, 1, si))
    } else {
        (true, parse_uint(p, 0, si))
    };
    let numerator = match nv {
        Some(v) => v,
        None => {
            proof {
                if spec_parse_int(left) is Some {
                    lemma_digits_value_nonneg(if left[0] == '-' {
                        left.drop_first()
                    } else {
                        left
                    });
                }
            }
            return None;
        },
    };
    let (ds, dv) = if si + 1 < n && p[si + 1] == '-' {
        proof {
            assert(right[0] == '-');
            assert(right.drop_first() =~= p@.subrange(si + 2, n as int));
        }
        (false, parse_uint(p, si + 2, n))
    } else {
        (true, parse_uint(p, si + 1, n))
    };
    let denominator = match dv {
        Some(v) => v,
        None => {
            proof {
                if spec_parse_int(right) is Some {
                    lemma_digits_value_nonneg(if right.len() >= 1 && right[0] == '-' {
                        right.drop_first()
                    } else {
                        right
                    });
                }
            }
            return None;
        },
    };
    if denominator == 0 {
        return None;
    }
    let n_neg = !ns && numerator > 0;
    let d_neg = !ds && denominator > 0;
    Some(Item::Fraction(Fraction::new(numerator, denominator, n_neg == d_neg)))
}

/// Whether a token sequence is structurally valid: an odd number of tokens,
/// fractions at even and operator symbols at odd positions.
pub fn check(formula: &Formula) -> (r: bool)
    ensures
        r == formula_wf(formula@),
{
    if formula.len() % 2 == 0 {
        return false;
    }
    let n = formula.len();
    for i in 0..n
        invariant
            n == formula@.len(),
            n % 2 == 1,
            forall|j: int|
                0 <= j < i ==> if j % 2 == 0 {
                    (#[trigger] formula@[j]) is Fraction
                } else {
                    formula@[j] is Symbol
                },
    {
        match formula[i] {
            Item::Fraction(_) => {
                if i % 2 != 0 {
                    return false;
                }
            },
            Item::Symbol(_) => {
                if i % 2 == 0 {
                    return false;
                }
            },
        }
    }
    true
}

/// Tokenizes and validates an input string. Returns the token sequence the
/// string denotes; a malformed piece is a parse error, a sequence that
/// breaks the alternation invariant a validation error.
#[verifier::loop_isolation(false)]
pub fn to_formula(s: &str) -> (r: Result<Formula, EvalError>)
    ensures
        match spec_parse_formula(s@) {
            None => r == Err::<Formula, EvalError>(EvalError::ParseError),
            Some(items) => if formula_wf(items) {
                &&& r matches Ok(v) && v@ == items
                &&& formula_fracs_wf(items)
            } else {
                r == Err::<Formula, EvalError>(EvalError::ValidationError)
            },
        },
{
    let chars = str_chars(s);
    let pieces = split_spaces(&chars);
    let ghost ps = pieces@.map_values(|p: Vec<char>| p@);
    let n = pieces.len();
    proof {
        lemma_parse_pieces_wf(ps);
        assert(ps =~= spec_split(chars@));
        assert(ps.subrange(0, n as int) =~= ps);
        if spec_parse_pieces(ps) is Some {
            assert(Seq::<Item>::empty() + spec_parse_pieces(ps).unwrap() =~= spec_parse_pieces(
                ps,
            ).unwrap());
        }
    }
    let mut formula: Vec<Item> = Vec::new();
    for i in 0..n
        invariant
            n == pieces@.len(),
            ps == pieces@.map_values(|p: Vec<char>| p@),
            spec_parse_pieces(ps) == match spec_parse_pieces(ps.subrange(i as int, n as int)) {
                Some(rest) => Some(formula@ + rest),
                None => None::<Seq<Item>>,
            },
    {
        let ghost rest_i = ps.subrange(i as int, n as int);
        let ghost rest_i1 = ps.subrange(i + 1, n as int);
        proof {
            assert(rest_i[0] == ps[i as int]);
            assert(rest_i.drop_first() =~= rest_i1);
        }
        match parse_piece(&pieces[i]) {
            None => {
                proof {
                    assert(spec_parse_pieces(rest_i) is None);
                }
                return Err(EvalError::ParseError);
            },
            Some(it) => {
                let ghost old_formula = formula@;
                formula.push(it);
                proof {
                    if spec_parse_pieces(rest_i1) is Some {
                        let rest = spec_parse_pieces(rest_i1).unwrap();
                        assert(old_formula + (seq![it] + rest) =~= formula@ + rest);
                    }
                }
            },
        }
    }
    proof {
        let rest_n = ps.subrange(n as int, n as int);
        assert(rest_n =~= Seq::<Seq<char>>::empty());
        assert(spec_parse_pieces(rest_n) == Some(Seq::<Item>::empty()));
        assert(formula@ + Seq::<Item>::empty() =~= formula@);
    }
    if check(&formula) {
        Ok(formula)
    } else {
        Err(EvalError::ValidationError)
    }
}

} // verus!
