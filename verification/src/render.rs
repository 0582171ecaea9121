//! Rendering tokens back to text.
//!
//! A fraction prints as `N/D` (the stored magnitudes; the expression output
//! format carries no sign), an operator symbol as its glyph. Parsing a
//! rendered fraction gives the fraction back.

use crate::fraction::{Fraction, Item, Symbol};
use crate::parse::{
    all_digits, digit_val, digits_value, find_slash, is_digit, lemma_find_slash_props,
    spec_parse_fraction, spec_parse_int, spec_parse_item,
};
use vstd::arithmetic::div_mod::lemma_fundamental_div_mod;
use vstd::prelude::*;
use vstd::string::StringExecFns;

verus! {

/// The digit character for a value `0..=9`.
pub open spec fn digit_char(v: int) -> char
    recommends
        0 <= v <= 9,
{
    ((48 + v) as u32) as char
}

/// The decimal digits of a non-negative value, most significant first.
pub open spec fn spec_digits(n: int) -> Seq<char>
    recommends
        0 <= n,
    decreases n,
{
    if n <= 9 {
        seq![digit_char(n)]
    } else {
        spec_digits(n / 10) + seq![digit_char(n % 10)]
    }
}

/// The text of a canonical fraction: numerator magnitude, a slash, the
/// denominator.
pub open spec fn spec_render_fraction(f: Fraction) -> Seq<char>
    recommends
        f.wf(),
{
    spec_digits(f.numerator as int) + seq!['/'] + spec_digits(f.denominator as int)
}

/// The glyph of an operator symbol.
pub open spec fn symbol_char(s: Symbol) -> char {
    match s {
        Symbol::Plus => '+',
        Symbol::Minus => '-',
        Symbol::Times => '×',
        Symbol::Divided => '÷',
    }
}

/// The text of one token.
pub open spec fn spec_render_item(it: Item) -> Seq<char> {
    match it {
        Item::Fraction(f) => spec_render_fraction(f),
        Item::Symbol(s) => seq![symbol_char(s)],
    }
}

/// A rendered value is made of decimal digits and denotes the value itself.
pub proof fn lemma_digits_of_value(n: int)
    requires
        0 <= n,
    ensures
        spec_digits(n).len() >= 1,
        all_digits(spec_digits(n)),
        digits_value(spec_digits(n)) == n,
    decreases n,
{
    if n <= 9 {
        let s = spec_digits(n);
        assert(s == seq![digit_char(n)]);
        assert(s.len() == 1);
        assert(digits_value(s) == digits_value(s.drop_last()) * 10 + digit_val(s.last()));
        assert(s.drop_last() =~= Seq::<char>::empty());
        assert(digits_value(Seq::<char>::empty()) == 0);
        assert(s.last() == digit_char(n));
        assert(digit_val(digit_char(n)) == n);
    } else {
        lemma_digits_of_value(n / 10);
        let p = spec_digits(n / 10);
        let s = spec_digits(n);
        assert(s == p + seq![digit_char(n % 10)]);
        assert(s.len() == p.len() + 1);
        assert(s.drop_last() =~= p);
        assert(digits_value(s) == digits_value(s.drop_last()) * 10 + digit_val(s.last()));
        assert(s.last() == digit_char(n % 10));
        assert(digit_val(digit_char(n % 10)) == n % 10);
        lemma_fundamental_div_mod(n, 10);
        assert forall|i: int| 0 <= i < s.len() implies is_digit(#[trigger] s[i]) by {
            if i < p.len() {
                assert(s[i] == p[i]);
            }
        }
    }
}

/// Round trip: the rendering `N/D` of a non-negative canonical fraction
/// parses back to exactly that fraction (so parsing a lowest-terms literal
/// `N/D` and rendering the result reproduces the literal).
pub proof fn lemma_parse_render_round_trip(f: Fraction)
    requires
        f.wf(),
        f.sign,
    ensures
        spec_parse_item(spec_render_fraction(f)) == Some(Item::Fraction(f)),
{
    let n: int = f.numerator as int;
    let d: int = f.denominator as int;
    let dn = spec_digits(n);
    let dd = spec_digits(d);
    let s = spec_render_fraction(f);
    lemma_digits_of_value(n);
    lemma_digits_of_value(d);
    lemma_find_slash_props(s);
    assert(s.len() == dn.len() + 1 + dd.len());
    let i0 = dn.len() as int;
    assert(s[i0] == '/');
    assert forall|j: int| 0 <= j < i0 implies (#[trigger] s[j]) != '/' by {
        assert(s[j] == dn[j]);
        assert(is_digit(dn[j]));
    }
    let fs = find_slash(s);
    if fs < i0 {
        assert(s[fs] == '/');
        assert(s[fs] == dn[fs]);
        assert(is_digit(dn[fs]));
        assert(false);
    }
    if fs > i0 {
        assert(s[i0] != '/');
        assert(false);
    }
    assert(fs == i0);
    assert(s.subrange(0, i0) =~= dn);
    assert(s.subrange(i0 + 1, s.len() as int) =~= dd);
    assert(is_digit(dn[0]));
    assert(dn[0] != '-');
    assert(is_digit(dd[0]));
    assert(dd[0] != '-');
    assert(spec_parse_int(dn) == Some((true, n)));
    assert(spec_parse_int(dd) == Some((true, d)));
    assert(spec_parse_fraction(s) == Some(f));
    assert(s.len() != 1);
}

/// The one-character text of a digit value.
fn digit_str(d: i64) -> (r: &'static str)
    requires
        0 <= d <= 9,
    ensures
        r@ =~= seq![digit_char(d as int)],
{
    if d == 0 {
        proof {
            reveal_strlit("0");
        }
        "0"
    } else if d == 1 {
        proof {
            reveal_strlit("1");
        }
        "1"
    } else if d == 2 {
        proof {
            reveal_strlit("2");
        }
        "2"
    } else if d == 3 {
        proof {
            reveal_strlit("3");
        }
        "3"
    } else if d == 4 {
        proof {
            reveal_strlit("4");
        }
        "4"
    } else if d == 5 {
        proof {
            reveal_strlit("5");
        }
        "5"
    } else if d == 6 {
        proof {
            reveal_strlit("6");
        }
        "6"
    } else if d == 7 {
        proof {
            reveal_strlit("7");
        }
        "7"
    } else if d == 8 {
        proof {
            reveal_strlit("8");
        }
        "8"
    } else {
        proof {
            reveal_strlit("9");
        }
        "9"
    }
}

/// The decimal text of a non-negative value.
pub fn render_nat(n: i64) -> (r: String)
    requires
        0 <= n,
    ensures
        r@ == spec_digits(n as int),
    decreases n,
{
    if n <= 9 {
        String::from_str(digit_str(n))
    } else {
        let rest = render_nat(n / 10);
        let r = rest.concat(digit_str(n % 10));
        proof {
            assert(r@ =~= spec_digits(n as int));
        }
        r
    }
}

/// The text `N/D` of a canonical fraction.
pub fn render_fraction(f: &Fraction) -> (r: String)
    requires
        f.wf(),
    ensures
        r@ == spec_render_fraction(*f),
{
    proof {
        reveal_strlit("/");
    }
    let num = render_nat(f.numerator);
    let den = render_nat(f.denominator);
    let r = num.concat("/").concat(den.as_str());
    proof {
        assert(r@ =~= spec_render_fraction(*f));
    }
    r
}

/// The text of one token: `N/D` for a fraction, the glyph for a symbol.
pub fn render_item(it: &Item) -> (r: String)
    requires
        it is Fraction ==> it.spec_fraction().wf(),
    ensures
        r@ == spec_render_item(*it),
{
    match it {
        Item::Fraction(f) => render_fraction(f),
        Item::Symbol(s) => {
            let g: &'static str = match s {
                Symbol::Plus => {
                    proof {
                        reveal_strlit("+");
                    }
                    "+"
                },
                Symbol::Minus => {
                    proof {
                        reveal_strlit("-");
                    }
                    "-"
                },
                Symbol::Times => {
                    proof {
                        reveal_strlit("×");
                    }
                    "×"
                },
                Symbol::Divided => {
                    proof {
                        reveal_strlit("÷");
                    }
                    "÷"
                },
            };
            proof {
                assert(g@ =~= spec_render_item(*it));
            }
            String::from_str(g)
        },
    }
}

} // verus!
