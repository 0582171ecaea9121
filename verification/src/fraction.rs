//! The token types of an expression: fractions, operator symbols, and the
//! tagged union of the two.

use vstd::prelude::*;

verus! {

/// An operator symbol of the expression grammar.
#[derive(Clone, Copy, PartialEq, Eq, Structural, Debug)]
pub enum Symbol {
    Plus,
    Minus,
    Times,
    Divided,
}

/// A signed rational number in canonical form: a non-negative numerator
/// magnitude, a positive denominator, and a separate sign flag
/// (`true` means non-negative).
#[derive(Clone, Copy, PartialEq, Eq, Structural, Debug)]
pub struct Fraction {
    pub numerator: i64,
    pub denominator: i64,
    pub sign: bool,
}

/// One token of an expression: a fraction or an operator symbol.
#[derive(Clone, Copy, PartialEq, Eq, Structural, Debug)]
pub enum Item {
    Symbol(Symbol),
    Fraction(Fraction),
}

/// An expression: an ordered sequence of tokens.
pub type Formula = Vec<Item>;

impl Fraction {
    /// Canonical form: non-negative numerator magnitude, positive denominator.
    pub open spec fn wf(self) -> bool {
        0 <= self.numerator && 1 <= self.denominator
    }

    /// The numerator with the sign applied.
    pub open spec fn signed(self) -> int {
        if self.sign {
            self.numerator as int
        } else {
            -(self.numerator as int)
        }
    }

    pub fn new(numerator: i64, denominator: i64, sign: bool) -> (r: Fraction)
        ensures
            r == (Fraction { numerator, denominator, sign }),
    {
        Fraction { numerator, denominator, sign }
    }
}

impl Item {
    /// The fraction a spec-level token holds (meaningful only on fractions).
    pub open spec fn spec_fraction(self) -> Fraction {
        match self {
            Item::Fraction(f) => f,
            Item::Symbol(_) => Fraction { numerator: 0, denominator: 1, sign: true },
        }
    }

    /// The symbol a spec-level token holds (meaningful only on symbols).
    pub open spec fn spec_symbol(self) -> Symbol {
        match self {
            Item::Symbol(s) => s,
            Item::Fraction(_) => Symbol::Plus,
        }
    }

    pub fn fraction(&self) -> (r: Fraction)
        requires
            self is Fraction,
        ensures
            r == self.spec_fraction(),
    {
        match self {
            Item::Fraction(f) => *f,
            Item::Symbol(_) => Fraction { numerator: 0, denominator: 1, sign: true },
        }
    }

    pub fn symbol(&self) -> (r: Symbol)
        requires
            self is Symbol,
        ensures
            r == self.spec_symbol(),
    {
        match self {
            Item::Symbol(s) => *s,
            Item::Fraction(_) => Symbol::Plus,
        }
    }
}

/// Wraps a fraction in canonical parts as a token.
pub fn fraction(numerator: i64, denominator: i64, sign: bool) -> (r: Item)
    ensures
        r == Item::Fraction(Fraction { numerator, denominator, sign }),
{
    Item::Fraction(Fraction::new(numerator, denominator, sign))
}

/// A token that is a multiplication or division symbol.
pub open spec fn is_high(it: Item) -> bool {
    it == Item::Symbol(Symbol::Times) || it == Item::Symbol(Symbol::Divided)
}

/// The structural invariant of an expression: odd length, fractions at even
/// positions, operator symbols at odd positions.
pub open spec fn formula_wf(s: Seq<Item>) -> bool {
    &&& s.len() % 2 == 1
    &&& forall|i: int|
        0 <= i < s.len() ==> if i % 2 == 0 {
            (#[trigger] s[i]) is Fraction
        } else {
            s[i] is Symbol
        }
}

/// Validation rejects an even-length sequence, and any sequence in which
/// two fractions or two operator symbols stand next to each other.
pub proof fn lemma_wf_rejections(s: Seq<Item>, i: int)
    ensures
        s.len() % 2 == 0 ==> !formula_wf(s),
        0 <= i && i + 1 < s.len() && s[i] is Fraction && s[i + 1] is Fraction ==> !formula_wf(s),
        0 <= i && i + 1 < s.len() && s[i] is Symbol && s[i + 1] is Symbol ==> !formula_wf(s),
{
    if formula_wf(s) && 0 <= i && i + 1 < s.len() {
        if i % 2 == 0 {
            assert(s[i] is Fraction);
            assert(s[i + 1] is Symbol);
        } else {
            assert(s[i] is Symbol);
            assert(s[i + 1] is Fraction);
        }
    }
}

/// Every fraction token of the sequence is in canonical form.
pub open spec fn formula_fracs_wf(s: Seq<Item>) -> bool {
    forall|i: int|
        0 <= i < s.len() && (#[trigger] s[i]) is Fraction ==> s[i].spec_fraction().wf()
}

} // verus!
