//! Signed references to Boolean variables.
//!
//! A literal is a variable index (0-based, derived from a 1-based external
//! identifier) together with a polarity bit. Negation flips the polarity
//! only. Every literal has a dense non-negative code suitable for direct
//! array indexing: positive literals get even codes, negative ones odd.

use vstd::prelude::*;

verus! {

/// Errors raised while loading raw integer clauses.
#[derive(Debug, Clone, Copy, PartialEq, Eq, Structural)]
pub enum SatError {
    /// A zero-valued literal appeared in the input clause list.
    InvalidLiteral,
}

/// A literal: a variable index plus a polarity bit (`neg` set means the
/// variable appears negated).
#[derive(Debug, Clone, Copy, PartialEq, Eq, Structural)]
pub struct Lit {
    pub var: usize,
    pub neg: bool,
}

impl Lit {
    /// The dense code of this literal, as a mathematical integer:
    /// `2 * var` for a positive literal, `2 * var + 1` for a negative one.
    pub open spec fn cs(self) -> int {
        2 * self.var + if self.neg {
            1int
        } else {
            0int
        }
    }

    /// The complement of this literal: same variable, flipped polarity.
    pub open spec fn spec_negate(self) -> Lit {
        Lit { var: self.var, neg: !self.neg }
    }

    /// Negation flips the polarity bit and nothing else.
    #[verifier::when_used_as_spec(spec_negate)]
    pub fn negate(self) -> (r: Lit)
        ensures
            r == self.spec_negate(),
    {
        Lit { var: self.var, neg: !self.neg }
    }

    /// Builds a literal from a signed 1-based identifier: the sign is the
    /// polarity, the magnitude minus one is the variable index. Zero is
    /// invalid input.
    pub fn from_dimacs(x: i32) -> (r: Result<Lit, SatError>)
        ensures
            r is Ok <==> x != 0,
            x != 0 ==> r == Ok::<Lit, SatError>(spec_lit_of_dimacs(x as int)),
            x == 0 ==> r == Err::<Lit, SatError>(SatError::InvalidLiteral),
    {
        if x == 0 {
            Err(SatError::InvalidLiteral)
        } else if x > 0 {
            Ok(Lit { var: (x - 1) as usize, neg: false })
        } else {
            let mag: i64 = -(x as i64);
            Ok(Lit { var: (mag - 1) as usize, neg: true })
        }
    }

    /// The variable index.
    pub fn index(&self) -> (r: usize)
        ensures
            r == self.var,
    {
        self.var
    }

    /// True when the literal is the plain (unnegated) variable.
    pub fn is_positive(&self) -> (r: bool)
        ensures
            r == !self.neg,
    {
        !self.neg
    }

    /// True when the literal is the negated variable.
    pub fn is_negative(&self) -> (r: bool)
        ensures
            r == self.neg,
    {
        self.neg
    }

    /// The dense code, executable form.
    pub fn code(&self) -> (r: usize)
        requires
            2 * self.var + 1 <= usize::MAX,
        ensures
            r == self.cs(),
    {
        2 * self.var + if self.neg {
            1
        } else {
            0
        }
    }
}

/// The literal encoded by a nonzero signed 1-based identifier.
pub open spec fn spec_lit_of_dimacs(x: int) -> Lit {
    if x > 0 {
        Lit { var: (x - 1) as usize, neg: false }
    } else {
        Lit { var: (-x - 1) as usize, neg: true }
    }
}

/// The literal whose dense code is `c`.
pub open spec fn lit_of_code(c: int) -> Lit {
    Lit { var: (c / 2) as usize, neg: c % 2 == 1 }
}

/// A literal is recovered from its own code.
pub proof fn lemma_code_roundtrip(l: Lit)
    ensures
        lit_of_code(l.cs()) == l,
{
}

/// Negation is an involution: negating a literal twice gives the literal
/// back.
pub proof fn lemma_negate_involutive(l: Lit)
    ensures
        l.spec_negate().spec_negate() == l,
{
}

/// Distinct literals have distinct codes, and a literal and its complement
/// never share a code.
pub proof fn lemma_code_injective(a: Lit, b: Lit)
    ensures
        a.cs() == b.cs() ==> a == b,
        a.cs() == a.spec_negate().cs() ==> false,
{
}

} // verus!
