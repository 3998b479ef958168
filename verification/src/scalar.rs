//! The scalar domain: 64-bit words read as IEEE-754 binary64 bit patterns.
//!
//! The verifier does not model floating-point arithmetic, so the operations
//! on scalars are capabilities injected by the embedding program, in the
//! spirit of the injected activation function: a [`ScalarOps`]
//! implementation interprets the words (the intended implementation is
//! native double precision), and a [`ScalarSampler`] draws random scalars.
//! Each `ScalarOps` operation is required, by its contract, to be a pure
//! function of its operands, which is what makes evaluation deterministic.

use vstd::prelude::*;

verus! {

/// The arithmetic, the activation function and the decimal text form of
/// scalars. All operations are total and must behave as pure functions of
/// their arguments: the executable methods are tied one-to-one to
/// specification-level functions. Each specification-level function
/// carries a placeholder default so that an embedding program outside
/// the verifier can implement the executable methods alone; an
/// implementation seen by the verifier describes its operations by
/// overriding them.
///
/// An implementation fixes one activation function, so a network's
/// activation is chosen by the `ScalarOps` type it is used with.
pub trait ScalarOps {
    /// The sum of two scalars.
    open spec fn spec_add(a: u64, b: u64) -> u64 {
        0
    }

    /// The difference of two scalars.
    open spec fn spec_sub(a: u64, b: u64) -> u64 {
        0
    }

    /// The product of two scalars.
    open spec fn spec_mul(a: u64, b: u64) -> u64 {
        0
    }

    /// The quotient of two scalars.
    open spec fn spec_div(a: u64, b: u64) -> u64 {
        0
    }

    /// The strict order on scalars.
    open spec fn spec_lt(a: u64, b: u64) -> bool {
        false
    }

    /// The scalar that stands for the count `n`.
    open spec fn spec_of_count(n: usize) -> u64 {
        0
    }

    /// The activation function.
    open spec fn spec_activation(x: u64) -> u64 {
        0
    }

    /// Whether an analytic derivative of the activation is supplied.
    open spec fn provides_derivative() -> bool {
        false
    }

    /// The analytic derivative of the activation, where one is supplied.
    open spec fn spec_derivative(x: u64) -> u64 {
        0
    }

    /// The decimal text form of a scalar, as ASCII bytes.
    open spec fn spec_render(x: u64) -> Seq<u8> {
        Seq::empty()
    }

    /// The scalar denoted by a decimal literal, or `None` for a malformed
    /// literal.
    open spec fn spec_parse(s: Seq<u8>) -> Option<u64> {
        None
    }

    fn add(a: u64, b: u64) -> (r: u64)
        ensures
            r == Self::spec_add(a, b),
    ;

    fn sub(a: u64, b: u64) -> (r: u64)
        ensures
            r == Self::spec_sub(a, b),
    ;

    fn mul(a: u64, b: u64) -> (r: u64)
        ensures
            r == Self::spec_mul(a, b),
    ;

    fn div(a: u64, b: u64) -> (r: u64)
        ensures
            r == Self::spec_div(a, b),
    ;

    fn lt(a: u64, b: u64) -> (r: bool)
        ensures
            r == Self::spec_lt(a, b),
    ;

    fn of_count(n: usize) -> (r: u64)
        ensures
            r == Self::spec_of_count(n),
    ;

    fn activation(x: u64) -> (r: u64)
        ensures
            r == Self::spec_activation(x),
    ;

    fn has_derivative() -> (r: bool)
        ensures
            r == Self::provides_derivative(),
    ;

    fn derivative(x: u64) -> (r: u64)
        ensures
            r == Self::spec_derivative(x),
    ;

    fn render(x: u64) -> (r: Vec<u8>)
        ensures
            r@ == Self::spec_render(x),
    ;

    fn parse(s: &[u8]) -> (r: Option<u64>)
        ensures
            r == Self::spec_parse(s@),
    ;
}

/// A source of random scalars. Nothing is promised of the draws: every
/// result that depends on them is stated so that it holds for any outcome.
pub trait ScalarSampler {
    /// A draw meant to lie in the half-open unit interval.
    fn sample_unit(&mut self) -> u64;

    /// A draw meant to lie between the two given scalars.
    fn sample_range(&mut self, lo: u64, hi: u64) -> u64;
}

/// Whether a scalar is finite: an IEEE-754 binary64 word is an infinity or
/// a NaN exactly when its eleven exponent bits are all ones.
pub open spec fn spec_is_finite(x: u64) -> bool {
    x & 0x7ff0000000000000u64 != 0x7ff0000000000000u64
}

/// Decides finiteness of a scalar by its exponent field.
pub fn is_finite(x: u64) -> (r: bool)
    ensures
        r == spec_is_finite(x),
{
    x & 0x7ff0000000000000u64 != 0x7ff0000000000000u64
}

/// Copies a vector of scalars element by element.
pub fn copy_scalars(v: &Vec<u64>) -> (r: Vec<u64>)
    ensures
        r@ == v@,
{
    let mut r: Vec<u64> = Vec::new();
    let mut i: usize = 0;
    while i < v.len()
        invariant
            0 <= i <= v@.len(),
            r@.len() == i,
            forall|k: int| 0 <= k < i ==> #[trigger] r@[k] == v@[k],
        decreases v@.len() - i,
    {
        r.push(v[i]);
        i += 1;
    }
    proof {
        assert(r@ =~= v@);
    }
    r
}

/// Whether every scalar of a sequence is finite.
pub open spec fn spec_all_finite(s: Seq<u64>) -> bool {
    forall|i: int| 0 <= i < s.len() ==> spec_is_finite(#[trigger] s[i])
}

/// Decides whether every scalar of a vector is finite.
pub fn all_finite(v: &Vec<u64>) -> (r: bool)
    ensures
        r == spec_all_finite(v@),
{
    let mut i: usize = 0;
    while i < v.len()
        invariant
            0 <= i <= v@.len(),
            forall|j: int| 0 <= j < i ==> spec_is_finite(#[trigger] v@[j]),
        decreases v@.len() - i,
    {
        if !is_finite(v[i]) {
            return false;
        }
        i += 1;
    }
    true
}

} // verus!
