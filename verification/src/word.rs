//! Arithmetic on hash words. A hash word is a `u16`; sums and products wrap at 2^16.

use num_traits::bounds::UpperBounded;
use num_traits::{AsPrimitive, WrappingAdd, WrappingMul, Zero};
use usize_cast::IntoUsize;
use vstd::prelude::*;

verus! {

/// The number of values a hash word can take.
pub open spec fn word_modulus() -> int {
    0x1_0000
}

/// `num_traits::WrappingMul::wrapping_mul` on `u16`: the product, reduced modulo 2^16.
#[verifier::external_body]
pub(crate) fn wrapping_mul(a: u16, b: u16) -> (r: u16)
    ensures
        r == (a * b) % word_modulus(),
{
    WrappingMul::wrapping_mul(&a, &b)
}

/// `num_traits::WrappingAdd::wrapping_add` on `u16`: the sum, reduced modulo 2^16.
#[verifier::external_body]
pub(crate) fn wrapping_add(a: u16, b: u16) -> (r: u16)
    ensures
        r == (a + b) % word_modulus(),
{
    WrappingAdd::wrapping_add(&a, &b)
}

/// `usize_cast::IntoUsize::into_usize` on `u16`: the same number as a `usize`.
#[verifier::external_body]
pub(crate) fn into_usize(w: u16) -> (r: usize)
    ensures
        r == w,
{
    IntoUsize::into_usize(w)
}

/// `num_traits::AsPrimitive::as_` from `usize` to `u16`: the number reduced modulo 2^16,
/// which is what an `as` cast keeps.
#[verifier::external_body]
pub(crate) fn from_usize(n: usize) -> (r: u16)
    ensures
        r == (n as int) % word_modulus(),
{
    AsPrimitive::<u16>::as_(n)
}

/// `num_traits::bounds::UpperBounded::max_value` for `u16`: the largest hash word.
#[verifier::external_body]
pub(crate) fn max_word() -> (r: u16)
    ensures
        r == word_modulus() - 1,
{
    <u16 as UpperBounded>::max_value()
}

/// `num_traits::Zero::zero` for `u16`.
#[verifier::external_body]
pub(crate) fn zero_word() -> (r: u16)
    ensures
        r == 0,
{
    <u16 as Zero>::zero()
}

} // verus!
