//! Floating-point arithmetic on decimal text, supplied by the embedding
//! program. The verified core carries `FLOAT` values as text and never
//! computes with the host's binary floating point itself: the language's
//! float operations are delegated through this trait. Its methods carry no
//! contract — nothing is claimed or proved about float results, and the
//! interpreter's specifications say only that such an operation yields a
//! `FLOAT`-tagged (or boolean) value.

use vstd::prelude::*;

verus! {

/// The float operations the interpreter needs: binary arithmetic, square
/// root, and the four numeric comparisons, all over the decimal texts of
/// the operands.
pub trait FloatArith {
    /// The text of the sum of the two numbers the texts denote.
    fn float_add(&self, a: &str, b: &str) -> String;

    /// The text of the difference of the two numbers the texts denote.
    fn float_sub(&self, a: &str, b: &str) -> String;

    /// The text of the product of the two numbers the texts denote.
    fn float_mul(&self, a: &str, b: &str) -> String;

    /// The text of the quotient of the two numbers the texts denote.
    fn float_div(&self, a: &str, b: &str) -> String;

    /// The text of the remainder of the two numbers the texts denote.
    fn float_rem(&self, a: &str, b: &str) -> String;

    /// The text of the square root of the number the text denotes.
    fn float_sqrt(&self, a: &str) -> String;

    /// Whether the first number is smaller.
    fn float_lt(&self, a: &str, b: &str) -> bool;

    /// Whether the first number is smaller or the two are equal.
    fn float_le(&self, a: &str, b: &str) -> bool;

    /// Whether the first number is greater.
    fn float_gt(&self, a: &str, b: &str) -> bool;

    /// Whether the first number is greater or the two are equal.
    fn float_ge(&self, a: &str, b: &str) -> bool;
}

} // verus!
