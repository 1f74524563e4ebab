//! The numeric types a graph can be built over.
//!
//! A [`Scalar`] is a type whose values stand for integers and whose
//! arithmetic is integer arithmetic carried through that correspondence:
//! a quotient ring of the integers. The fixed-width integers with wrapping
//! arithmetic are the instances provided here.

use vstd::prelude::*;
use vstd::arithmetic::div_mod::{
    lemma_add_mod_noop, lemma_mod_multiples_vanish, lemma_mul_mod_noop,
};

verus! {

/// A numeric type with an additive identity, a multiplicative identity,
/// addition and multiplication.
///
/// `as_int` gives the integer a value stands for and `from_int` reduces an
/// integer to the value that stands for it. The three laws make `from_int` a
/// ring homomorphism onto the type, so sums and products of values can be
/// reasoned about as sums and products of integers.
pub trait Scalar: Copy {
    /// The integer this value stands for.
    spec fn as_int(self) -> int;

    /// The value that stands for the integer `x`.
    spec fn from_int(x: int) -> Self;

    /// Every value is the reduction of its own integer.
    proof fn lemma_from_as_int(v: Self)
        ensures
            Self::from_int(v.as_int()) == v,
    ;

    /// Reducing a summand early does not change the reduced sum.
    proof fn lemma_add_congruent(x: int, y: int)
        ensures
            Self::from_int(Self::from_int(x).as_int() + y) == Self::from_int(x + y),
    ;

    /// Reducing a factor early does not change the reduced product.
    proof fn lemma_mul_congruent(x: int, y: int)
        ensures
            Self::from_int(Self::from_int(x).as_int() * y) == Self::from_int(x * y),
    ;

    /// The additive identity.
    fn zero() -> (r: Self)
        ensures
            r == Self::from_int(0),
    ;

    /// The multiplicative identity.
    fn one() -> (r: Self)
        ensures
            r == Self::from_int(1),
    ;

    /// The sum of two values.
    fn plus(self, rhs: Self) -> (r: Self)
        ensures
            r == Self::from_int(self.as_int() + rhs.as_int()),
    ;

    /// The product of two values.
    fn times(self, rhs: Self) -> (r: Self)
        ensures
            r == Self::from_int(self.as_int() * rhs.as_int()),
    ;
}

/// The sum of two reduced integers is the reduction of their sum.
pub proof fn lemma_sum_of_reduced<T: Scalar>(x: int, y: int)
    ensures
        T::from_int(T::from_int(x).as_int() + T::from_int(y).as_int()) == T::from_int(x + y),
{
    T::lemma_add_congruent(x, T::from_int(y).as_int());
    T::lemma_add_congruent(y, x);
}

/// The product of a reduced integer and a value is the reduction of the
/// product of the integers they stand for.
pub proof fn lemma_product_of_reduced<T: Scalar>(x: int, v: T)
    ensures
        T::from_int(T::from_int(x).as_int() * v.as_int()) == T::from_int(x * v.as_int()),
{
    T::lemma_mul_congruent(x, v.as_int());
}

/// The number of values of `i32`.
pub open spec fn range_i32() -> int {
    0x1_0000_0000
}

/// The `i32` congruent to `x` modulo two to the 32nd.
pub open spec fn wrap_i32(x: int) -> i32 {
    let r = x % range_i32();
    if r > i32::MAX {
        (r - range_i32()) as i32
    } else {
        r as i32
    }
}

/// `wrap_i32(x)` differs from `x` by a multiple of the range.
pub proof fn lemma_wrap_i32_congruent(x: int)
    ensures
        (wrap_i32(x) as int) % range_i32() == x % range_i32(),
{
    let r = x % range_i32();
    if r > i32::MAX {
        lemma_mod_multiples_vanish(-1, r, range_i32());
    }
}

/// Calls `num::Zero::zero` for `i32`. That it returns `0` is taken from the
/// source of num-traits, where the impl returns that literal; it is not
/// proved here.
#[verifier::external_body]
fn num_zero_i32() -> (r: i32)
    ensures
        r == 0,
{
    <i32 as num::Zero>::zero()
}

/// Calls `num::One::one` for `i32`. That it returns `1` is taken from the
/// source of num-traits, where the impl returns that literal; it is not
/// proved here.
#[verifier::external_body]
fn num_one_i32() -> (r: i32)
    ensures
        r == 1,
{
    <i32 as num::One>::one()
}

impl Scalar for i32 {
    open spec fn as_int(self) -> int {
        self as int
    }

    open spec fn from_int(x: int) -> i32 {
        wrap_i32(x)
    }

    proof fn lemma_from_as_int(v: i32) {
    }

    proof fn lemma_add_congruent(x: int, y: int) {
        let m = range_i32();
        lemma_wrap_i32_congruent(x);
        lemma_add_mod_noop(wrap_i32(x) as int, y, m);
        lemma_add_mod_noop(x, y, m);
    }

    proof fn lemma_mul_congruent(x: int, y: int) {
        let m = range_i32();
        lemma_wrap_i32_congruent(x);
        lemma_mul_mod_noop(wrap_i32(x) as int, y, m);
        lemma_mul_mod_noop(x, y, m);
    }

    fn zero() -> (r: i32) {
        num_zero_i32()
    }

    fn one() -> (r: i32) {
        num_one_i32()
    }

    fn plus(self, rhs: i32) -> (r: i32) {
        self.wrapping_add(rhs)
    }

    fn times(self, rhs: i32) -> (r: i32) {
        self.wrapping_mul(rhs)
    }
}

/// The number of values of `i64`.
pub open spec fn range_i64() -> int {
    0x1_0000_0000_0000_0000
}

/// The `i64` congruent to `x` modulo two to the 64th.
pub open spec fn wrap_i64(x: int) -> i64 {
    let r = x % range_i64();
    if r > i64::MAX {
        (r - range_i64()) as i64
    } else {
        r as i64
    }
}

/// `wrap_i64(x)` differs from `x` by a multiple of the range.
pub proof fn lemma_wrap_i64_congruent(x: int)
    ensures
        (wrap_i64(x) as int) % range_i64() == x % range_i64(),
{
    let r = x % range_i64();
    if r > i64::MAX {
        lemma_mod_multiples_vanish(-1, r, range_i64());
    }
}

/// Calls `num::Zero::zero` for `i64`. That it returns `0` is taken from the
/// source of num-traits, where the impl returns that literal; it is not
/// proved here.
#[verifier::external_body]
fn num_zero_i64() -> (r: i64)
    ensures
        r == 0,
{
    <i64 as num::Zero>::zero()
}

/// Calls `num::One::one` for `i64`. That it returns `1` is taken from the
/// source of num-traits, where the impl returns that literal; it is not
/// proved here.
#[verifier::external_body]
fn num_one_i64() -> (r: i64)
    ensures
        r == 1,
{
    <i64 as num::One>::one()
}

impl Scalar for i64 {
    open spec fn as_int(self) -> int {
        self as int
    }

    open spec fn from_int(x: int) -> i64 {
        wrap_i64(x)
    }

    proof fn lemma_from_as_int(v: i64) {
    }

    proof fn lemma_add_congruent(x: int, y: int) {
        let m = range_i64();
        lemma_wrap_i64_congruent(x);
        lemma_add_mod_noop(wrap_i64(x) as int, y, m);
        lemma_add_mod_noop(x, y, m);
    }

    proof fn lemma_mul_congruent(x: int, y: int) {
        let m = range_i64();
        lemma_wrap_i64_congruent(x);
        lemma_mul_mod_noop(wrap_i64(x) as int, y, m);
        lemma_mul_mod_noop(x, y, m);
    }

    fn zero() -> (r: i64) {
        num_zero_i64()
    }

    fn one() -> (r: i64) {
        num_one_i64()
    }

    fn plus(self, rhs: i64) -> (r: i64) {
        self.wrapping_add(rhs)
    }

    fn times(self, rhs: i64) -> (r: i64) {
        self.wrapping_mul(rhs)
    }
}

} // verus!
