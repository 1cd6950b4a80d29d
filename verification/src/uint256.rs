//! 256-bit unsigned amounts, held as four little-endian 64-bit words.
//!
//! Multiplication, addition and division are carried out by the
//! `U256` type of `ethers-core`; the library only moves words in and out.
use ethers_core::types::U256;
use vstd::prelude::*;

verus! {

/// 2^64, the weight of one word.
pub open spec fn word_base() -> nat {
    0x1_0000_0000_0000_0000nat
}

/// 2^128.
pub open spec fn two_pow_128() -> nat {
    0x1_0000_0000_0000_0000_0000_0000_0000_0000nat
}

/// 2^256: every amount is below this bound.
pub open spec fn u256_modulus() -> nat {
    0x1_0000_0000_0000_0000_0000_0000_0000_0000_0000_0000_0000_0000_0000_0000_0000_0000nat
}

/// A 256-bit unsigned amount in raw token units: `w0` is the least
/// significant word and `w3` the most significant one.
#[derive(Clone, Copy, Debug, PartialEq, Eq, Structural)]
pub struct U256Value {
    pub w0: u64,
    pub w1: u64,
    pub w2: u64,
    pub w3: u64,
}

impl View for U256Value {
    type V = nat;

    /// The number that the four words denote.
    open spec fn view(&self) -> nat {
        self.w0 as nat + word_base() * (self.w1 as nat + word_base() * (self.w2 as nat
            + word_base() * self.w3 as nat))
    }
}

/// Every amount lies in `[0, 2^256)`.
pub proof fn lemma_u256_bounded(x: U256Value)
    ensures
        x@ < u256_modulus(),
{
    let b = word_base() as int;
    let w0 = x.w0 as int;
    let w1 = x.w1 as int;
    let w2 = x.w2 as int;
    let w3 = x.w3 as int;
    assert(w0 + b * (w1 + b * (w2 + b * w3)) < b * b * b * b) by (nonlinear_arith)
        requires
            b == 0x1_0000_0000_0000_0000int,
            0 <= w0 < b,
            0 <= w1 < b,
            0 <= w2 < b,
            0 <= w3 < b,
    ;
    assert(b * b * b * b == u256_modulus());
}

impl U256Value {
    /// The amount zero.
    pub fn zero() -> (r: U256Value)
        ensures
            r@ == 0,
    {
        U256Value { w0: 0, w1: 0, w2: 0, w3: 0 }
    }

    /// Builds an amount from its four little-endian words.
    pub fn from_words(w0: u64, w1: u64, w2: u64, w3: u64) -> (r: U256Value)
        ensures
            r == (U256Value { w0, w1, w2, w3 }),
    {
        U256Value { w0, w1, w2, w3 }
    }

    /// The amount `x`.
    pub fn from_u64(x: u64) -> (r: U256Value)
        ensures
            r@ == x,
    {
        U256Value { w0: x, w1: 0, w2: 0, w3: 0 }
    }

    /// The amount `x`: its low 64 bits go to `w0`, its high 64 bits to `w1`.
    pub fn from_u128(x: u128) -> (r: U256Value)
        ensures
            r@ == x,
    {
        let lo = x as u64;
        let hi = (x >> 64u32) as u64;
        proof {
            assert(lo as u128 == x % 0x1_0000_0000_0000_0000u128) by (bit_vector)
                requires
                    lo == x as u64,
            ;
            assert(hi as u128 == x / 0x1_0000_0000_0000_0000u128) by (bit_vector)
                requires
                    hi == (x >> 64u32) as u64,
            ;
            vstd::arithmetic::div_mod::lemma_fundamental_div_mod(
                x as int,
                0x1_0000_0000_0000_0000int,
            );
        }
        U256Value { w0: lo, w1: hi, w2: 0, w3: 0 }
    }

    /// Whether the amount is zero.
    pub fn is_zero(&self) -> (b: bool)
        ensures
            b == (self@ == 0),
    {
        proof {
            let b = word_base() as int;
            assert((self.w1 > 0 || self.w2 > 0 || self.w3 > 0) ==> self@ > 0) by (nonlinear_arith)
                requires
                    b > 0,
                    self@ == self.w0 as int + b * (self.w1 as int + b * (self.w2 as int + b
                        * self.w3 as int)),
                    self.w0 >= 0,
                    self.w1 >= 0,
                    self.w2 >= 0,
                    self.w3 >= 0,
            ;
        }
        self.w0 == 0 && self.w1 == 0 && self.w2 == 0 && self.w3 == 0
    }

    /// The amount as a `u128`; the amount must be below 2^128.
    pub fn to_u128(&self) -> (r: u128)
        requires
            self@ < two_pow_128(),
        ensures
            r == self@,
    {
        proof {
            let b = word_base() as int;
            let high = self.w2 as int + b * self.w3 as int;
            vstd::arithmetic::mul::lemma_mul_nonnegative(b, self.w3 as int);
            if high > 0 {
                assert(b * b * high >= b * b) by (nonlinear_arith)
                    requires
                        high >= 1,
                        b > 0,
                ;
                assert(self@ >= b * (b * high)) by (nonlinear_arith)
                    requires
                        self@ == self.w0 as int + b * (self.w1 as int + b * high),
                        self.w0 >= 0,
                        self.w1 >= 0,
                        b > 0,
                ;
                assert(b * (b * high) == b * b * high) by (nonlinear_arith);
                assert(false);
            }
            assert(self.w2 == 0 && self.w3 == 0) by (nonlinear_arith)
                requires
                    high == 0,
                    high == self.w2 as int + b * self.w3 as int,
                    b > 0,
                    self.w2 >= 0,
                    self.w3 >= 0,
            ;
        }
        let lo = self.w0 as u128;
        let hi = self.w1 as u128;
        proof {
            assert(hi * 0x1_0000_0000_0000_0000u128 + lo <= u128::MAX) by (nonlinear_arith)
                requires
                    hi < 0x1_0000_0000_0000_0000u128,
                    lo < 0x1_0000_0000_0000_0000u128,
            ;
        }
        hi * 0x1_0000_0000_0000_0000u128 + lo
    }
}

/// Calls `U256::checked_mul` of `ethers-core` (the `uint` crate's
/// `construct_uint!` type). Claimed: the product is returned when it is
/// below 2^256, and `None` when it overflows.
#[verifier::external_body]
pub(crate) fn u256_checked_mul(a: U256Value, b: U256Value) -> (r: Option<U256Value>)
    ensures
        r is Some <==> a@ * b@ < u256_modulus(),
        r matches Some(v) ==> v@ == a@ * b@,
{
    let x = U256([a.w0, a.w1, a.w2, a.w3]);
    let y = U256([b.w0, b.w1, b.w2, b.w3]);
    match x.checked_mul(y) {
        Some(v) => Some(U256Value { w0: v.0[0], w1: v.0[1], w2: v.0[2], w3: v.0[3] }),
        None => None,
    }
}

/// Calls `U256::checked_add` of `ethers-core`. Claimed: the sum is
/// returned when it is below 2^256, and `None` when it overflows.
#[verifier::external_body]
pub(crate) fn u256_checked_add(a: U256Value, b: U256Value) -> (r: Option<U256Value>)
    ensures
        r is Some <==> a@ + b@ < u256_modulus(),
        r matches Some(v) ==> v@ == a@ + b@,
{
    let x = U256([a.w0, a.w1, a.w2, a.w3]);
    let y = U256([b.w0, b.w1, b.w2, b.w3]);
    match x.checked_add(y) {
        Some(v) => Some(U256Value { w0: v.0[0], w1: v.0[1], w2: v.0[2], w3: v.0[3] }),
        None => None,
    }
}

/// Calls the `*` operator of `ethers-core`'s `U256`, which panics on
/// overflow; `requires` leaves overflowing products out. Claimed: the
/// result is the exact product.
#[verifier::external_body]
pub(crate) fn u256_mul(a: U256Value, b: U256Value) -> (r: U256Value)
    requires
        a@ * b@ < u256_modulus(),
    ensures
        r@ == a@ * b@,
{
    let x = U256([a.w0, a.w1, a.w2, a.w3]);
    let y = U256([b.w0, b.w1, b.w2, b.w3]);
    let v = x * y;
    U256Value { w0: v.0[0], w1: v.0[1], w2: v.0[2], w3: v.0[3] }
}

/// Calls the `/` operator of `ethers-core`'s `U256` (its `div_mod`), which
/// panics on a zero divisor; `requires` leaves that out. Claimed: the
/// result is the quotient rounded down.
#[verifier::external_body]
pub(crate) fn u256_div(a: U256Value, b: U256Value) -> (r: U256Value)
    requires
        b@ > 0,
    ensures
        r@ == a@ / b@,
{
    let x = U256([a.w0, a.w1, a.w2, a.w3]);
    let y = U256([b.w0, b.w1, b.w2, b.w3]);
    let v = x / y;
    U256Value { w0: v.0[0], w1: v.0[1], w2: v.0[2], w3: v.0[3] }
}

} // verus!
