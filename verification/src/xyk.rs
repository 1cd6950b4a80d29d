//! Constant-product (x * y = k) swap quotes with a fee in basis points.
use crate::uint256::{
    u256_checked_add, u256_checked_mul, u256_div, u256_modulus, u256_mul, U256Value,
};
use vstd::arithmetic::div_mod::{
    lemma_div_by_multiple, lemma_div_is_ordered, lemma_div_pos_is_pos, lemma_fundamental_div_mod,
    lemma_mod_bound,
};
use vstd::prelude::*;

verus! {

/// Basis points in one whole: a fee of `fee_bps` keeps
/// `(BASIS_POINTS - fee_bps) / BASIS_POINTS` of the input.
pub const BASIS_POINTS: u64 = 10000;

/// Why a quote could not be computed.
#[derive(Clone, Copy, Debug, PartialEq, Eq, Structural)]
pub enum XykError {
    /// One of the two reserves is zero.
    ZeroReserve,
    /// `reserve_out * amount_in_after_fee` does not fit in 256 bits.
    NumeratorOverflow,
    /// `reserve_in + amount_in_after_fee` does not fit in 256 bits.
    DenominatorOverflow,
    /// The denominator came out zero.
    ZeroDenominator,
}

impl XykError {
    /// The message that the monitor reports for this error.
    pub fn message(&self) -> (m: &'static str)
        ensures
            m@ == xyk_error_message(*self),
    {
        match self {
            XykError::ZeroReserve => "Reserves cannot be zero",
            XykError::NumeratorOverflow => "Overflow in numerator calculation",
            XykError::DenominatorOverflow => "Overflow in denominator calculation",
            XykError::ZeroDenominator => "Denominator is zero",
        }
    }
}

/// The message of each error.
pub open spec fn xyk_error_message(e: XykError) -> Seq<char> {
    match e {
        XykError::ZeroReserve => "Reserves cannot be zero"@,
        XykError::NumeratorOverflow => "Overflow in numerator calculation"@,
        XykError::DenominatorOverflow => "Overflow in denominator calculation"@,
        XykError::ZeroDenominator => "Denominator is zero"@,
    }
}

/// The part of the input that reaches the pool once the fee is taken,
/// rounded down: `amount_in * (10000 - fee_bps) / 10000`.
pub open spec fn input_after_fee(amount_in: nat, fee_bps: nat) -> nat {
    amount_in * (10000 - fee_bps) as nat / 10000
}

/// The constant-product output, rounded down:
/// `reserve_out * a / (reserve_in + a)` with `a` the input after the fee.
pub open spec fn xyk_amount_out(reserve_in: nat, reserve_out: nat, amount_in: nat, fee_bps: nat) -> nat {
    let a = input_after_fee(amount_in, fee_bps);
    reserve_out * a / (reserve_in + a)
}

/// What `calculate_xyk_amount_out` gives back, with the amounts as numbers.
pub open spec fn xyk_outcome(reserve_in: nat, reserve_out: nat, amount_in: nat, fee_bps: nat) -> Result<nat, XykError> {
    if reserve_in == 0 || reserve_out == 0 {
        Err(XykError::ZeroReserve)
    } else if amount_in == 0 {
        Ok(0)
    } else {
        let a = input_after_fee(amount_in, fee_bps);
        if reserve_out * a >= u256_modulus() {
            Err(XykError::NumeratorOverflow)
        } else if reserve_in + a >= u256_modulus() {
            Err(XykError::DenominatorOverflow)
        } else {
            Ok(xyk_amount_out(reserve_in, reserve_out, amount_in, fee_bps))
        }
    }
}

/// Output of a swap of `amount_in` against a constant-product pool with
/// reserves `reserve_in` / `reserve_out` and a fee of `fee_bps` basis points
/// (30 = 0.3%). All amounts are raw token units.
pub fn calculate_xyk_amount_out(
    reserve_in: U256Value,
    reserve_out: U256Value,
    amount_in: U256Value,
    fee_bps: u16,
) -> (r: Result<U256Value, XykError>)
    requires
        reserve_in@ > 0 && reserve_out@ > 0 && amount_in@ > 0 ==> fee_bps <= BASIS_POINTS
            && amount_in@ * (BASIS_POINTS - fee_bps) < u256_modulus(),
    ensures
        match r {
            Ok(v) => xyk_outcome(reserve_in@, reserve_out@, amount_in@, fee_bps as nat) == Ok::<
                nat,
                XykError,
            >(v@),
            Err(e) => xyk_outcome(reserve_in@, reserve_out@, amount_in@, fee_bps as nat) == Err::<
                nat,
                XykError,
            >(e),
        },
{
    if reserve_in.is_zero() || reserve_out.is_zero() {
        return Err(XykError::ZeroReserve);
    }
    if amount_in.is_zero() {
        return Ok(U256Value::zero());
    }
    let fee_multiplier = U256Value::from_u64(BASIS_POINTS - fee_bps as u64);
    let scaled = u256_mul(amount_in, fee_multiplier);
    let amount_in_after_fee = u256_div(scaled, U256Value::from_u64(BASIS_POINTS));
    assert(amount_in_after_fee@ == input_after_fee(amount_in@, fee_bps as nat));
    let numerator = match u256_checked_mul(reserve_out, amount_in_after_fee) {
        Some(n) => n,
        None => {
            return Err(XykError::NumeratorOverflow);
        },
    };
    let denominator = match u256_checked_add(reserve_in, amount_in_after_fee) {
        Some(d) => d,
        None => {
            return Err(XykError::DenominatorOverflow);
        },
    };
    if denominator.is_zero() {
        return Err(XykError::ZeroDenominator);
    }
    Ok(u256_div(numerator, denominator))
}

/// Floor division characterised: `q * d <= n` exactly when `q <= n / d`.
proof fn lemma_floor_div(n: int, d: int, q: int)
    requires
        n >= 0,
        d > 0,
        q >= 0,
    ensures
        q * d <= n <==> q <= n / d,
        (n / d) * d <= n,
        n / d >= 0,
{
    lemma_fundamental_div_mod(n, d);
    lemma_mod_bound(n, d);
    lemma_div_pos_is_pos(n, d);
    let f = n / d;
    assert(f * d == d * f) by (nonlinear_arith);
    if q * d <= n {
        if q > f {
            assert(q * d >= (f + 1) * d) by (nonlinear_arith)
                requires
                    q >= f + 1,
                    d > 0,
            ;
            assert((f + 1) * d == f * d + d) by (nonlinear_arith);
        }
    }
    if q <= f {
        assert(q * d <= f * d) by (nonlinear_arith)
            requires
                q <= f,
                d > 0,
        ;
    }
}

/// The input after the fee never exceeds the input.
proof fn lemma_input_after_fee(amount_in: nat, fee_bps: nat)
    requires
        fee_bps <= 10000,
    ensures
        input_after_fee(amount_in, fee_bps) <= amount_in,
{
    let k = (10000 - fee_bps) as nat;
    assert(amount_in * k <= amount_in * 10000) by (nonlinear_arith)
        requires
            k <= 10000,
    ;
    lemma_div_is_ordered((amount_in * k) as int, (amount_in * 10000) as int, 10000);
    lemma_div_by_multiple(amount_in as int, 10000);
}

/// With `reserve_in > 0`, the ratio `reserve_out * a / (reserve_in + a)`
/// is at most `reserve_out` and does not shrink when `a` grows.
proof fn lemma_ratio(reserve_in: nat, reserve_out: nat, a1: nat, a2: nat)
    requires
        reserve_in > 0,
        a1 <= a2,
    ensures
        reserve_out * a1 / (reserve_in + a1) <= reserve_out,
        reserve_out * a1 / (reserve_in + a1) <= reserve_out * a2 / (reserve_in + a2),
{
    let d1 = (reserve_in + a1) as int;
    let d2 = (reserve_in + a2) as int;
    let n1 = (reserve_out * a1) as int;
    let n2 = (reserve_out * a2) as int;
    let q = n1 / d1;
    lemma_floor_div(n1, d1, q);
    assert(reserve_out * d1 >= n1) by (nonlinear_arith)
        requires
            d1 == reserve_in + a1,
            n1 == reserve_out * a1,
            reserve_in > 0,
    ;
    assert(q * d1 <= n1);
    assert(q <= reserve_out) by (nonlinear_arith)
        requires
            q * d1 <= n1,
            n1 <= reserve_out * d1,
            d1 > 0,
    ;
    assert(q * d2 == q * d1 + q * (a2 - a1)) by (nonlinear_arith)
        requires
            d2 == d1 + (a2 - a1),
    ;
    assert(q * (a2 - a1) <= reserve_out * (a2 - a1)) by (nonlinear_arith)
        requires
            q <= reserve_out,
            a2 >= a1,
    ;
    assert(n2 == n1 + reserve_out * (a2 - a1)) by (nonlinear_arith)
        requires
            n1 == reserve_out * a1,
            n2 == reserve_out * a2,
    ;
    lemma_floor_div(n2, d2, q);
}

/// A quote never drains the pool: with both reserves positive the output
/// is strictly below `reserve_out`.
pub proof fn law_output_below_reserve_out(reserve_in: nat, reserve_out: nat, amount_in: nat, fee_bps: nat)
    requires
        reserve_in > 0,
        reserve_out > 0,
        fee_bps <= 10000,
    ensures
        xyk_amount_out(reserve_in, reserve_out, amount_in, fee_bps) < reserve_out,
{
    let a = input_after_fee(amount_in, fee_bps);
    let d = (reserve_in + a) as int;
    let n = (reserve_out * a) as int;
    lemma_floor_div(n, d, reserve_out as int);
    assert(reserve_out * d > n) by (nonlinear_arith)
        requires
            d == reserve_in + a,
            n == reserve_out * a,
            reserve_in > 0,
            reserve_out > 0,
    ;
    let q = n / d;
    if q >= reserve_out {
        assert(q * d >= reserve_out * d) by (nonlinear_arith)
            requires
                q >= reserve_out,
                d > 0,
        ;
    }
}

/// The constant product never decreases: after the swap,
/// `(reserve_in + amount_in) * (reserve_out - amount_out)` is at least
/// `reserve_in * reserve_out`.
pub proof fn law_constant_product_never_decreases(
    reserve_in: nat,
    reserve_out: nat,
    amount_in: nat,
    fee_bps: nat,
)
    requires
        reserve_in > 0,
        fee_bps <= 10000,
    ensures
        xyk_amount_out(reserve_in, reserve_out, amount_in, fee_bps) <= reserve_out,
        (reserve_in + amount_in) * (reserve_out - xyk_amount_out(
            reserve_in,
            reserve_out,
            amount_in,
            fee_bps,
        )) >= reserve_in * reserve_out,
{
    let a = input_after_fee(amount_in, fee_bps);
    lemma_input_after_fee(amount_in, fee_bps);
    lemma_ratio(reserve_in, reserve_out, a, a);
    let out = xyk_amount_out(reserve_in, reserve_out, amount_in, fee_bps);
    let d = (reserve_in + a) as int;
    let n = (reserve_out * a) as int;
    lemma_floor_div(n, d, out as int);
    assert(out * d <= n);
    assert((reserve_in + amount_in) * (reserve_out - out) >= reserve_in * reserve_out)
        by (nonlinear_arith)
        requires
            out * d <= n,
            d == reserve_in + a,
            n == reserve_out * a,
            a <= amount_in,
            out <= reserve_out,
    ;
}

/// A larger input never gets a smaller output.
pub proof fn law_output_monotone_in_input(
    reserve_in: nat,
    reserve_out: nat,
    amount_in_1: nat,
    amount_in_2: nat,
    fee_bps: nat,
)
    requires
        reserve_in > 0,
        fee_bps <= 10000,
        amount_in_1 <= amount_in_2,
    ensures
        xyk_amount_out(reserve_in, reserve_out, amount_in_1, fee_bps) <= xyk_amount_out(
            reserve_in,
            reserve_out,
            amount_in_2,
            fee_bps,
        ),
{
    let k = (10000 - fee_bps) as nat;
    assert(amount_in_1 * k <= amount_in_2 * k) by (nonlinear_arith)
        requires
            amount_in_1 <= amount_in_2,
    ;
    lemma_div_is_ordered((amount_in_1 * k) as int, (amount_in_2 * k) as int, 10000);
    lemma_ratio(
        reserve_in,
        reserve_out,
        input_after_fee(amount_in_1, fee_bps),
        input_after_fee(amount_in_2, fee_bps),
    );
}

/// A higher fee never gets a larger output.
pub proof fn law_output_monotone_in_fee(
    reserve_in: nat,
    reserve_out: nat,
    amount_in: nat,
    fee_bps_low: nat,
    fee_bps_high: nat,
)
    requires
        reserve_in > 0,
        fee_bps_low <= fee_bps_high <= 10000,
    ensures
        xyk_amount_out(reserve_in, reserve_out, amount_in, fee_bps_high) <= xyk_amount_out(
            reserve_in,
            reserve_out,
            amount_in,
            fee_bps_low,
        ),
{
    let k_low = (10000 - fee_bps_low) as nat;
    let k_high = (10000 - fee_bps_high) as nat;
    assert(amount_in * k_high <= amount_in * k_low) by (nonlinear_arith)
        requires
            k_high <= k_low,
    ;
    lemma_div_is_ordered((amount_in * k_high) as int, (amount_in * k_low) as int, 10000);
    lemma_ratio(
        reserve_in,
        reserve_out,
        input_after_fee(amount_in, fee_bps_high),
        input_after_fee(amount_in, fee_bps_low),
    );
}

/// Without a fee the quote is the plain constant-product formula
/// `reserve_out * amount_in / (reserve_in + amount_in)`.
pub proof fn law_fee_free_quote(reserve_in: nat, reserve_out: nat, amount_in: nat)
    ensures
        xyk_amount_out(reserve_in, reserve_out, amount_in, 0) == reserve_out * amount_in / (
        reserve_in + amount_in),
{
    lemma_div_by_multiple(amount_in as int, 10000);
}

/// The quote is the largest output that keeps the product from falling:
/// with `a` the input after the fee, `(reserve_in + a) * (reserve_out - out)`
/// stays at least `reserve_in * reserve_out`, and one unit more would not.
pub proof fn law_output_is_largest_keeping_product(
    reserve_in: nat,
    reserve_out: nat,
    amount_in: nat,
    fee_bps: nat,
)
    requires
        reserve_in > 0,
        fee_bps <= 10000,
    ensures
        ({
            let a = input_after_fee(amount_in, fee_bps);
            let out = xyk_amount_out(reserve_in, reserve_out, amount_in, fee_bps);
            &&& (reserve_in + a) * (reserve_out - out) >= reserve_in * reserve_out
            &&& (reserve_in + a) * (reserve_out - out - 1) < reserve_in * reserve_out
        }),
{
    let a = input_after_fee(amount_in, fee_bps);
    let out = xyk_amount_out(reserve_in, reserve_out, amount_in, fee_bps);
    let d = (reserve_in + a) as int;
    let n = (reserve_out * a) as int;
    lemma_fundamental_div_mod(n, d);
    lemma_mod_bound(n, d);
    assert(out == n / d);
    assert(d * out + n % d == n);
    assert((reserve_in + a) * (reserve_out - out) >= reserve_in * reserve_out) by (nonlinear_arith)
        requires
            d * out <= n,
            d == reserve_in + a,
            n == reserve_out * a,
    ;
    assert((reserve_in + a) * (reserve_out - out - 1) < reserve_in * reserve_out) by (nonlinear_arith)
        requires
            d * out + d > n,
            d == reserve_in + a,
            n == reserve_out * a,
    ;
}

/// A quote never beats the spot rate `reserve_out / reserve_in`:
/// `out * reserve_in <= reserve_out * amount_in`.
pub proof fn law_output_within_spot_rate(
    reserve_in: nat,
    reserve_out: nat,
    amount_in: nat,
    fee_bps: nat,
)
    requires
        reserve_in > 0,
        fee_bps <= 10000,
    ensures
        xyk_amount_out(reserve_in, reserve_out, amount_in, fee_bps) * reserve_in <= reserve_out
            * amount_in,
{
    let a = input_after_fee(amount_in, fee_bps);
    let out = xyk_amount_out(reserve_in, reserve_out, amount_in, fee_bps);
    let d = (reserve_in + a) as int;
    let n = (reserve_out * a) as int;
    lemma_input_after_fee(amount_in, fee_bps);
    lemma_floor_div(n, d, out as int);
    assert(out * d <= n);
    assert(out * reserve_in <= reserve_out * amount_in) by (nonlinear_arith)
        requires
            out * d <= n,
            d == reserve_in + a,
            n == reserve_out * a,
            a <= amount_in,
            out >= 0,
    ;
}

/// A fee of the whole input (10000 basis points) leaves nothing to swap.
pub proof fn law_full_fee_gives_nothing(reserve_in: nat, reserve_out: nat, amount_in: nat)
    requires
        reserve_in > 0,
    ensures
        xyk_amount_out(reserve_in, reserve_out, amount_in, 10000) == 0,
{
    assert(((10000 - 10000nat) as nat) == 0);
    assert(amount_in * 0 == 0);
    assert(0nat / 10000 == 0);
    assert(input_after_fee(amount_in, 10000) == 0);
    assert(reserve_out * 0 == 0);
}

/// What a quote gives, in plain arithmetic: zero reserves are refused
/// whatever the fee and input; a zero input gives zero whatever the fee;
/// otherwise, with `a = amount_in * (10000 - fee_bps) / 10000` taken whole,
/// the quote succeeds exactly when `reserve_out * a` and `reserve_in + a`
/// both stay below 2^256, and then it is `reserve_out * a / (reserve_in + a)`.
pub proof fn law_quote_in_plain_arithmetic(
    reserve_in: nat,
    reserve_out: nat,
    amount_in: nat,
    fee_bps: nat,
)
    ensures
        reserve_in == 0 || reserve_out == 0 ==> xyk_outcome(reserve_in, reserve_out, amount_in, fee_bps)
            == Err::<nat, XykError>(XykError::ZeroReserve),
        reserve_in > 0 && reserve_out > 0 && amount_in == 0 ==> xyk_outcome(
            reserve_in,
            reserve_out,
            amount_in,
            fee_bps,
        ) == Ok::<nat, XykError>(0),
        reserve_in > 0 && reserve_out > 0 && amount_in > 0 && fee_bps <= 10000 ==> ({
            let a = amount_in * (10000 - fee_bps) / 10000;
            let m = 0x1_0000_0000_0000_0000_0000_0000_0000_0000_0000_0000_0000_0000_0000_0000_0000_0000int;
            &&& (xyk_outcome(reserve_in, reserve_out, amount_in, fee_bps) is Ok <==> (reserve_out * a < m
                && reserve_in + a < m))
            &&& (reserve_out * a < m && reserve_in + a < m ==> xyk_outcome(
                reserve_in,
                reserve_out,
                amount_in,
                fee_bps,
            ) == Ok::<nat, XykError>((reserve_out * a / (reserve_in + a)) as nat))
        }),
{
    assert(u256_modulus() == 0x1_0000_0000_0000_0000_0000_0000_0000_0000_0000_0000_0000_0000_0000_0000_0000_0000int);
    if reserve_in > 0 && reserve_out > 0 && amount_in > 0 && fee_bps <= 10000 {
        assert(input_after_fee(amount_in, fee_bps) == amount_in * (10000 - fee_bps) / 10000);
    }
}

} // verus!
