use arbitrage_bot::quotes::{
    gas_cost_wei, orient_reserves, quoted_amount_out, PairError, TokenAddress,
};
use arbitrage_bot::uint256::U256Value;
use arbitrage_bot::xyk::{calculate_xyk_amount_out, XykError};
use ethers_core::types::U256;

fn value(x: U256) -> U256Value {
    U256Value::from_words(x.0[0], x.0[1], x.0[2], x.0[3])
}

fn ethers(x: U256Value) -> U256 {
    U256([x.w0, x.w1, x.w2, x.w3])
}

fn dec(s: &str) -> U256Value {
    value(U256::from_dec_str(s).unwrap())
}

/// The quote as the monitor computed it with `ethers` amounts.
fn reference_quote(reserve_in: U256, reserve_out: U256, amount_in: U256, fee_bps: u16) -> Option<U256> {
    if reserve_in.is_zero() || reserve_out.is_zero() {
        return None;
    }
    if amount_in.is_zero() {
        return Some(U256::zero());
    }
    let after_fee = (amount_in * U256::from(10000u64 - fee_bps as u64)) / U256::from(10000u64);
    let numerator = reserve_out.checked_mul(after_fee)?;
    let denominator = reserve_in.checked_add(after_fee)?;
    Some(numerator / denominator)
}

#[test]
fn xyk_documented_example() {
    // 1000 USDC.e into a pool of 1,000,000 USDC.e and 50,000 WAVAX at 0.3%.
    let reserve_in = U256Value::from_u64(1_000_000_000_000);
    let reserve_out = dec("50000000000000000000000");
    let amount_in = U256Value::from_u64(1_000_000_000);
    let out = calculate_xyk_amount_out(reserve_in, reserve_out, amount_in, 30).unwrap();
    assert_eq!(ethers(out), U256::from_dec_str("49800349051995160824").unwrap());
}

#[test]
fn xyk_zero_input_gives_zero() {
    let r = calculate_xyk_amount_out(
        U256Value::from_u64(1000),
        U256Value::from_u64(2000),
        U256Value::zero(),
        30,
    );
    assert_eq!(r, Ok(U256Value::zero()));
}

#[test]
fn xyk_zero_reserve_is_refused() {
    let r = calculate_xyk_amount_out(U256Value::zero(), U256Value::from_u64(5), U256Value::from_u64(7), 30);
    assert_eq!(r, Err(XykError::ZeroReserve));
    let r = calculate_xyk_amount_out(U256Value::from_u64(5), U256Value::zero(), U256Value::from_u64(7), 30);
    assert_eq!(r, Err(XykError::ZeroReserve));
    assert_eq!(XykError::ZeroReserve.message(), "Reserves cannot be zero");
}

#[test]
fn xyk_numerator_overflow_is_refused() {
    let huge = value(U256::MAX / U256::from(2u64));
    let r = calculate_xyk_amount_out(
        U256Value::from_u64(1),
        huge,
        U256Value::from_u64(1_000_000),
        0,
    );
    assert_eq!(r, Err(XykError::NumeratorOverflow));
    assert_eq!(XykError::NumeratorOverflow.message(), "Overflow in numerator calculation");
}

#[test]
fn xyk_denominator_overflow_is_refused() {
    let reserve_in = value(U256::MAX - U256::from(10u64));
    let r = calculate_xyk_amount_out(
        reserve_in,
        U256Value::from_u64(1),
        U256Value::from_u64(1_000_000),
        0,
    );
    assert_eq!(r, Err(XykError::DenominatorOverflow));
    assert_eq!(XykError::DenominatorOverflow.message(), "Overflow in denominator calculation");
    assert_eq!(XykError::ZeroDenominator.message(), "Denominator is zero");
}

#[test]
fn xyk_fee_free_quote_is_plain_formula() {
    // 100 into 1000 / 1000 without fee: 1000 * 100 / 1100 = 90.
    let out = calculate_xyk_amount_out(
        U256Value::from_u64(1000),
        U256Value::from_u64(1000),
        U256Value::from_u64(100),
        0,
    )
    .unwrap();
    assert_eq!(out, U256Value::from_u64(90));
}

#[test]
fn xyk_matches_reference_on_many_inputs() {
    let mut seed: u64 = 0x9e37_79b9_7f4a_7c15;
    for _ in 0..500 {
        seed = seed.wrapping_mul(6364136223846793005).wrapping_add(1442695040888963407);
        let ri = U256::from(seed % 1_000_000_000_000_000_000) + U256::from(1u64);
        seed = seed.wrapping_mul(6364136223846793005).wrapping_add(1442695040888963407);
        let ro = U256::from(seed) * U256::from(1_000_000u64) + U256::from(1u64);
        seed = seed.wrapping_mul(6364136223846793005).wrapping_add(1442695040888963407);
        let ai = U256::from(seed % 10_000_000_000_000);
        let fee = (seed % 10001) as u16;
        let ours = calculate_xyk_amount_out(value(ri), value(ro), value(ai), fee).ok().map(ethers);
        assert_eq!(ours, reference_quote(ri, ro, ai, fee));
    }
}

#[test]
fn xyk_laws_on_concrete_values() {
    let ri = 1_000_000u64;
    let ro = 3_000_000u64;
    let q = |ai: u64, fee: u16| {
        calculate_xyk_amount_out(
            U256Value::from_u64(ri),
            U256Value::from_u64(ro),
            U256Value::from_u64(ai),
            fee,
        )
        .unwrap()
        .to_u128()
    };
    // never drains the pool, even for a huge input
    assert!(q(u64::MAX / 10_000, 30) < ro as u128);
    // monotone in the input and in the fee
    assert!(q(1000, 30) <= q(2000, 30));
    assert!(q(5000, 100) <= q(5000, 30));
    // the constant product never decreases
    let out = q(250_000, 30);
    assert!((ri as u128 + 250_000) * (ro as u128 - out) >= ri as u128 * ro as u128);
}

#[test]
fn quote_needs_two_amounts() {
    assert_eq!(quoted_amount_out(&vec![]), None);
    assert_eq!(quoted_amount_out(&vec![U256Value::from_u64(5)]), None);
    assert_eq!(
        quoted_amount_out(&vec![U256Value::from_u64(5), U256Value::from_u64(9)]),
        Some(U256Value::from_u64(9))
    );
}

#[test]
fn gas_cost_is_price_times_limit() {
    let price = U256Value::from_u64(25_000_000_000);
    assert_eq!(gas_cost_wei(price, 250_000), 6_250_000_000_000_000u128);
    let big = U256Value::from_u128(1u128 << 100);
    assert_eq!(gas_cost_wei(big, 1000), (1u128 << 100) * 1000);
}

#[test]
fn u256_words_round_trip() {
    let x = 0x1234_5678_9abc_def0_0fed_cba9_8765_4321u128;
    let v = U256Value::from_u128(x);
    assert_eq!(ethers(v), U256::from(x));
    assert_eq!(v.to_u128(), x);
    assert!(U256Value::zero().is_zero());
    assert!(!U256Value::from_words(0, 0, 0, 1).is_zero());
}

fn addr(n: u64) -> TokenAddress {
    TokenAddress::from_words(0, 0, n)
}

#[test]
fn reserves_follow_the_direction() {
    let (a, b, c) = (addr(1), addr(2), addr(3));
    let forward = orient_reserves(a, b, a, b, 10, 20).unwrap();
    assert_eq!(forward, (U256Value::from_u64(10), U256Value::from_u64(20)));
    let backward = orient_reserves(b, a, a, b, 10, 20).unwrap();
    assert_eq!(backward, (U256Value::from_u64(20), U256Value::from_u64(10)));
    assert_eq!(orient_reserves(a, c, a, b, 10, 20), Err(PairError::TokenMismatch));
}

#[test]
fn xyk_answers_before_fee_arithmetic() {
    // Zero reserves and zero input are answered for any fee, even one
    // above 10000 basis points.
    let r = calculate_xyk_amount_out(U256Value::zero(), U256Value::from_u64(5), U256Value::from_u64(7), 20000);
    assert_eq!(r, Err(XykError::ZeroReserve));
    let r = calculate_xyk_amount_out(U256Value::from_u64(5), U256Value::from_u64(5), U256Value::zero(), 20000);
    assert_eq!(r, Ok(U256Value::zero()));
}

#[test]
fn xyk_largest_output_within_spot_rate() {
    let (ri, ro, ai, fee) = (700_000u128, 1_300_000u128, 45_678u128, 30u16);
    let out = calculate_xyk_amount_out(
        U256Value::from_u128(ri),
        U256Value::from_u128(ro),
        U256Value::from_u128(ai),
        fee,
    )
    .unwrap()
    .to_u128();
    let a = ai * (10000 - fee as u128) / 10000;
    assert!((ri + a) * (ro - out) >= ri * ro);
    assert!((ri + a) * (ro - out - 1) < ri * ro);
    assert!(out * ri <= ro * ai);
    let full = calculate_xyk_amount_out(
        U256Value::from_u128(ri),
        U256Value::from_u128(ro),
        U256Value::from_u128(ai),
        10000,
    );
    assert_eq!(full, Ok(U256Value::zero()));
}
