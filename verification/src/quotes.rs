//! Reading router quotes and pair reserves, and the gas cost of a swap.
use crate::uint256::{two_pow_128, u256_modulus, u256_mul, U256Value};
use vstd::prelude::*;

verus! {

/// The amount that a router quote gives for the last hop: a
/// `getAmountsOut` answer for a two-token path holds the input first and
/// the output second. Shorter answers carry no output.
pub fn quoted_amount_out(amounts: &Vec<U256Value>) -> (r: Option<U256Value>)
    ensures
        r == (if amounts@.len() >= 2 {
            Some(amounts@[1])
        } else {
            None::<U256Value>
        }),
{
    if amounts.len() >= 2 {
        Some(amounts[1])
    } else {
        None
    }
}

/// Cost in wei of `gas_limit` gas at `gas_price` wei per gas. The product
/// must fit in 128 bits.
pub fn gas_cost_wei(gas_price: U256Value, gas_limit: u64) -> (r: u128)
    requires
        gas_price@ * gas_limit < two_pow_128(),
    ensures
        r == gas_price@ * gas_limit,
{
    let limit = U256Value::from_u64(gas_limit);
    assert(gas_price@ * gas_limit < u256_modulus());
    let total = u256_mul(gas_price, limit);
    total.to_u128()
}

/// A 160-bit account or token address, as three big-endian words:
/// `high` holds bytes 0..4, `middle` bytes 4..12 and `low` bytes 12..20.
#[derive(Clone, Copy, Debug, PartialEq, Eq, Structural)]
pub struct TokenAddress {
    pub high: u32,
    pub middle: u64,
    pub low: u64,
}

impl TokenAddress {
    /// Builds an address from its three words.
    pub fn from_words(high: u32, middle: u64, low: u64) -> (r: TokenAddress)
        ensures
            r == (TokenAddress { high, middle, low }),
    {
        TokenAddress { high, middle, low }
    }
}

/// The pair's tokens are not the two tokens asked for.
#[derive(Clone, Copy, Debug, PartialEq, Eq, Structural)]
pub enum PairError {
    TokenMismatch,
}

/// The reserves of a pair, ordered as `(reserve of token_in, reserve of
/// token_out)`, for a pair whose tokens are `token0` and `token1` with
/// reserves `reserve0` and `reserve1`; `None` when the pair holds other
/// tokens. The order `token0, token1` is tried first.
pub open spec fn pair_orientation(
    token_in: TokenAddress,
    token_out: TokenAddress,
    token0: TokenAddress,
    token1: TokenAddress,
    reserve0: nat,
    reserve1: nat,
) -> Option<(nat, nat)> {
    if token_in == token0 && token_out == token1 {
        Some((reserve0, reserve1))
    } else if token_in == token1 && token_out == token0 {
        Some((reserve1, reserve0))
    } else {
        None
    }
}

/// Orders the reserves of a pair for a swap from `token_in` to `token_out`.
pub fn orient_reserves(
    token_in: TokenAddress,
    token_out: TokenAddress,
    token0: TokenAddress,
    token1: TokenAddress,
    reserve0: u128,
    reserve1: u128,
) -> (r: Result<(U256Value, U256Value), PairError>)
    ensures
        match r {
            Ok((reserve_in, reserve_out)) => pair_orientation(
                token_in,
                token_out,
                token0,
                token1,
                reserve0 as nat,
                reserve1 as nat,
            ) == Some((reserve_in@, reserve_out@)),
            Err(e) => e == PairError::TokenMismatch && pair_orientation(
                token_in,
                token_out,
                token0,
                token1,
                reserve0 as nat,
                reserve1 as nat,
            ) is None,
        },
{
    let r0 = U256Value::from_u128(reserve0);
    let r1 = U256Value::from_u128(reserve1);
    if token_in == token0 && token_out == token1 {
        Ok((r0, r1))
    } else if token_in == token1 && token_out == token0 {
        Ok((r1, r0))
    } else {
        Err(PairError::TokenMismatch)
    }
}

/// For a pair of two distinct tokens, asking for the opposite direction
/// gives the same two reserves, swapped.
pub proof fn law_reverse_direction_swaps_reserves(
    token_in: TokenAddress,
    token_out: TokenAddress,
    token0: TokenAddress,
    token1: TokenAddress,
    reserve0: nat,
    reserve1: nat,
)
    requires
        token0 != token1,
    ensures
        pair_orientation(token_in, token_out, token0, token1, reserve0, reserve1) matches Some(
            (x, y),
        ) ==> pair_orientation(token_out, token_in, token0, token1, reserve0, reserve1) == Some(
            (y, x),
        ),
        pair_orientation(token_in, token_out, token0, token1, reserve0, reserve1) is None
            <==> pair_orientation(token_out, token_in, token0, token1, reserve0, reserve1) is None,
{
}

/// For a pair of two distinct tokens: asking in the pair's own order gives
/// `(reserve0, reserve1)`, asking in the opposite order gives
/// `(reserve1, reserve0)`, and asking for any other two tokens gives nothing.
pub proof fn law_orientation_of_a_pair(
    token_in: TokenAddress,
    token_out: TokenAddress,
    token0: TokenAddress,
    token1: TokenAddress,
    reserve0: nat,
    reserve1: nat,
)
    requires
        token0 != token1,
    ensures
        pair_orientation(token0, token1, token0, token1, reserve0, reserve1) == Some((reserve0, reserve1)),
        pair_orientation(token1, token0, token0, token1, reserve0, reserve1) == Some((reserve1, reserve0)),
        !((token_in == token0 && token_out == token1) || (token_in == token1 && token_out == token0))
            ==> pair_orientation(token_in, token_out, token0, token1, reserve0, reserve1) is None,
{
}

} // verus!
