//! Verified core of a two-exchange arbitrage monitor: constant-product
//! quote arithmetic on 256-bit amounts, reserve orientation, gas-cost
//! arithmetic, earnings-log trimming and the block-polling decisions.

pub mod uint256;
pub mod xyk;
pub mod quotes;
pub mod monitor;
pub mod earnings_log;
