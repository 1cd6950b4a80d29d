# arbitrage_bot

A monitor that compares USDC.e/WAVAX quotes on Trader Joe v1 and Pangolin
(Avalanche C-Chain) and reports round-trip arbitrage opportunities.

- `src/` is the verified library:
  - `uint256`: 256-bit amounts as four 64-bit words; multiplication,
    addition and division go through `ethers-core`'s `U256`.
  - `xyk`: constant-product swap quotes with a fee, and their laws
    (the pool is never drained, the product `x * y` never decreases,
    monotonicity in input and fee).
  - `quotes`: reading router answers, ordering pair reserves, gas cost in wei.
  - `earnings_log`: cutting the earnings log down to its last entries.
  - `monitor`: the block-polling step, the summary timer and the entry limit
    setting.
- `app/main.rs` is the program: RPC calls, files, environment, clock, and the
  floating-point profit and statistics reporting.
- `tests/` runs the library on concrete values, partly against the `ethers`
  arithmetic directly.
