# solana_dlmm_meteora

Deterministic integer swap math for a bin-based dynamic liquidity market
maker (DLMM), written in Verus: every public function carries a contract
that states its result exactly, and the contracts are proved.

Layout of `src/`:

- `u128x128_math` — multiply-then-divide with a 256-bit intermediate
  product (`Rounding`, `mul_div`, `mul_shr`, `shl_div`).
- `full_math` — the checked `u64` helpers `safe_mul_shr_u64`,
  `safe_shl_div_u64`, `safe_mul_div_u64`.
- `bin_math` — bin id to Q64.64 price (`pow`, `get_price_from_id`) and the
  laws that prices sit on the right side of 1.0, never decrease with the
  bin id, and strictly increase with it for bin ids within ±2000 and bin
  steps of 1 to 100 basis points.
- `dynamic_fee` — pool parameters, the volatility state machine and the fee
  computations, with laws on fees.
- `swap_math` — per-bin primitives (`BinView`, amount conversions through a
  price, limit-order layers).
- `swap_full` — the per-bin swap steps and the exact-in / exact-out swaps
  across a sorted slice of bins.
- `swap_laws` — properties of the swaps: output (exact-in) and requested
  output (exact-out) bounded by the liquidity in reach, protocol fee within
  fee, fee within input, what a swap leaves unchanged, that a bin with no
  output liquidity swaps like an absent one, and that an exact-out swap
  resolves unpriced bins from their ids.
- `error` — `ErrorCode` and the `Result` alias.

`tests/` exercises the library on concrete values; `app/` gives the error
type `Display` and `std::error::Error`, which the verified crate cannot
implement.
