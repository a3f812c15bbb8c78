# oraiswap_v3

The storage, queries and incentive accounting of the oraiswap v3
concentrated-liquidity contract on CosmWasm, with its zapper and incentives
fund manager, written as a library whose functions carry contracts that Verus
proves. The swap and position handlers are not part of it.

## Layout

- `src/` — the verified library.
  - `kv.rs`: tables keyed by byte strings, with ordered listings.
  - `types.rs`, `tickmap.rs`, `bits.rs`, `sqrt_price.rs`, `token_amount.rs`:
    fixed-point quantities, fee tiers and pool keys, the tickmap layout, the
    square root of the price at a tick, and token amounts.
  - `state.rs`: the contract's storage (bitmap, ticks, positions, position
    tokens, pools, settings, operators) and the operations on it.
  - `query.rs`: the contract's read-only queries.
  - `incentive.rs`: reward streams and their growth.
  - `asset.rs`, `storage.rs`, `interface.rs`, `msg.rs`, `error.rs`: the data
    the contract stores, sends and answers with.
  - `contract.rs`: the contract's start.
  - `zapper.rs`: the zapper (zap in, zap out, its replies and settings).
  - `fund_manager.rs`: the incentives fund manager.
- `tests/` — tests of the library on concrete values.
- `app/` — the chain side: the library's messages as CosmWasm messages,
  balance queries, the cw721 receive hook and contract versions.
