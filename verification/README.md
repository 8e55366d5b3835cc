# rusty_john

Detection of arbitrage across decentralised exchanges on Ethereum Mainnet by off-chain simulation:
nothing is executed on chain and no balance is needed. The logic is a library verified with Verus;
a thin command-line tool around it talks to a node.

## What it does

- Pages through the UniswapV2, PancakeSwapV2 and SushiSwapV2 factories and groups the pairs that
  have a WETH side by their other token.
- Finds the Uniswap V3 pools of these tokens at the fee tiers 0.05 %, 0.3 % and 1 %, with their
  initialised ticks.
- Simulates swaps: by the constant-product formula on V2 pairs, by walking ticks on V3 pools.
- Searches for trades V2 to V2, V2 to V3 and V3 to V3 of one token, and reports those that gain at
  least `MIN_PROFIT_WETH` once the gas is paid. The amount of a V2 to V2 trade is the one that gains
  most; the others send what the gas leaves of the balance. Pairs with less than
  `MIN_WETH_LIQUIDITY` are left out, and so are pairs whose price is more than 1.5 times off that of
  the pool they are held against.

## Layout

| Place | What stands there |
|---|---|
| `src/uint.rs`, `src/address.rs` | wide integers and addresses |
| `src/address_book.rs` | contract addresses and thresholds |
| `src/v2_pair.rs` | constant-product swaps, and the best trade between two pairs |
| `src/v3_pool.rs`, `src/swap_laws.rs` | pools, the simulation of a swap through one, and what holds of it |
| `src/staleness.rs` | whether reserves are out of line with a pool's price |
| `src/cross_protocol.rs` | trades between a pair and a pool, and between two pools |
| `src/token_market.rs` | the trades of one token |
| `src/pool_index.rs`, `src/crossed_pair.rs` | all markets and pools, their updates, and the search |
| `src/search_laws.rs`, `src/repeat_laws.rs` | what holds of every search and every update |
| `src/dex_factory.rs` | paging through a factory, and grouping by token |
| `src/v3_discovery.rs`, `src/discovery_laws.rs` | discovery of pools, and what it finds |
| `src/finding.rs`, `src/report.rs` | findings, and how they are written |
| `src/settings.rs`, `src/utils.rs` | settings and configuration |
| `app/` | the command-line tool |
| `tests/` | tests of the library |

Amounts are natural numbers in contracts. Where an amount would not fit in its width, a function
says so in its `requires`, and a companion (`..._fits`, `..._computable`, `checked_...`) tests it.

Calls into other crates stand in small functions marked `external_body`, each with a contract and
a comment that says what is believed of the call: arithmetic and text of `ethers_core`, the price
and step formulas of `uniswap_v3_math`, sorting and grouping of `itertools`.

`url` is named in `Cargo.toml` only to hold it back for `ethers`: from 2.5.3 on it brings in the data
crates of ICU.

## Settings

`NETWORK_RPC` and `NETWORK_WSS` name the HTTP and WebSocket endpoints of the node, and `MAX_BAL` is
the whole ether to trade with. These are required.

| Variable | Default | Meaning |
|---|---|---|
| `PAIR_LIMIT` | none | pairs to take from each factory |
| `TOKEN_LIMIT` | none | tokens to look for pools of |
| `V3_POOL_BITMAP_SCAN_WORD_LIMIT` | all | words of the tick bitmap to scan around the current tick |
| `V3_POOL_VERBOSE_BITMAP_SCAN` | off | `1`, `true`, `yes` or `on` prints the progress of the scan |
| `DEBUG_ARB` | off | `true` prints pairs that are passed over, and the figures of sales on pairs |
| `REFRESH_CACHE` | off | `true` fetches everything anew instead of reading `snapshot.json` |
| `BACKTEST_BLOCKS` | none | blocks to replay, such as `21900000:21900100` |
