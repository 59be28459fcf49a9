# burberry_template

The verified core of an MEV searcher that watches blocks, simulates a
configured call, and sends it as a bundle to block builders; with a Uniswap
V3 route finder and quoter.

- `src/` is the library, verified with Verus:
  - `block_state`: the latest block and the next one, with the EIP-1559
    base fee;
  - `pool`, `route_search`, `compute_routes`, `quoter`: pools, the
    depth-first route search, the pool set built from subgraph records,
    the routes into WETH kept ahead, and the choice of the best quote;
  - `path`, `calldata`, `abi`: the packed swap path and the quoter calldata;
  - `simulator`: ERC-20 balance changes read from the logs of a simulated
    call;
  - `strategy`, `executor`, `flashbots`: the decisions of the strategy, of the
    bundle sender and of the relay broadcaster;
  - `address`, `uint`: addresses and 256-bit numbers as bytes.
- `app/` is the program around it: argument handling, RPC calls, signing,
  and the event loop.
- `tests/` runs the library on concrete values.
