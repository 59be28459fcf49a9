//! Verified core of an MEV searcher: block bookkeeping, Uniswap V3 route
//! search and path encoding, quoter calldata, simulated balance changes and
//! the decisions of the strategy and of the bundle sender.

pub mod address;
pub mod block_state;
pub mod uint;
pub mod abi;
pub mod pool;
pub mod route_search;
pub mod compute_routes;
pub mod executor;
pub mod flashbots;
pub mod path;
pub mod calldata;
pub mod quoter;
pub mod simulator;
pub mod strategy;
