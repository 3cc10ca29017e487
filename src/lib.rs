//! Resolution of smart-contract deployment registries into per-chain address books.
pub mod date;
pub mod types;
pub mod balancer;
pub mod balancer_v2;
pub mod uniswap;
