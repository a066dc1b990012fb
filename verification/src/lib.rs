//! Deterministic per-block economic settlement engine for a staking network
//! organised into subnets: epoch and drain scheduling, emission distribution
//! through a weighted delegation graph, nominator payout, a constant-product
//! market maker per subnet, and the decaying registration lock cost.

pub mod amm;
pub mod children;
pub mod coinbase;
pub mod emission;
pub mod fixed;
pub mod lock;
pub mod schedule;
pub mod state;
