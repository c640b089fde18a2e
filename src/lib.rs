//! A prediction-market automated market maker: a bonding-curve liquidity pool over outcome
//! shares, the resolution of oracle answers into payout vectors, and the market state machine
//! that gates both.
pub mod math;
pub mod outcome;
pub mod pool;
pub mod market;
