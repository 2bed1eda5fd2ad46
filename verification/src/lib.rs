//! Batched Monte-Carlo tree search over a five-in-a-row board, with every
//! statistic kept in fixed-point integers.

pub mod bits;
pub mod environment;
pub mod evaluate;
pub mod expand;
pub mod laws;
pub mod parallel_mcts_executor;
pub mod reproducible;
pub mod round;
pub mod sample;
pub mod score;
pub mod select;
pub mod simulate;
pub mod state;
pub mod train;
pub mod tree;
