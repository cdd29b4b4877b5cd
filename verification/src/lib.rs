//! A Go (Weiqi) engine: board, compact board codes, capture rules and a
//! branching move history, with every function verified against its contract.

pub mod basic;
pub mod util;
