//! A day-by-day scheduler for the book-scanning problem: libraries with a
//! signup delay and a daily shipping rate send distinct books before a
//! deadline, and a greedy admission heuristic picks at most one library per
//! day by a lookahead estimate.

pub mod ledger;
pub mod scores;
pub mod library;
pub mod scheduler;
pub mod driver;
