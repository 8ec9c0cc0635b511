//! Solvers for a collection of small daily puzzles.
//!
//! The heart of the crate is the button-combination solver of [`day10`]:
//! [`reach`] finds the fewest button presses that XOR a lock open,
//! [`combo`] finds the fewest presses that add up to a vector of counters,
//! memoising subgoals in the bounded least-recently-used store of [`cache`].
//! The remaining `day*` modules hold the other, simpler, solvers; they share
//! the byte-level readers in [`text`] and the fixed-length lists of
//! [`tuples`].

pub mod cache;
pub mod combo;
pub mod day1;
pub mod day10;
pub mod day11;
pub mod day12;
pub mod day2;
pub mod day3;
pub mod day4;
pub mod day5;
pub mod day6;
pub mod day7;
pub mod day8;
pub mod day9;
pub mod machine;
pub mod reach;
pub mod text;
pub mod tuples;
