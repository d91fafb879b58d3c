//! Verified solvers for a collection of daily programming puzzles.
//!
//! The heart of the crate is a best-first search engine ([`search`]) built on a
//! binary min-heap ([`frontier`]), with three instantiations: the weighted grid
//! of [`day15`], the universe counting of [`day21`] and the burrow sorting of
//! [`day23`].  The remaining modules hold the logic of the other puzzles.

pub mod day1;
pub mod day10;
pub mod day11;
pub mod day12;
pub mod day13;
pub mod day13_order;
pub mod day14;
pub mod day15;
pub mod day16;
pub mod day18;
pub mod day19;
pub mod day2;
pub mod day17;
pub mod day20;
pub mod day21;
pub mod day22;
pub mod day23;
pub mod day25;
pub mod day3;
pub mod day4;
pub mod day5;
pub mod day6;
pub mod day7;
pub mod day8;
pub mod day9;
pub mod errors;
pub mod frontier;
pub mod graph;
pub mod numbers;
pub mod pattern;
pub mod runner;
pub mod search;
pub mod text;
pub mod traits;
