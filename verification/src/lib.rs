//! Verified solutions to a run of grid, interval and graph puzzles.
//!
//! Every module holds the executable solution of one puzzle together with the
//! mathematical model its contracts are stated over.
pub mod day01;
pub mod day02;
pub mod day03;
pub mod day04;
pub mod day05;
pub mod day06;
pub mod day07;
pub mod day08;
pub mod day09;
pub mod day11;
pub mod ordered;
pub mod text;
