//! A collection of small daily text puzzles, one module each: every
//! module parses its input and answers with a number or a string,
//! under contracts that state the answer exactly.
pub mod assignments;
pub mod calories;
pub mod crt;
pub mod dirs;
pub mod forest;
pub mod grid;
pub mod heightmap;
pub mod monkeys;
pub mod packets;
pub mod rope;
pub mod rps;
pub mod rucksack;
pub mod signal;
pub mod stacks;
pub mod text;
