//! A solver that fills in the blank cells of a puzzle so that the board
//! spells exactly the puzzle's words.
pub mod grid;
pub mod dict;
pub mod search;
pub mod scan;
pub mod paths;
pub mod rank;
pub mod order;
pub mod plan;
pub mod run;
pub mod cli;
pub mod report;
