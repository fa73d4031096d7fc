//! A solver for the countdown numbers game: six tiles are combined, two at a
//! time, with `+ - * /` until a target value is produced.
//!
//! - [`step`]: the operators and what a single step yields.
//! - [`tiles`]: the pairs of a table, the steps it allows, the table after a
//!   step.
//! - [`model`]: what a solution is.
//! - [`search`]: the shortest-first search and the exhaustive search.
//! - [`listing`]: the list that the exhaustive search makes, and what holds
//!   of it.
//! - [`lazy`]: the breadth-first search that hands out one solution at a time.
//! - [`walk`]: what the two exhaustive searches find, and how they agree.
//! - [`strategy`]: the choice of the best among several solutions.
//! - [`solver`]: search and choice together.
//! - [`room`]: when no step is lost to the width of a tile.
//! - [`puzzle`], [`text`]: a puzzle and the text it is read from.
//! - [`show`]: steps as text.

pub mod lazy;
pub mod listing;
pub mod model;
pub mod puzzle;
pub mod room;
pub mod search;
pub mod show;
pub mod solver;
pub mod step;
pub mod strategy;
pub mod text;
pub mod tiles;
pub mod walk;

pub use lazy::Solutions;
pub use puzzle::{ParseError, Puzzle};
pub use search::{all_solutions, collect_solutions, solve};
pub use solver::best_solution;
pub use step::{BinOp, Op};
pub use strategy::{is_better, pick_best, NoSolution, Strategy};
pub use tiles::{all_pairs_in, legal_steps, replace_op_in};
