//! Verified solvers for twelve puzzles on grids, lists and texts.
//!
//! Every puzzle takes its text as a string and states, in the contract of
//! its functions, what it makes of that text: the answer, or why the text
//! has none.
//!
//! - `day_1`: two lists of numbers, their distance and their similarity.
//! - `day_2`: reports of levels that rise or fall gently.
//! - `day_3`: multiplications found in a text by a regular expression.
//! - `day_4`: a word search.
//! - `day_5`: updates of pages that must keep an order.
//! - `day_6`: a guard on patrol, and the obstructions that would trap it.
//! - `day_7`: equations that hold for some choice of operators.
//! - `day_8`: antennas and the antinodes they throw.
//! - `day_9`: a disk that is compacted.
//! - `day_10`: hiking trails on a map of heights.
//! - `day_11`: stones that change with every blink.
//! - `day_12`: garden regions and the price of their fences.
//!
//! `text`, `grid` and `cells` hold what the puzzles share: the reading of
//! lines, words and numbers, sums over the cells of a grid, and sets of
//! positions.

pub mod cells;
pub mod day_1;
pub mod day_10;
pub mod day_11;
pub mod day_12;
pub mod day_2;
pub mod day_3;
pub mod day_4;
pub mod day_5;
pub mod day_6;
pub mod day_7;
pub mod day_8;
pub mod day_9;
pub mod grid;
pub mod text;
