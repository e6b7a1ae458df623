//! Calibration-line digit extraction.
//!
//! Each input line hides a two-digit calibration value: the first and the
//! last digit found in the line, read in order. One mode recognizes literal
//! decimal digit characters only; a second mode also recognizes the English
//! words "one" through "nine" as digits, with overlapping occurrences all
//! counted. The library extracts the value of a single line and sums the
//! values of a whole newline-separated input.

pub mod extract;
pub mod tokens;
pub mod totals;
