//! Reformats delimited tabular text: column remapping, sorting,
//! deduplication and rendering as an aligned, optionally bordered table.
//!
//! The library has three parts. `parse` reads the four small languages in
//! which options are written into the types of `arguments`. `process` turns
//! the input matrix into the output matrix. `output` renders a matrix as
//! lines of text.
//!
//! Contracts are stated over sequences of characters (`Seq<char>`), the view
//! of `String` and `str`, and Verus proves them. Four things are taken on
//! trust and say so where they stand: what `String::push` does (`text`),
//! what the `regex` crate captures (`pattern`), that `slice::sort_by` sorts
//! stably (`comparator`), and that `Itertools::unique` keeps first
//! occurrences in order (`process`).
pub mod arguments;
pub mod comparator;
pub mod number;
pub mod order;
pub mod output;
pub mod parse;
pub mod pattern;
pub mod process;
pub mod sorting;
pub mod text;
