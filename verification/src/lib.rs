//! An analytical query engine: a morsel-driven executor, an SQL front end, and
//! hand-planned evaluators for the decision-support queries it serves.
//!
//! Cells are 64-bit words. A word is an integer, a day number, the `xxh3` hash
//! of a string, or the bit pattern of a double, depending on its column.

pub mod error;
pub mod float_bits;
pub mod group_index;
pub mod cell_index;
pub mod order;
pub mod text;
pub mod hashing;
pub mod table;
pub mod word;
pub mod expr_eval;
pub mod hash_column;
pub mod kernel;
pub mod plan;
pub mod morsel;
pub mod dispatcher;
pub mod pipeline;
pub mod scheduler;
pub mod adaptive;
pub mod eddy;
pub mod merge;
pub mod merge_laws;
pub mod engine_laws;
pub mod text_laws;
pub mod dates;
pub mod date_laws;
pub mod tpch;
pub mod row_sums;
pub mod sql;
