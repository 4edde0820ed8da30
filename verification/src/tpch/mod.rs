//! Evaluators for the decision-support queries, each planned by hand for its
//! own shape: filters first, lookups by key, one pass over the fact table.

pub mod part_laws;
pub mod region_laws;
pub mod row_laws;
pub mod sums;
pub mod support;
pub mod q5;
pub mod q7;
pub mod q10;
pub mod q9;
pub mod q8;
pub mod q2;
pub mod q3;
pub mod q18;
pub mod q20;
pub mod q4;
pub mod q12;
pub mod q13;
pub mod q14;
pub mod q17;
pub mod q21;
pub mod q19;
pub mod q22;
pub mod q16;
pub mod answer_laws;
pub mod count_laws;
pub mod laws;
pub mod listing_laws;
