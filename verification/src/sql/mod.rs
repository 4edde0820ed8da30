//! The SQL front end and its interpreter.

pub mod agg;
pub mod ast;
pub mod clause_laws;
pub mod correl;
pub mod dp;
pub mod engine;
pub mod entry;
pub mod eval;
pub mod eval_laws;
pub mod exec_table;
pub mod grammar;
pub mod grammar_laws;
pub mod group;
pub mod group_laws;
pub mod join_laws;
pub mod joins;
pub mod lexer;
pub mod like;
pub mod mask_laws;
pub mod masks;
pub mod message;
pub mod names;
pub mod nested;
pub mod nested_laws;
pub mod order_laws;
pub mod output;
pub mod parser;
pub mod planning;
pub mod planning_laws;
pub mod query;
pub mod query_grammar_laws;
pub mod query_laws;
pub mod shape;
pub mod source;
pub mod sum_laws;
pub mod totals;
pub mod tree_laws;
pub mod value;
pub mod value_laws;
