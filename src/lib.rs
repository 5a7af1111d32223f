//! A small column-oriented table engine: typed columns, tables of named
//! columns, and the filter, sort, join, group-by and column-append operations
//! over them, together with a seeded generator of synthetic tables.
//!
//! Float64 columns hold IEEE-754 bit patterns. Ordering operations compare them
//! by the IEEE-754 total order; equality-based operations compare bit patterns.
pub mod column;
pub mod table;
pub mod filter;
pub mod generate;
pub mod sort;
pub mod join;
pub mod group;
pub mod arith;
pub mod laws;
