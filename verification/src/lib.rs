//! Execution core of a columnar query engine: a tree of physical operators
//! realizes tabular results, with a result cache, an adaptive grouped
//! aggregation, and a partitioned hash join that stays correct under hash
//! collisions and multi-column keys.

pub mod agg;
pub mod categorical;
pub mod column;
pub mod context;
pub mod csvbuf;
pub mod error;
pub mod exec;
pub mod expr;
pub mod groupby;
pub mod hashing;
pub mod join;
pub mod objarr;
pub mod scanproj;
pub mod table;
pub mod transforms;
pub mod value;
