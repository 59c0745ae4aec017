//! Verified core of an inequality join (IE-Join) engine.
//!
//! Joins two tables on a conjunction of two inequality predicates
//! `L.x op1 R.x AND L.y op2 R.y`, following Khayyat et al. 2015
//! ("Lightning Fast and Space Efficient Inequality Joins"), extended to
//! handle duplicate key values and optional result slicing.

pub mod bitarray;
pub mod intervals;
pub mod join;
pub mod l1;
pub mod l2;
pub mod laws;
pub mod ops;
pub mod sortperm;
