//! Search kernel for square-cube pandigitals ("nice numbers").
//!
//! A number `n` is nice in base `b` when the base-`b` digits of `n²` followed
//! by those of `n³` use every digit value `0..b` exactly once.

pub mod bignat;
pub mod base_range;
pub mod digits;
pub mod field;
pub mod merge;
pub mod niceness;
pub mod residue_filter;
pub mod scan;
pub mod theorems;
