//! Asset tracking for named scopes: tokens are classified as IP ranges,
//! domain names or opaque strings, deduplicated against the stored state of a
//! scope, and searched again by substring or by address.

use vstd::prelude::*;

pub mod assets;
pub mod bytes;
pub mod canon;
pub mod cidr;
pub mod classify;
pub mod config;
pub mod database;
pub mod delta;
pub mod files;
pub mod find;
pub mod lines;
pub mod log;
pub mod minimal;
pub mod nesting;
pub mod run;
pub mod text;
pub mod tokens;

verus! {

/// The sum of two sizes.
pub fn _add(left: usize, right: usize) -> (sum: usize)
    requires
        left + right <= usize::MAX,
    ensures
        sum == left + right,
{
    left + right
}

} // verus!
