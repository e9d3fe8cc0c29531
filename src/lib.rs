//! Interval–point sets over `i64`, with the small numeric and text
//! utilities that accompany them.
use vstd::prelude::*;

pub mod array;
pub mod bound_protect;
pub mod chinese;
pub mod digits;
pub mod fraction;
pub mod interval;
pub mod interval_set;
pub mod mathtool;
pub mod lang;
pub mod ord_wrap;
pub mod ordered;
pub mod render;
pub mod sort;
pub mod text;
pub mod traits;
pub mod vector;

verus! {

} // verus!
