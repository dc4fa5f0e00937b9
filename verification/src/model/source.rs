//! Well-known edge sources: who or what put an edge there.

use vstd::prelude::*;

verus! {

pub const MANUAL: &'static str = "manual";

pub const INFERRED: &'static str = "inferred";

pub const IMPORTED: &'static str = "imported";

} // verus!
