//! Well-known relationship kinds. Not exhaustive: a kind is open text.

use vstd::prelude::*;

verus! {

pub const REPORTS_TO: &'static str = "reports_to";

pub const MENTORS: &'static str = "mentors";

pub const COLLABORATES_WITH: &'static str = "collaborates_with";

} // verus!
