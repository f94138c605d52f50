//! Protocol configuration: the replica count and fault bound.

use vstd::prelude::*;

verus! {

/// Total number of replicas.
pub const N: u64 = 4;

/// Maximum number of Byzantine replicas tolerated; `N >= 3 * F + 1`.
pub const F: u64 = 1;

} // verus!
