pub mod followup;
pub mod model;
pub mod prefix;
mod rng;
pub mod text;

use vstd::prelude::*;

verus! {

/// Number of words a prefix window holds: the order of the chain.
pub const PREFIX_SIZE: usize = 3;

} // verus!
