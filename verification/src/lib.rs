pub mod builders;
pub mod config;
pub mod forest;
pub mod rng;
pub mod session;
pub mod solvers;
pub mod types;
pub mod util;
pub mod viewers;
pub mod wall_count;

use vstd::prelude::*;

verus! {

} // verus!
