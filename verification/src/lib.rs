//! Quadratic funding math for dependency matching pools: fixed-point
//! decimals, the quadratic funding distribution, and the rules of the
//! matching-pool contract.
pub mod fixed_point;
pub mod protocol;
pub mod quadratic_funding;

pub use fixed_point::FixedPoint;
pub use protocol::{AlloProtocol, Payout, Project, ProtocolError, MATCHING_POOL_PRECISION};
pub use quadratic_funding::{Contribution, MatchingResults, QuadraticFundingEngine};

use vstd::prelude::*;

verus! {

} // verus!
