//! A verified load-balancing core: a server registry, connection accounting,
//! a connection-reuse pool, three selection algorithms (round-robin, random,
//! least-connections), and the decision logic of a proxy session and of the
//! periodic health check. All network I/O is left to the surrounding
//! application, which drives these decisions.

pub mod accounting;
pub mod addr;
pub mod balancer;
pub mod errors;
pub mod pool;
pub mod registry;

pub use accounting::ConnectionAccounting;
pub use addr::Addr;
pub use balancer::{algorithm_from_choice, LoadBalancer, LoadBalancingAlgorithm, SessionStart};
pub use errors::LoadBalancerError;
pub use pool::ConnectionPool;
pub use registry::ServerRegistry;

use vstd::prelude::*;

verus! {

} // verus!
