//! The error taxonomy of the load balancer.

use vstd::prelude::*;

verus! {

/// Declares `std::io::Error` so that it can be carried inside
/// [`LoadBalancerError`]; the value itself is opaque to verification.
#[verifier::external_type_specification]
#[verifier::external_body]
pub struct ExIoError(std::io::Error);

/// An error that ends a proxy session or a health probe.
#[derive(Debug)]
pub enum LoadBalancerError {
    /// A transport failure: connect, read or write.
    IoError(std::io::Error),
    /// Reserved for health-probe-specific failures.
    HealthCheckError(String),
}

impl From<std::io::Error> for LoadBalancerError {
    fn from(err: std::io::Error) -> (r: Self) {
        LoadBalancerError::IoError(err)
    }
}

impl vstd::std_specs::convert::FromSpecImpl<std::io::Error> for LoadBalancerError {
    open spec fn obeys_from_spec() -> bool {
        true
    }

    open spec fn from_spec(err: std::io::Error) -> Self {
        LoadBalancerError::IoError(err)
    }
}

} // verus!
