//! The identity of a backend: an IPv4 endpoint held as plain values.

use vstd::prelude::*;

verus! {

/// A backend network endpoint: four IPv4 octets and a port.
#[derive(Clone, Copy, PartialEq, Eq, Structural, Debug)]
pub struct Addr {
    pub a: u8,
    pub b: u8,
    pub c: u8,
    pub d: u8,
    pub port: u16,
}

impl Addr {
    /// Builds the endpoint `a.b.c.d:port`.
    pub fn new(a: u8, b: u8, c: u8, d: u8, port: u16) -> (r: Addr)
        ensures
            r == (Addr { a, b, c, d, port }),
    {
        Addr { a, b, c, d, port }
    }
}

} // verus!
