//! The server value that every tool is a method of.
use vstd::prelude::*;

verus! {

/// The math server. It holds no state: every tool is a pure function of its
/// parameters.
pub struct MathServer;

impl MathServer {
    /// Creates the server.
    pub fn new() -> (s: Self) {
        MathServer
    }

    /// Liveness check: answers `pong`.
    pub fn ping(&self) -> (s: String)
        ensures
            s@ == "pong"@,
    {
        String::from_str("pong")
    }
}

} // verus!
