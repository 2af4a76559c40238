//! The verified core of an HTTP load balancer.
//!
//! The balancer reads a request from a client, forwards it to one of several upstream servers
//! and hands the server's response back. This library holds everything that is decided on the
//! way; the sockets, the timers and the locks belong to the program around it. Where reading
//! and deciding take turns, a function of the library takes the outcome of one read and says
//! what comes next.

pub mod decimal;
pub mod head;
pub mod headers;
pub mod laws;
pub mod proxy;
pub mod request;
pub mod response;
pub mod stream;
pub mod upstream;
pub mod version;

use vstd::prelude::*;

verus! {

/// What the command line says.
#[derive(Debug)]
pub struct CmdOptions {
    /// The IP address and port to bind to.
    pub bind: String,
    /// The upstream servers to forward requests to.
    pub upstream: Vec<String>,
    /// How often to check the health of the upstream servers, in seconds.
    pub active_health_check_interval: usize,
    /// The path to which health checks are sent.
    pub active_health_check_path: String,
    /// The most requests that a client can make in a minute; zero means no limit.
    pub max_requests_per_minute: usize,
}

} // verus!
