//! Core of a real-time chat service: the wire protocol spoken over a socket
//! connection, an in-memory registry of live connections with their outbound
//! delivery queues, a presence broadcaster, a per-connection command router,
//! and the message store that records messages independent of delivery.
//!
//! Everything here is a sequential model of the shared state; the surrounding
//! process (socket accept loops, the actual database) serializes access to it
//! and performs the I/O.

use vstd::prelude::*;

pub mod calculator;
pub mod protocol;
pub mod registry;
pub mod router;
pub(crate) mod sys;
pub mod storage;
pub mod wire;

verus! {

/// Settings the surrounding process reads at startup and hands to the server.
pub struct MessengerConfig {
    pub database_url: String,
    pub websocket_addr: String,
    pub jwt_secret: String,
}

/// Handle that owns the configuration of one messenger instance.
pub struct MessengerServer {
    pub config: MessengerConfig,
}

impl MessengerServer {
    pub fn new(config: MessengerConfig) -> (s: Self)
        ensures
            s.config == config,
    {
        MessengerServer { config }
    }
}

} // verus!
