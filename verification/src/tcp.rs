//! The network side: the wire protocol, the life of a connection, and the
//! connections that are open.

pub mod connection;
pub mod connection_manager;
pub mod protocol;
