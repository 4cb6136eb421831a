//! Connections that are handed over as descriptors: their states and the decisions about them.

pub mod conn;
pub mod epoll;
pub mod evented;
pub mod io;
