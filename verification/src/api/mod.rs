//! The service: what it answers, and where it listens.

pub mod handler;
pub mod server;

pub use handler::handle_request;
pub use server::Readiness;
