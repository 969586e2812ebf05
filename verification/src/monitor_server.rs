//! The monitoring service: data sources and HTTP plumbing.
pub mod bucket;
pub mod request;
pub mod response;
pub mod server;
