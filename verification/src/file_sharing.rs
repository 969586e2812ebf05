//! The file sharing web server: its HTTP layer.
pub mod http;
