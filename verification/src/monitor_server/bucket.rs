//! Data sources of the monitoring service.
pub mod auths;
pub mod journal;
pub mod sar;
