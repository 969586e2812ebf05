//! Tools for looking after a small server: path normalisation, a static file
//! server, remote status commands, project listing and a monitoring service
//! that reports `sar` and `journalctl` output as JSON.
pub mod config;
pub mod entries;
pub mod file_sharing;
pub mod json;
pub mod monitor;
pub mod monitor_server;
pub mod norm;
pub mod norm_lib;
pub mod pattern;
pub mod project_manager;
pub mod style;
pub mod text;
pub mod timestamp;
