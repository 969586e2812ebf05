//! Requests of the monitoring service.
use vstd::prelude::*;

verus! {

/// A request: its path, its method and its headers (names unique).
#[derive(Debug)]
pub struct Request {
    pub path: String,
    pub method: String,
    pub headers: Vec<(String, String)>,
}

} // verus!
