use vstd::prelude::*;

pub mod mapping;
pub mod naming;
pub mod pattern;
pub mod scheduler;

verus! {

/// Configuration for one batch run: where documents live, where fetched
/// images are stored, how rewritten links are prefixed, and the per-request
/// timeout and concurrency ceiling for the downloader.
pub struct Opts {
    pub input: String,
    pub output_dir: String,
    pub link_prefix: String,
    pub timeout_sec: u32,
    pub current_limit: u32,
}

/// A fetched response is accepted exactly when its status code is 200 (OK);
/// any other status fails the fetch for that URL.
pub fn accept_status(status: u16) -> (r: bool)
    ensures
        r == (status == 200),
{
    status == 200
}

} // verus!
