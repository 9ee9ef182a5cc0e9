//! What the kernel reports of sockets and processes, by platform.

pub mod addr;
pub mod bytes;
pub mod linux;
pub mod macos;
pub mod meta;
pub mod user;

use crate::model::Scan;
use vstd::prelude::*;

verus! {

/// What a scan finds on a platform that is neither macOS nor Linux: nothing but an error.
pub fn scan() -> (r: Result<Scan, String>)
    ensures
        r matches Err(e) && e@ == "ports 目前只支持 macOS 和 Linux"@,
{
    Err("ports 目前只支持 macOS 和 Linux".to_string())
}

} // verus!
