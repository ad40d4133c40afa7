//! Host side of the USB boot-assist protocol: device classification, the
//! archive scanner, the file-serving state machine and the identity decoder.
use vstd::prelude::*;

pub mod archive;
pub mod duid;
pub mod error;
pub mod file_server;
pub mod usb;

verus! {

/// Sum of two counters.
pub fn add(left: u64, right: u64) -> (r: u64)
    requires
        left + right <= u64::MAX,
    ensures
        r == left + right,
{
    left + right
}

} // verus!
