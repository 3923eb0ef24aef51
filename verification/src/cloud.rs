//! Cloud-synced folders: whether an item is only a placeholder, and
//! removing a download. No cloud storage is managed on this platform.

use crate::scan::{ErrorKind, IoError};
use vstd::prelude::*;
use vstd::string::*;

verus! {

/// Where an item's data is.
#[derive(Clone, Copy, Debug, PartialEq, Eq, Structural)]
pub enum CloudStatus {
    /// Not managed by a cloud drive.
    Local,
    /// Synced and present on disk; its download can be removed.
    Downloaded,
    /// Synced but only a placeholder on disk.
    Evicted,
}

/// A synced item's state from its sizes: data with nothing allocated is
/// only a placeholder; anything else (an empty item too) is downloaded.
pub fn from_sizes(apparent: u64, allocated: u64) -> (r: CloudStatus)
    ensures
        r == (if apparent > 0 && allocated == 0 {
            CloudStatus::Evicted
        } else {
            CloudStatus::Downloaded
        }),
{
    if apparent > 0 && allocated == 0 {
        CloudStatus::Evicted
    } else {
        CloudStatus::Downloaded
    }
}

/// Where the item at `path` has its data: always local, as no cloud
/// storage is managed here.
pub fn status(path: &str, is_dir: bool, apparent: u64, allocated: u64) -> (r: CloudStatus)
    ensures
        r == CloudStatus::Local,
{
    CloudStatus::Local
}

/// Remove the local copy of a synced item: refused, as no cloud storage
/// is managed here.
pub fn evict(path: &str) -> (r: Result<(), IoError>)
    ensures
        r matches Err(e) && e.kind == ErrorKind::Unsupported && e.message@ == "no cloud storage on this platform"@,
{
    let message = String::from_str("no cloud storage on this platform");
    proof {
        reveal_strlit("no cloud storage on this platform");
    }
    Err(IoError { kind: ErrorKind::Unsupported, message })
}

} // verus!
