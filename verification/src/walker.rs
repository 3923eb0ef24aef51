//! Settings of the experimental Linux walker (directory listing with
//! `getdents64`, entries stated with `statx`), each idea for making it
//! faster a switch. Its scans feed the same [`crate::scan::ScanBuilder`]
//! as the main scanner, so the trees compare directly.

use crate::scan::ScanOptions;
use crate::tree::SizeMetric;
use vstd::prelude::*;

verus! {

/// Which variant of the walker to run.
#[derive(Clone, Copy, Debug, PartialEq, Eq, Structural)]
pub struct LinuxWalker {
    /// Stat each directory's entries in inode order rather than listing order.
    pub inode_order: bool,
    /// Share work through a work-stealing pool instead of one locked queue.
    pub work_stealing: bool,
    /// Submit each directory's `statx` calls as one io_uring batch.
    pub io_uring: bool,
    /// Pass `AT_STATX_DONT_SYNC`: answer network and FUSE mounts from cached attributes.
    pub dont_sync: bool,
    /// Detect mount boundaries by mount id, so bind mounts are recognised.
    pub mount_id: bool,
    /// On XFS, as root, read every inode's attributes up front with
    /// `XFS_IOC_BULKSTAT` and stat only directories while walking.
    pub xfs_bulkstat: bool,
}

/// The plain walker: one locked queue, listing order, no extras.
pub open spec fn plain() -> LinuxWalker {
    LinuxWalker {
        inode_order: false,
        work_stealing: false,
        io_uring: false,
        dont_sync: false,
        mount_id: false,
        xfs_bulkstat: false,
    }
}

impl Default for LinuxWalker {
    fn default() -> (r: LinuxWalker)
        ensures
            r == plain(),
    {
        LinuxWalker {
            inode_order: false,
            work_stealing: false,
            io_uring: false,
            dont_sync: false,
            mount_id: false,
            xfs_bulkstat: false,
        }
    }
}

/// The variants that were measured, with the names reports give them.
pub open spec fn variant_list() -> Seq<(Seq<char>, LinuxWalker)> {
    let steal = LinuxWalker { work_stealing: true, ..plain() };
    seq![
        ("queue + inode order (#4)"@, LinuxWalker { inode_order: true, ..plain() }),
        ("queue"@, plain()),
        ("stealing"@, steal),
        ("stealing + inode order"@, LinuxWalker { inode_order: true, ..steal }),
        ("stealing + io_uring"@, LinuxWalker { io_uring: true, ..steal }),
        ("stealing + io_uring + inode order"@, LinuxWalker { io_uring: true, inode_order: true, ..steal }),
        ("stealing + dont_sync"@, LinuxWalker { dont_sync: true, ..steal }),
        ("stealing + mount id"@, LinuxWalker { mount_id: true, ..steal }),
        ("stealing + xfs bulkstat"@, LinuxWalker { xfs_bulkstat: true, ..steal }),
    ]
}

impl LinuxWalker {
    /// Every variant measured, named for reports.
    pub fn variants() -> (r: Vec<(&'static str, LinuxWalker)>)
        ensures
            r@.map_values(|v: (&'static str, LinuxWalker)| (v.0@, v.1)) == variant_list(),
    {
        let base = LinuxWalker::default();
        let steal = LinuxWalker { work_stealing: true, ..base };
        let r = vec![
            ("queue + inode order (#4)", LinuxWalker { inode_order: true, ..base }),
            ("queue", base),
            ("stealing", steal),
            ("stealing + inode order", LinuxWalker { inode_order: true, ..steal }),
            ("stealing + io_uring", LinuxWalker { io_uring: true, ..steal }),
            ("stealing + io_uring + inode order", LinuxWalker { io_uring: true, inode_order: true, ..steal }),
            ("stealing + dont_sync", LinuxWalker { dont_sync: true, ..steal }),
            ("stealing + mount id", LinuxWalker { mount_id: true, ..steal }),
            ("stealing + xfs bulkstat", LinuxWalker { xfs_bulkstat: true, ..steal }),
        ];
        assert(r@.map_values(|v: (&'static str, LinuxWalker)| (v.0@, v.1)) =~= variant_list());
        r
    }
}

/// The subset of [`ScanOptions`] the walker honours, and its variant.
#[derive(Clone, Copy, Debug, PartialEq, Eq, Structural)]
pub struct Options {
    pub threads: usize,
    pub same_filesystem: bool,
    pub count_hard_links_once: bool,
    pub size_metric: SizeMetric,
    pub walker: LinuxWalker,
}

impl Options {
    /// The scanner's options for the plain walker; with the scanner's
    /// defaults this is the walker's default.
    pub fn from_scan(scan: &ScanOptions) -> (r: Options)
        ensures
            r.threads == scan.threads,
            r.same_filesystem == scan.same_filesystem,
            r.count_hard_links_once == scan.count_hard_links_once,
            r.size_metric == scan.size_metric,
            r.walker == plain(),
    {
        Options {
            threads: scan.threads,
            same_filesystem: scan.same_filesystem,
            count_hard_links_once: scan.count_hard_links_once,
            size_metric: scan.size_metric,
            walker: LinuxWalker::default(),
        }
    }

    /// The scanner's options these stand for, to build the tree with.
    pub fn scan_options(&self) -> (r: ScanOptions)
        ensures
            r.threads == self.threads,
            r.same_filesystem == self.same_filesystem,
            r.count_hard_links_once == self.count_hard_links_once,
            r.size_metric == self.size_metric,
    {
        ScanOptions {
            threads: self.threads,
            same_filesystem: self.same_filesystem,
            count_hard_links_once: self.count_hard_links_once,
            size_metric: self.size_metric,
        }
    }
}

} // verus!
