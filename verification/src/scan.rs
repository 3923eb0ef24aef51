//! Turning the entries of a directory walk into a [`Tree`]: the walk itself
//! reads the disk and runs elsewhere; it hands each entry (or error) to a
//! [`ScanBuilder`], which places it, counts hard-linked data once and
//! decides how the scan ends.

use crate::fold::{map_new, pair_map_get, pair_map_insert, pair_map_remove};
use crate::tree::{Kind, Node, NodeId, SizeMetric, Tree, TreeBuilder, finished, totals_fit};
use crate::paths::{join, starts_with, starts_with_spec};
use crate::text::{chars_of, find_char, find_from, lines, lines_of, text_of};
use vstd::prelude::*;
use vstd::string::*;

verus! {

/// Options for a scan.
#[derive(Clone, Debug)]
pub struct ScanOptions {
    /// Worker threads for directory reads.
    pub threads: usize,
    /// Do not descend into other mounted filesystems.
    pub same_filesystem: bool,
    /// Count data reachable through several hard links only once.
    pub count_hard_links_once: bool,
    pub size_metric: SizeMetric,
}

impl ScanOptions {
    /// The default options with `threads` workers: stay on one filesystem,
    /// count hard-linked data once, weigh by allocated size.
    pub fn with_threads(threads: usize) -> (r: ScanOptions)
        ensures
            r.threads == threads,
            r.same_filesystem,
            r.count_hard_links_once,
            r.size_metric == SizeMetric::Allocated,
    {
        ScanOptions { threads, same_filesystem: true, count_hard_links_once: true, size_metric: SizeMetric::Allocated }
    }
}

/// What kind of failure ended or marred a scan, as `std::io::ErrorKind` names it.
#[derive(Clone, Copy, Debug, PartialEq, Eq, Structural)]
pub enum ErrorKind {
    NotFound,
    PermissionDenied,
    Interrupted,
    InvalidData,
    InvalidInput,
    Unsupported,
    AlreadyExists,
    ResourceBusy,
    Other,
}

/// A failure with its kind and the text to show for it.
#[derive(Clone, Debug)]
pub struct IoError {
    pub kind: ErrorKind,
    pub message: String,
}

/// Counters of a running scan.
#[derive(Clone, Copy, Debug, PartialEq, Eq, Structural)]
pub struct Progress {
    /// Entries placed in the tree.
    pub entries: u64,
    /// Errors met: entries whose metadata could not be read, and listings that failed.
    pub errors: u64,
}

/// The attributes of an entry that a scan uses.
#[derive(Clone, Copy, Debug)]
pub struct Stat {
    pub apparent_size: u64,
    pub allocated_size: u64,
    /// Nanoseconds since the Unix epoch.
    pub modified: Option<i128>,
    /// Identity of multiply-linked data and its total link count, when known.
    pub link: Option<((u64, u64), Option<u64>)>,
}

/// What the walk found out about an entry's attributes.
#[derive(Clone, Copy, Debug)]
pub enum Metadata {
    /// The walk did not ask.
    NotAsked,
    /// Reading them failed.
    Failed,
    Read(Stat),
}

/// One entry of a walk. Walks yield every directory before its contents.
#[derive(Clone, Debug)]
pub struct Walked {
    /// Walk-local index of the directory holding this entry; `None` for the root.
    pub parent: Option<usize>,
    /// Walk-local index of this entry when it is a directory.
    pub directory: Option<usize>,
    pub name: String,
    pub kind: Kind,
    pub metadata: Metadata,
}

/// Where an entry goes: `Some(parent)` (the root's parent being `None`),
/// or `None` when its directory was never placed, so it is dropped.
pub open spec fn placement(dirs: Seq<Option<NodeId>>, parent: Option<usize>) -> Option<Option<NodeId>> {
    match parent {
        None => Some(None),
        Some(index) => if index < dirs.len() && dirs[index as int] is Some {
            Some(dirs[index as int])
        } else {
            None
        },
    }
}

/// Whether `entry` takes part in counting hard-linked data once.
pub open spec fn tracks_link(count_once: bool, entry: Walked) -> bool {
    &&& count_once
    &&& entry.kind == Kind::File
    &&& entry.metadata matches Metadata::Read(stat) && stat.link is Some
}

/// The links still expected for data first seen with `links` links in all
/// (every link but this one, or for ever when the count is unknown).
pub open spec fn outstanding(links: Option<u64>) -> u64 {
    match links {
        Some(n) => if n == 0 { 0 } else { (n - 1) as u64 },
        None => u64::MAX,
    }
}

/// The hard-link bookkeeping after meeting data `identity` with `links`:
/// the outstanding links left, and whether this entry is a duplicate. The
/// first link seen counts; later ones are duplicates, and data is
/// forgotten once all its links have been seen.
pub open spec fn link_step(pending: Map<(u64, u64), u64>, identity: (u64, u64), links: Option<u64>) -> (
    Map<(u64, u64), u64>,
    bool,
) {
    if !pending.contains_key(identity) {
        (pending.insert(identity, outstanding(links)), false)
    } else if links is Some {
        let remaining = pending[identity] - 1;
        if remaining == 0 {
            (pending.remove(identity), true)
        } else {
            (pending.insert(identity, remaining as u64), true)
        }
    } else {
        (pending, true)
    }
}

/// The node placed for `entry` under `parent`.
pub open spec fn walked_node(root: String, parent: Option<NodeId>, entry: Walked, duplicate: bool) -> Node {
    Node {
        name: if parent is None { root } else { entry.name },
        parent,
        kind: entry.kind,
        apparent_size: match entry.metadata {
            Metadata::Read(stat) => stat.apparent_size,
            _ => 0,
        },
        allocated_size: match entry.metadata {
            Metadata::Read(stat) => stat.allocated_size,
            _ => 0,
        },
        file_count: if entry.kind != Kind::Directory { 1 } else { 0 },
        dir_count: 0,
        modified: match entry.metadata {
            Metadata::Read(stat) => stat.modified,
            _ => None,
        },
        duplicate_link: duplicate,
        error: entry.metadata is Failed,
    }
}

/// The directory table after directory `index` was placed as `id`.
pub open spec fn dirs_after(dirs: Seq<Option<NodeId>>, index: int, id: NodeId) -> Seq<Option<NodeId>> {
    let len = if index + 1 > dirs.len() { index + 1 } else { dirs.len() as int };
    Seq::new(len as nat, |k: int| if k == index { Some(id) } else if k < dirs.len() { dirs[k] } else { None })
}

/// One more, wrapping as an atomic counter does.
pub open spec fn bump(n: u64) -> u64 {
    if n == u64::MAX { 0 } else { (n + 1) as u64 }
}

fn bumped(n: u64) -> (r: u64)
    ensures
        r == bump(n),
{
    if n == u64::MAX { 0 } else { n + 1 }
}

/// Blocks beyond the file's length that are still believed (preallocation).
pub const PLAUSIBLE_EXTRA_BLOCKS: u64 = 65536;

/// `x`, or the largest `u64` when it is larger.
pub open spec fn saturate(x: int) -> int {
    if x > u64::MAX {
        u64::MAX as int
    } else {
        x
    }
}

/// The I/O block size in use: a reported zero counts as one.
pub open spec fn io_block_of(io_block: int) -> int {
    if io_block <= 0 {
        1
    } else {
        io_block
    }
}

/// The least multiple of `io` at or above `len`.
pub open spec fn round_up(len: int, io: int) -> int {
    if len % io == 0 {
        len
    } else {
        len + (io - len % io)
    }
}

/// The allocated size of a file of `len` bytes that reports `blocks`
/// 512-byte blocks and I/O blocks of `io_block` bytes (see
/// [`allocated_from_blocks`]).
pub open spec fn allocated_spec(len: int, blocks: int, io_block: int) -> int {
    let reported = saturate(blocks * 512);
    let io = io_block_of(io_block);
    let rounded = round_up(len, io);
    let plausible_max = saturate(rounded + saturate(io * PLAUSIBLE_EXTRA_BLOCKS));
    if reported <= plausible_max {
        reported
    } else {
        rounded
    }
}

/// `st_blocks` counts 512-byte units: when that many bytes are plausible
/// for the file (no more than its length plus 65536 I/O blocks), they are
/// its allocated size exactly.
pub proof fn blocks_count_512_bytes(len: u64, blocks: u64, io_block: u64)
    requires
        blocks * 512 <= u64::MAX,
        blocks * 512 <= len + (if io_block == 0 {
            1int
        } else {
            io_block as int
        }) * 65536,
    ensures
        allocated_spec(len as int, blocks as int, io_block as int) == blocks * 512,
{
    let io = io_block_of(io_block as int);
    assert(io >= 1);
    assert(round_up(len as int, io) >= len) by {
        if (len as int) % io != 0 {
            assert((len as int) % io < io);
        }
    }
    assert(io * PLAUSIBLE_EXTRA_BLOCKS >= 0) by (nonlinear_arith)
        requires
            io >= 1,
    ;
}

/// An implausible block count (more than the file's length plus 65536 I/O
/// blocks) gives way to the length rounded up to whole I/O blocks: a
/// multiple of the block size, no smaller than the file and less than one
/// block more.
pub proof fn implausible_blocks_round_the_length(len: u64, blocks: u64, io_block: u64)
    requires
        io_block > 0,
        len + io_block * 65536 + io_block <= u64::MAX,
        blocks * 512 <= u64::MAX,
        blocks * 512 >= len + io_block * 65536 + io_block,
    ensures
        ({
            let a = allocated_spec(len as int, blocks as int, io_block as int);
            &&& a % (io_block as int) == 0
            &&& len <= a < len + io_block
        }),
{
    let io = io_block as int;
    let l = len as int;
    let r = round_up(l, io);
    assert(l % io < io);
    if l % io == 0 {
        assert(r == l);
    } else {
        assert(r == l + (io - l % io));
        assert(r % io == 0) by (nonlinear_arith)
            requires
                r == l + (io - l % io),
                io > 0,
        {
            assert(l == (l / io) * io + l % io);
            assert(r == (l / io + 1) * io);
        }
    }
    assert(r < l + io);
    assert(saturate(io * PLAUSIBLE_EXTRA_BLOCKS) == io * 65536);
    assert(saturate(r + io * 65536) == r + io * 65536);
    assert(saturate(blocks * 512) == blocks * 512);
}

/// `blocks` in 512-byte units, unless it is implausibly larger than the
/// file (seen on NTFS mounts), in which case the length rounded up to
/// whole I/O blocks is used instead. The rounded length must fit a `u64`.
pub fn allocated_from_blocks(len: u64, blocks: u64, io_block: u64) -> (r: u64)
    requires
        round_up(len as int, io_block_of(io_block as int)) <= u64::MAX,
    ensures
        r == allocated_spec(len as int, blocks as int, io_block as int),
{
    let reported = match blocks.checked_mul(512) {
        Some(v) => v,
        None => u64::MAX,
    };
    let io_block = if io_block == 0 { 1 } else { io_block };
    let remainder = len % io_block;
    let rounded_len = if remainder == 0 { len } else { len + (io_block - remainder) };
    let extra = match io_block.checked_mul(PLAUSIBLE_EXTRA_BLOCKS) {
        Some(v) => v,
        None => u64::MAX,
    };
    let plausible_max = rounded_len.saturating_add(extra);
    if reported <= plausible_max {
        reported
    } else {
        rounded_len
    }
}

/// Builds a tree from the entries a walk yields.
pub struct ScanBuilder {
    tree: TreeBuilder,
    /// Maps the walk's dense directory indices to tree nodes.
    directory_nodes: Vec<Option<NodeId>>,
    /// Hard-linked data seen so far, with the links not yet encountered. An
    /// entry is dropped once every link has been seen, so the map only holds
    /// links still outstanding. Unknown link counts are kept for the whole scan.
    pending_links: foldhash::HashMap<(u64, u64), u64>,
    /// An error before any child of the root has arrived is most likely
    /// the root's own listing failing; kept so that a scan yielding
    /// nothing but the root can fail with it.
    root_error: Option<IoError>,
    /// The path the root is named by.
    root: String,
    count_hard_links_once: bool,
    progress: Progress,
}

impl ScanBuilder {
    pub closed spec fn spec_nodes(&self) -> Seq<Node> {
        self.tree.spec_nodes()
    }

    pub closed spec fn spec_dirs(&self) -> Seq<Option<NodeId>> {
        self.directory_nodes@
    }

    pub closed spec fn spec_pending(&self) -> Map<(u64, u64), u64> {
        self.pending_links@
    }

    pub closed spec fn spec_root_error(&self) -> Option<IoError> {
        self.root_error
    }

    pub closed spec fn spec_root(&self) -> String {
        self.root
    }

    pub closed spec fn spec_count_once(&self) -> bool {
        self.count_hard_links_once
    }

    pub closed spec fn spec_progress(&self) -> Progress {
        self.progress
    }

    /// Placed directories are placed nodes, and every outstanding link
    /// count is at least one.
    pub open spec fn wf(&self) -> bool {
        &&& forall|k: int|
            0 <= k < self.spec_dirs().len() ==> (#[trigger] self.spec_dirs()[k] matches Some(id)
                ==> (id.0 as int) < self.spec_nodes().len())
        &&& forall|key: (u64, u64)| #[trigger]
            self.spec_pending().contains_key(key) ==> self.spec_pending()[key] >= 1
    }

    /// A builder for a walk of `root`.
    pub fn new(root: String, options: &ScanOptions) -> (r: ScanBuilder)
        ensures
            r.wf(),
            r.spec_nodes().len() == 0,
            r.spec_dirs().len() == 0,
            r.spec_pending().is_empty(),
            r.spec_root_error() is None,
            r.spec_root() == root,
            r.spec_count_once() == options.count_hard_links_once,
            r.spec_progress() == (Progress { entries: 0, errors: 0 }),
    {
        ScanBuilder {
            tree: TreeBuilder::new(),
            directory_nodes: Vec::new(),
            pending_links: map_new(),
            root_error: None,
            root,
            count_hard_links_once: options.count_hard_links_once,
            progress: Progress { entries: 0, errors: 0 },
        }
    }

    /// Entries placed so far.
    pub fn len(&self) -> (r: usize)
        ensures
            r == self.spec_nodes().len(),
    {
        self.tree.len()
    }

    /// The counters so far.
    pub fn progress(&self) -> (r: Progress)
        ensures
            r == self.spec_progress(),
    {
        self.progress
    }

    /// Take in the walk's next entry. It is placed under its directory and
    /// its id returned, or dropped (`None`) when that directory was never
    /// placed.
    pub fn accept(&mut self, entry: Walked) -> (placed: Option<NodeId>)
        requires
            old(self).wf(),
            old(self).spec_nodes().len() <= u32::MAX,
            entry.parent is None ==> old(self).spec_nodes().len() == 0,
            entry.metadata matches Metadata::Read(stat) ==> (stat.link matches Some((_, Some(n))) ==> n
                >= 2),
        ensures
            final(self).wf(),
            accept_step(*old(self), entry, *final(self)),
            final(self).spec_root() == old(self).spec_root(),
            final(self).spec_count_once() == old(self).spec_count_once(),
            final(self).spec_root_error() == old(self).spec_root_error(),
            match placement(old(self).spec_dirs(), entry.parent) {
                None => {
                    &&& placed is None
                    &&& final(self).spec_nodes() == old(self).spec_nodes()
                    &&& final(self).spec_dirs() == old(self).spec_dirs()
                    &&& final(self).spec_pending() == old(self).spec_pending()
                    &&& final(self).spec_progress() == old(self).spec_progress()
                },
                Some(parent) => {
                    let tracked_link = tracks_link(old(self).spec_count_once(), entry);
                    let step = link_step(
                        old(self).spec_pending(),
                        entry.metadata->Read_0.link->Some_0.0,
                        entry.metadata->Read_0.link->Some_0.1,
                    );
                    let id = NodeId(old(self).spec_nodes().len() as u32);
                    &&& placed == Some(id)
                    &&& final(self).spec_nodes() == old(self).spec_nodes().push(
                        walked_node(old(self).spec_root(), parent, entry, tracked_link && step.1),
                    )
                    &&& final(self).spec_pending() == if tracked_link {
                        step.0
                    } else {
                        old(self).spec_pending()
                    }
                    &&& final(self).spec_dirs() == match entry.directory {
                        Some(index) => dirs_after(old(self).spec_dirs(), index as int, id),
                        None => old(self).spec_dirs(),
                    }
                    &&& final(self).spec_progress() == (Progress {
                        entries: bump(old(self).spec_progress().entries),
                        errors: if entry.metadata is Failed {
                            bump(old(self).spec_progress().errors)
                        } else {
                            old(self).spec_progress().errors
                        },
                    })
                },
            },
    {
        let parent = match entry.parent {
            None => None,
            Some(index) => {
                if index < self.directory_nodes.len() {
                    match self.directory_nodes[index] {
                        Some(p) => Some(p),
                        None => return None,
                    }
                } else {
                    return None;
                }
            },
        };
        let name = if parent.is_none() {
            self.root.clone()
        } else {
            entry.name.clone()
        };
        let kind = entry.kind;
        let mut duplicate = false;
        let mut apparent_size: u64 = 0;
        let mut allocated_size: u64 = 0;
        let mut modified: Option<i128> = None;
        let mut error = false;
        match entry.metadata {
            Metadata::Read(stat) => {
                apparent_size = stat.apparent_size;
                allocated_size = stat.allocated_size;
                modified = stat.modified;
                if self.count_hard_links_once && kind == Kind::File {
                    if let Some((identity, links)) = stat.link {
                        duplicate = self.meet_link(identity, links);
                    }
                }
            },
            Metadata::Failed => {
                error = true;
                self.progress.errors = bumped(self.progress.errors);
            },
            Metadata::NotAsked => {},
        }
        let node = Node {
            name,
            parent,
            kind,
            apparent_size,
            allocated_size,
            file_count: if kind != Kind::Directory { 1 } else { 0 },
            dir_count: 0,
            modified,
            duplicate_link: duplicate,
            error,
        };
        let id = self.tree.push(node);
        if let Some(index) = entry.directory {
            let mut dirs: Vec<Option<NodeId>> = Vec::new();
            std::mem::swap(&mut dirs, &mut self.directory_nodes);
            let ghost before = dirs@;
            while dirs.len() <= index
                invariant
                    dirs@.len() >= before.len(),
                    dirs@.len() == before.len() || dirs@.len() <= index + 1,
                    forall|k: int|
                        0 <= k < dirs@.len() ==> #[trigger] dirs@[k] == if k < before.len() {
                            before[k]
                        } else {
                            None
                        },
                decreases index + 1 - dirs.len(),
            {
                dirs.push(None);
            }
            dirs.set(index, Some(id));
            assert(dirs@ =~= dirs_after(before, index as int, id));
            self.directory_nodes = dirs;
        }
        self.progress.entries = bumped(self.progress.entries);
        proof {
            assert forall|key: (u64, u64)| #[trigger]
                self.spec_pending().contains_key(key) implies self.spec_pending()[key] >= 1 by {
                if !(tracks_link(old(self).spec_count_once(), entry)) {
                    assert(old(self).spec_pending().contains_key(key));
                }
            }
            assert forall|k: int| 0 <= k < self.spec_dirs().len() implies (#[trigger] self.spec_dirs()[k] matches Some(
                p,
            ) ==> (p.0 as int) < self.spec_nodes().len()) by {
                if k < old(self).spec_dirs().len() && old(self).spec_dirs()[k] is Some {
                    assert(old(self).spec_dirs()[k] matches Some(q) && (q.0 as int) < old(self).spec_nodes().len());
                }
            }
        }
        Some(id)
    }

    /// The hard-link bookkeeping for one link of `identity`; whether it is a duplicate.
    #[verifier::spinoff_prover]
    fn meet_link(&mut self, identity: (u64, u64), links: Option<u64>) -> (duplicate: bool)
        requires
            forall|key: (u64, u64)| #[trigger]
                old(self).spec_pending().contains_key(key) ==> old(self).spec_pending()[key] >= 1,
            links matches Some(n) ==> n >= 2,
        ensures
            (final(self).spec_pending(), duplicate) == link_step(old(self).spec_pending(), identity, links),
            forall|key: (u64, u64)| #[trigger]
                final(self).spec_pending().contains_key(key) ==> final(self).spec_pending()[key] >= 1,
            final(self).tree == old(self).tree,
            final(self).directory_nodes == old(self).directory_nodes,
            final(self).root_error == old(self).root_error,
            final(self).root == old(self).root,
            final(self).count_hard_links_once == old(self).count_hard_links_once,
            final(self).progress == old(self).progress,
    {
        proof {
            if self.pending_links@.contains_key(identity) {
                assert(old(self).spec_pending().contains_key(identity));
            }
        }
        match pair_map_get(&self.pending_links, &identity) {
            None => {
                let first = match links {
                    Some(n) => n - 1,
                    None => u64::MAX,
                };
                pair_map_insert(&mut self.pending_links, identity, first);
                false
            },
            Some(remaining) => {
                if links.is_some() {
                    let left = remaining - 1;
                    if left == 0 {
                        pair_map_remove(&mut self.pending_links, &identity);
                    } else {
                        pair_map_insert(&mut self.pending_links, identity, left);
                    }
                }
                true
            },
        }
    }

    /// Take in an error from the walk. Before anything was placed the scan
    /// fails with it at once (`Some`); afterwards it is counted, and kept
    /// when only the root has been placed so far.
    pub fn fail(&mut self, error: IoError) -> (fatal: Option<IoError>)
        requires
            old(self).wf(),
        ensures
            final(self).wf(),
            final(self).spec_nodes() == old(self).spec_nodes(),
            final(self).spec_dirs() == old(self).spec_dirs(),
            final(self).spec_pending() == old(self).spec_pending(),
            final(self).spec_root() == old(self).spec_root(),
            final(self).spec_count_once() == old(self).spec_count_once(),
            if old(self).spec_nodes().len() == 0 {
                &&& fatal == Some(error)
                &&& final(self).spec_root_error() == old(self).spec_root_error()
                &&& final(self).spec_progress() == old(self).spec_progress()
            } else {
                &&& fatal is None
                &&& final(self).spec_root_error() == if old(self).spec_nodes().len() == 1
                    && old(self).spec_root_error() is None {
                    Some(error)
                } else {
                    old(self).spec_root_error()
                }
                &&& final(self).spec_progress() == (Progress {
                    errors: bump(old(self).spec_progress().errors),
                    ..old(self).spec_progress()
                })
            },
    {
        let len = self.tree.len();
        if len == 0 {
            return Some(error);
        }
        if len == 1 && self.root_error.is_none() {
            self.root_error = Some(error);
        }
        self.progress.errors = bumped(self.progress.errors);
        proof {
            assert forall|key: (u64, u64)| #[trigger]
                self.spec_pending().contains_key(key) implies self.spec_pending()[key] >= 1 by {
                assert(old(self).spec_pending().contains_key(key));
            }
        }
        None
    }

    /// End the scan: cancelled, empty, or only a root whose listing failed
    /// is an error; otherwise the finished tree, sorted by `metric`.
    pub fn finish(self, cancelled: bool, metric: SizeMetric) -> (r: Result<Tree, IoError>)
        ensures
            cancelled ==> (r matches Err(e) && e.kind == ErrorKind::Interrupted),
            !cancelled && self.spec_nodes().len() == 0 ==> (r matches Err(e) && e.kind
                == ErrorKind::NotFound),
            !cancelled && self.spec_nodes().len() == 1 && self.spec_root_error() is Some ==> (r matches Err(
                e,
            ) && e.kind == self.spec_root_error()->Some_0.kind && e.message@ == "cannot read "@
                + self.spec_root()@ + ": "@ + self.spec_root_error()->Some_0.message@),
            !cancelled && self.spec_nodes().len() >= 1 && !(self.spec_nodes().len() == 1
                && self.spec_root_error() is Some) ==> if totals_fit(self.spec_nodes()) {
                r matches Ok(tree) && tree.spec_metric() == metric && tree.spec_nodes().len()
                    == self.spec_nodes().len() && forall|i: int|
                    0 <= i < self.spec_nodes().len() ==> #[trigger] tree.spec_nodes()[i] == finished(
                        self.spec_nodes(),
                        i,
                    )
            } else {
                r matches Err(e) && e.kind == ErrorKind::Other
            },
    {
        if cancelled {
            return Err(IoError { kind: ErrorKind::Interrupted, message: String::from_str("scan cancelled") });
        }
        let len = self.tree.len();
        if len == 0 {
            return Err(IoError { kind: ErrorKind::NotFound, message: String::from_str("nothing scanned") });
        }
        if len == 1 {
            if let Some(error) = self.root_error {
                let mut message = String::from_str("cannot read ");
                message.append(self.root.as_str());
                message.append(": ");
                message.append(error.message.as_str());
                proof {
                    reveal_strlit("cannot read ");
                    reveal_strlit(": ");
                }
                return Err(IoError { kind: error.kind, message });
            }
        }
        if !self.tree.totals_fit() {
            return Err(
                IoError { kind: ErrorKind::Other, message: String::from_str("sizes too large to add up") },
            );
        }
        Ok(self.tree.finish(metric))
    }
}

/// How accepting `entry` turns a builder `before` into `after` (what
/// [`ScanBuilder::accept`] does to the nodes, the directory table and the
/// hard-link bookkeeping).
pub open spec fn accept_step(before: ScanBuilder, entry: Walked, after: ScanBuilder) -> bool {
    &&& after.spec_root() == before.spec_root()
    &&& after.spec_count_once() == before.spec_count_once()
    &&& match placement(before.spec_dirs(), entry.parent) {
        None => {
            &&& after.spec_nodes() == before.spec_nodes()
            &&& after.spec_dirs() == before.spec_dirs()
            &&& after.spec_pending() == before.spec_pending()
        },
        Some(parent) => {
            let counted = tracks_link(before.spec_count_once(), entry);
            let step = link_step(
                before.spec_pending(),
                entry.metadata->Read_0.link->Some_0.0,
                entry.metadata->Read_0.link->Some_0.1,
            );
            &&& after.spec_nodes() == before.spec_nodes().push(
                walked_node(before.spec_root(), parent, entry, counted && step.1),
            )
            &&& after.spec_pending() == if counted {
                step.0
            } else {
                before.spec_pending()
            }
            &&& after.spec_dirs() == match entry.directory {
                Some(index) => dirs_after(before.spec_dirs(), index as int, NodeId(before.spec_nodes().len() as u32)),
                None => before.spec_dirs(),
            }
        },
    }
}

/// Whether `entry` is a link, counted once (`count_once`), to the data
/// `identity`.
pub open spec fn links_to(count_once: bool, entry: Walked, identity: (u64, u64)) -> bool {
    tracks_link(count_once, entry) && entry.metadata->Read_0.link->Some_0.0 == identity
}

/// How many of the first `m` entries were placed and link to `identity`.
pub open spec fn links_placed(states: Seq<ScanBuilder>, entries: Seq<Walked>, identity: (u64, u64), m: int) -> nat
    decreases m,
{
    if m <= 0 {
        0
    } else {
        links_placed(states, entries, identity, m - 1) + if links_to(
            states[0].spec_count_once(),
            entries[m - 1],
            identity,
        ) && placement(states[m - 1].spec_dirs(), entries[m - 1].parent) is Some {
            1nat
        } else {
            0nat
        }
    }
}

/// Successive builders `states`, each accepting the next of `entries`.
pub open spec fn accepted_in_turn(states: Seq<ScanBuilder>, entries: Seq<Walked>) -> bool {
    &&& states.len() == entries.len() + 1
    &&& forall|t: int| 0 <= t < entries.len() ==> accept_step(states[t], entries[t], #[trigger] states[t + 1])
}

/// The bookkeeping for `identity` after the first `m` entries: nothing
/// while no link to it was placed or once all `n` were, otherwise the
/// links still to come.
proof fn lemma_links_pending(
    states: Seq<ScanBuilder>,
    entries: Seq<Walked>,
    identity: (u64, u64),
    n: u64,
    m: int,
)
    requires
        accepted_in_turn(states, entries),
        0 <= m <= entries.len(),
        n >= 2,
        !states[0].spec_pending().contains_key(identity),
        forall|t: int|
            0 <= t < entries.len() && links_to(states[0].spec_count_once(), #[trigger] entries[t], identity)
                ==> entries[t].metadata->Read_0.link->Some_0.1 == Some(n),
        links_placed(states, entries, identity, entries.len() as int) <= n,
    ensures
        states[m].spec_count_once() == states[0].spec_count_once(),
        links_placed(states, entries, identity, m) <= links_placed(
            states,
            entries,
            identity,
            entries.len() as int,
        ),
        ({
            let c = links_placed(states, entries, identity, m);
            let pending = states[m].spec_pending();
            if c == 0 || c == n {
                !pending.contains_key(identity)
            } else {
                pending.contains_key(identity) && pending[identity] == n - c
            }
        }),
    decreases m,
{
    lemma_links_placed_grow(states, entries, identity, m, entries.len() as int);
    if m > 0 {
        lemma_links_pending(states, entries, identity, n, m - 1);
        let t = m - 1;
        assert(accept_step(states[t], entries[t], states[t + 1]));
        let before = states[t].spec_pending();
        let e = entries[t];
        match placement(states[t].spec_dirs(), e.parent) {
            None => {},
            Some(_) => {
                if tracks_link(states[t].spec_count_once(), e) {
                    let key = e.metadata->Read_0.link->Some_0.0;
                    if key == identity {
                        assert(e.metadata->Read_0.link->Some_0.1 == Some(n));
                    } else {
                        let after = states[m].spec_pending();
                        assert(after.contains_key(identity) == before.contains_key(identity));
                        if before.contains_key(identity) {
                            assert(after[identity] == before[identity]);
                        }
                    }
                }
            },
        }
    }
}

proof fn lemma_links_placed_grow(
    states: Seq<ScanBuilder>,
    entries: Seq<Walked>,
    identity: (u64, u64),
    a: int,
    b: int,
)
    requires
        0 <= a <= b,
    ensures
        links_placed(states, entries, identity, a) <= links_placed(states, entries, identity, b),
    decreases b,
{
    if a < b {
        lemma_links_placed_grow(states, entries, identity, a, b - 1);
    }
}

/// Hard-linked data is counted once: over successive
/// [`ScanBuilder::accept`] calls counting links once, of the placed links
/// to one piece of data (with its `n` links, at most `n` of them met) the
/// first one placed is no duplicate and every later one is. Without
/// counting once, no placed entry is a duplicate.
pub proof fn hard_links_count_once(states: Seq<ScanBuilder>, entries: Seq<Walked>, identity: (u64, u64), n: u64)
    requires
        accepted_in_turn(states, entries),
        n >= 2,
        !states[0].spec_pending().contains_key(identity),
        forall|t: int|
            0 <= t < entries.len() && links_to(states[0].spec_count_once(), #[trigger] entries[t], identity)
                ==> entries[t].metadata->Read_0.link->Some_0.1 == Some(n),
        links_placed(states, entries, identity, entries.len() as int) <= n,
    ensures
        forall|t: int|
            0 <= t < entries.len() && links_to(states[0].spec_count_once(), #[trigger] entries[t], identity)
                && placement(states[t].spec_dirs(), entries[t].parent) is Some ==> states[t + 1].spec_nodes().last().duplicate_link
                == (links_placed(states, entries, identity, t) > 0),
        !states[0].spec_count_once() ==> forall|t: int|
            0 <= t < entries.len() && placement(states[t].spec_dirs(), #[trigger] entries[t].parent) is Some
                ==> !states[t + 1].spec_nodes().last().duplicate_link,
{
    assert forall|t: int|
        0 <= t < entries.len() && links_to(states[0].spec_count_once(), #[trigger] entries[t], identity)
            && placement(states[t].spec_dirs(), entries[t].parent) is Some implies states[t + 1].spec_nodes().last().duplicate_link
            == (links_placed(states, entries, identity, t) > 0) by {
        lemma_links_pending(states, entries, identity, n, t);
        lemma_links_placed_grow(states, entries, identity, t + 1, entries.len() as int);
        assert(accept_step(states[t], entries[t], states[t + 1]));
    }
    assert forall|t: int|
        !states[0].spec_count_once() && 0 <= t < entries.len() && placement(
            states[t].spec_dirs(),
            #[trigger] entries[t].parent,
        ) is Some implies !states[t + 1].spec_nodes().last().duplicate_link by {
        lemma_links_pending(states, entries, identity, n, t);
        assert(accept_step(states[t], entries[t], states[t + 1]));
    }
}

/// Prepare the process for a scan: nothing is needed on this platform.
pub fn prepare_process() {
}

/// Directories that only repeat content reachable elsewhere under `root`,
/// never entered: none on this platform.
pub fn duplicate_directories(root: &str) -> (r: Vec<String>)
    ensures
        r@.len() == 0,
{
    Vec::new()
}

/// Whether a walk goes into an entry at `path` (a directory when
/// `is_dir`): not into a directory that only repeats content reachable
/// elsewhere (one of `duplicates`), and, when staying on one filesystem,
/// not onto another device than the root's, as far as both devices are
/// known.
pub open spec fn descends_spec(
    is_dir: bool,
    path: Seq<char>,
    duplicates: Seq<String>,
    same_filesystem: bool,
    root_device: Option<u64>,
    device: Option<u64>,
) -> bool {
    &&& !(is_dir && exists|k: int|
        0 <= k < duplicates.len() && crate::paths::components(#[trigger] duplicates[k]@)
            == crate::paths::components(path))
    &&& (same_filesystem && root_device is Some && device is Some ==> device == root_device)
}

/// Whether a walk goes into the entry at `path` (see [`descends_spec`]);
/// `device` is the entry's device when its attributes could be read.
pub fn descends(
    is_dir: bool,
    path: &str,
    duplicates: &[String],
    same_filesystem: bool,
    root_device: Option<u64>,
    device: Option<u64>,
) -> (r: bool)
    ensures
        r == descends_spec(is_dir, path@, duplicates@, same_filesystem, root_device, device),
{
    if is_dir {
        let mut k: usize = 0;
        while k < duplicates.len()
            invariant
                is_dir,
                k <= duplicates@.len(),
                forall|j: int|
                    0 <= j < k ==> crate::paths::components(#[trigger] duplicates@[j]@)
                        != crate::paths::components(path@),
            decreases duplicates@.len() - k,
        {
            if crate::paths::same_path(duplicates[k].as_str(), path) {
                assert(crate::paths::components(duplicates@[k as int]@) == crate::paths::components(path@));
                return false;
            }
            k = k + 1;
        }
    }
    match (same_filesystem, root_device, device) {
        (true, Some(root), Some(dev)) => dev == root,
        _ => true,
    }
}

/// Where the Data volume of a macOS volume group is mounted.
pub open spec fn data_volume() -> Seq<char> {
    "/System/Volumes/Data"@
}

/// `s` without its leading `/`s.
pub open spec fn strip_slashes(s: Seq<char>, i: int) -> Seq<char>
    decreases s.len() - i,
{
    if i >= 0 && i < s.len() && s[i] == '/' {
        strip_slashes(s, i + 1)
    } else if 0 <= i <= s.len() {
        s.subrange(i, s.len() as int)
    } else {
        seq![]
    }
}

/// The firmlink of a table line, as (source, target on the Data volume),
/// when the line has the two tab-separated columns.
pub open spec fn firmlink_of(line: Seq<char>) -> Option<(Seq<char>, Seq<char>)> {
    let tab = find_from(line, '\t', 0);
    if tab >= line.len() {
        None
    } else {
        let end = find_from(line, '\t', tab + 1);
        let source = line.subrange(0, tab);
        let target = line.subrange(tab + 1, end);
        Some((source, crate::tree::join(data_volume(), strip_slashes(target, 0))))
    }
}

/// The firmlink targets, from lines `k..` of the table, that a scan of
/// `root` would count a second time: those whose firmlink is inside the
/// scan while the scan is not inside the target.
pub open spec fn duplicates_from(table: Seq<Seq<char>>, k: int, root: Seq<char>) -> Seq<Seq<char>>
    decreases table.len() - k,
{
    if k < 0 || k >= table.len() {
        seq![]
    } else {
        match firmlink_of(table[k]) {
            Some((source, target)) => if starts_with_spec(source, root) && !starts_with_spec(root, target) {
                seq![target] + duplicates_from(table, k + 1, root)
            } else {
                duplicates_from(table, k + 1, root)
            },
            None => duplicates_from(table, k + 1, root),
        }
    }
}

/// Firmlink targets on the Data volume that a scan of `root` would count
/// a second time, from the system's firmlink table (`/usr/share/firmlinks`,
/// a firmlink and its target per line, tab-separated).
///
/// Since Catalina the boot disk is a volume group: the sealed system
/// volume at `/` and the Data volume at `/System/Volumes/Data`, with
/// firmlinks grafting Data folders into the system tree (`/Users` is
/// `/System/Volumes/Data/Users`). Both share one device id, so the
/// same-filesystem test cannot separate them, and a scan of `/` would see
/// every user file twice. A target is a duplicate only when its firmlink
/// is inside the scan too; scanning the Data volume itself, or the target
/// or something within it, must still count it.
pub fn firmlink_duplicates(table: &str, root: &str) -> (r: Vec<String>)
    ensures
        r@.map_values(|s: String| s@) == duplicates_from(lines_of(table@), 0, root@),
{
    let all = lines(table);
    let ghost tv = all@.map_values(|l: String| l@);
    let mut out: Vec<String> = Vec::new();
    let mut k: usize = 0;
    assert(out@.map_values(|s: String| s@) =~= Seq::<Seq<char>>::empty());
    while k < all.len()
        invariant
            k <= all@.len(),
            tv == all@.map_values(|l: String| l@),
            tv == lines_of(table@),
            out@.map_values(|s: String| s@) + duplicates_from(tv, k as int, root@) == duplicates_from(tv, 0, root@),
        decreases all@.len() - k,
    {
        let ghost before = out@.map_values(|s: String| s@);
        let chars = chars_of(all[k].as_str());
        let tab = find_char(&chars, '\t', 0);
        if tab < chars.len() {
            let end = find_char(&chars, '\t', tab + 1);
            let source = text_of(&chars, 0, tab);
            let mut t = tab + 1;
            while t < end && chars[t] == '/'
                invariant
                    tab + 1 <= t <= end <= chars@.len(),
                    strip_slashes(chars@.subrange(tab + 1, end as int), (t - tab - 1) as int) == strip_slashes(
                        chars@.subrange(tab + 1, end as int),
                        0,
                    ),
                decreases end - t,
            {
                assert(chars@.subrange(tab + 1, end as int)[(t - tab - 1) as int] == chars@[t as int]);
                t = t + 1;
            }
            let stripped = text_of(&chars, t, end);
            proof {
                let target = chars@.subrange(tab + 1, end as int);
                let i = (t - tab - 1) as int;
                if i < target.len() {
                    assert(target[i] == chars@[t as int]);
                }
                assert(stripped@ =~= target.subrange(i, target.len() as int));
                assert(strip_slashes(target, i) == stripped@);
            }
            let target = join("/System/Volumes/Data", stripped.as_str());
            proof {
                reveal_strlit("/System/Volumes/Data");
                assert(firmlink_of(tv[k as int]) == Some((source@, target@)));
            }
            if starts_with(source.as_str(), root) && !starts_with(root, target.as_str()) {
                out.push(target);
                proof {
                    let e = out@.last()@;
                    assert(out@.map_values(|s: String| s@) =~= before.push(e));
                    assert(before.push(e) + duplicates_from(tv, k + 1, root@) =~= before + (seq![e]
                        + duplicates_from(tv, k + 1, root@)));
                }
            }
        }
        k = k + 1;
    }
    proof {
        assert(duplicates_from(tv, k as int, root@) =~= Seq::<Seq<char>>::empty());
        assert(out@.map_values(|s: String| s@) + Seq::<Seq<char>>::empty() =~= out@.map_values(|s: String| s@));
    }
    out
}

} // verus!
