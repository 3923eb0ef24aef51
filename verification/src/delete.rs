//! Permanent deletion, bypassing the trash.
//!
//! The tree is not re-enumerated: the scan already knows every path, so
//! the deletion removes the scanned files first and then the directories
//! deepest first, each one empty when its turn comes. Links are removed as
//! links; their targets are never entered. Nothing here is reversible, so
//! it is offered only once the user has unlocked it.
//!
//! A [`Deletion`] hands out the paths one at a time and records what
//! removing each did; the caller removes them, checks for cancellation
//! between them, and reports the [`DeleteOutcome`].

use crate::app::{chain_up, marked, App};
use crate::format::{decimal, push_decimal};
use crate::scan::{ErrorKind, IoError};
use crate::text::push_char;
use crate::tree::{path_of, Kind, Node, NodeId, Tree};
use vstd::prelude::*;
use vstd::string::*;

verus! {

/// Whether node `i` is `top` or lies below it.
pub open spec fn under(nodes: Seq<Node>, i: int, top: int) -> bool {
    chain_up(nodes, i).contains(NodeId(top as u32))
}

/// The ancestors of a node never have larger ids than it.
proof fn lemma_chain_below(nodes: Seq<Node>, i: int, k: int)
    requires
        0 <= k < chain_up(nodes, i).len(),
        nodes.len() <= u32::MAX + 1,
    ensures
        0 <= chain_up(nodes, i)[k].0 <= i,
        k == 0 ==> chain_up(nodes, i)[k].0 == i,
    decreases i,
{
    if 0 <= i < nodes.len() {
        match nodes[i].parent {
            Some(p) => if 0 <= p.0 < i {
                if k > 0 {
                    lemma_chain_below(nodes, p.0 as int, k - 1);
                }
            },
            None => {},
        }
    }
}

/// A node strictly below `top` is below it exactly when its parent is.
proof fn lemma_under_step(nodes: Seq<Node>, i: int, top: int)
    requires
        crate::tree::parents_ok(nodes),
        nodes.len() <= u32::MAX + 1,
        0 <= top < i < nodes.len(),
    ensures
        under(nodes, i, top) == (nodes[i].parent matches Some(p) && (p.0 as int) >= top && under(
            nodes,
            p.0 as int,
            top,
        )),
{
    let c = chain_up(nodes, i);
    match nodes[i].parent {
        Some(p) => {
            let rest = chain_up(nodes, p.0 as int);
            assert(c == seq![NodeId(i as u32)] + rest);
            if under(nodes, i, top) {
                let k = choose|k: int| 0 <= k < c.len() && c[k] == NodeId(top as u32);
                assert(k != 0);
                assert(rest[k - 1] == NodeId(top as u32));
                lemma_chain_below(nodes, p.0 as int, k - 1);
                assert(under(nodes, p.0 as int, top));
            }
            if (p.0 as int) >= top && under(nodes, p.0 as int, top) {
                let k = choose|k: int| 0 <= k < rest.len() && rest[k] == NodeId(top as u32);
                assert(c[k + 1] == NodeId(top as u32));
            }
        },
        None => {},
    }
}

/// A node is below `top` only when its id is at least `top`'s.
proof fn lemma_under_after(nodes: Seq<Node>, i: int, top: int)
    requires
        0 <= top < nodes.len(),
        nodes.len() <= u32::MAX + 1,
        under(nodes, i, top),
    ensures
        top <= i,
{
    let c = chain_up(nodes, i);
    let k = choose|k: int| 0 <= k < c.len() && c[k] == NodeId(top as u32);
    lemma_chain_below(nodes, i, k);
}

/// A node is below itself.
proof fn lemma_under_self(nodes: Seq<Node>, i: int)
    requires
        0 <= i < nodes.len(),
        nodes.len() <= u32::MAX + 1,
    ensures
        under(nodes, i, i),
{
    lemma_chain_below(nodes, i, 0);
    assert(chain_up(nodes, i)[0] == NodeId(i as u32));
}

/// `files` and `dirs` list the subtree at `top`: every node below it
/// (itself included) once, directories in `dirs` and everything else in
/// `files`; `files` in id order, `dirs` in reverse id order, so every
/// directory comes after everything inside it.
pub open spec fn removal_ok(nodes: Seq<Node>, top: int, files: Seq<NodeId>, dirs: Seq<NodeId>) -> bool {
    &&& forall|k: int|
        0 <= k < files.len() ==> under(nodes, #[trigger] files[k].0 as int, top)
            && nodes[files[k].0 as int].kind != Kind::Directory && (files[k].0 as int) < nodes.len()
    &&& forall|k: int|
        0 <= k < dirs.len() ==> under(nodes, #[trigger] dirs[k].0 as int, top)
            && nodes[dirs[k].0 as int].kind == Kind::Directory && (dirs[k].0 as int) < nodes.len()
    &&& forall|i: int|
        0 <= i < nodes.len() && under(nodes, i, top) ==> (if nodes[i].kind == Kind::Directory {
            dirs.contains(NodeId(i as u32))
        } else {
            files.contains(NodeId(i as u32))
        })
    &&& forall|a: int, b: int| 0 <= a < b < files.len() ==> files[a].0 < files[b].0
    &&& forall|a: int, b: int| 0 <= a < b < dirs.len() ==> dirs[a].0 > dirs[b].0
    &&& forall|a: int, b: int| 0 <= a < b < dirs.len() ==> !under(nodes, dirs[b].0 as int, dirs[a].0 as int)
}

/// Files (and links and other non-directories) and directories of the
/// subtree at `top`, as ids, in the order they are to be removed (see
/// [`removal_ok`]).
pub fn removal_order(tree: &Tree, top: NodeId) -> (r: (Vec<NodeId>, Vec<NodeId>))
    requires
        (top.0 as int) < tree.spec_nodes().len(),
    ensures
        removal_ok(tree.spec_nodes(), top.0 as int, r.0@, r.1@),
{
    proof {
        use_type_invariant(tree);
    }
    let nodes = tree.nodes();
    let ghost ns = tree.spec_nodes();
    let n = nodes.len();
    let t = top.0 as usize;
    // Whether each node from `top` on lies in the subtree; parents come
    // before children, so one pass in id order settles it.
    let mut inside: Vec<bool> = Vec::new();
    let mut files: Vec<NodeId> = Vec::new();
    let mut dirs: Vec<NodeId> = Vec::new();
    let mut i: usize = t;
    proof {
        lemma_under_self(ns, t as int);
    }
    while i < n
        invariant
            nodes@ == ns,
            n == ns.len(),
            crate::tree::parents_ok(ns),
            ns.len() <= u32::MAX + 1,
            t == top.0,
            t < n,
            t <= i <= n,
            inside@.len() == i - t,
            forall|m: int| 0 <= m < inside@.len() ==> inside@[m] == under(ns, m + t, t as int),
            forall|k: int|
                0 <= k < files@.len() ==> under(ns, #[trigger] files@[k].0 as int, t as int)
                    && ns[files@[k].0 as int].kind != Kind::Directory && t <= files@[k].0 < i,
            forall|k: int|
                0 <= k < dirs@.len() ==> under(ns, #[trigger] dirs@[k].0 as int, t as int)
                    && ns[dirs@[k].0 as int].kind == Kind::Directory && t <= dirs@[k].0 < i,
            forall|j: int|
                t <= j < i && under(ns, j, t as int) ==> (if ns[j].kind == Kind::Directory {
                    dirs@.contains(NodeId(j as u32))
                } else {
                    files@.contains(NodeId(j as u32))
                }),
            forall|a: int, b: int| 0 <= a < b < files@.len() ==> files@[a].0 < files@[b].0,
            forall|a: int, b: int| 0 <= a < b < dirs@.len() ==> dirs@[a].0 < dirs@[b].0,
        decreases n - i,
    {
        let is_inside = if i == t {
            true
        } else {
            match nodes[i].parent {
                Some(p) => {
                    let q = p.0 as usize;
                    if q >= t {
                        assert((q as int) < i);
                        assert(inside@[q - t] == under(ns, q as int, t as int));
                        inside[q - t]
                    } else {
                        false
                    }
                },
                None => false,
            }
        };
        proof {
            if i > t {
                lemma_under_step(ns, i as int, t as int);
            } else {
                lemma_under_self(ns, t as int);
            }
        }
        assert(is_inside == under(ns, i as int, t as int));
        inside.push(is_inside);
        if is_inside {
            let id = NodeId(i as u32);
            let ghost before_f = files@;
            let ghost before_d = dirs@;
            match nodes[i].kind {
                Kind::Directory => {
                    dirs.push(id);
                    assert(dirs@[dirs@.len() - 1] == id);
                },
                _ => {
                    files.push(id);
                    assert(files@[files@.len() - 1] == id);
                },
            }
            assert forall|j: int|
                t <= j < i + 1 && under(ns, j, t as int) implies (if ns[j].kind == Kind::Directory {
                dirs@.contains(NodeId(j as u32))
            } else {
                files@.contains(NodeId(j as u32))
            }) by {
                if j < i {
                    if ns[j].kind == Kind::Directory {
                        let k = choose|k: int| 0 <= k < before_d.len() && before_d[k] == NodeId(j as u32);
                        assert(dirs@[k] == NodeId(j as u32));
                    } else {
                        let k = choose|k: int| 0 <= k < before_f.len() && before_f[k] == NodeId(j as u32);
                        assert(files@[k] == NodeId(j as u32));
                    }
                }
            }
        }
        i = i + 1;
    }
    // Deepest first: descendants have larger ids, so reverse id order.
    let mut deepest: Vec<NodeId> = Vec::new();
    let mut k: usize = dirs.len();
    while k > 0
        invariant
            k <= dirs@.len(),
            deepest@.len() == dirs@.len() - k,
            forall|m: int| 0 <= m < deepest@.len() ==> deepest@[m] == dirs@[dirs@.len() - 1 - m],
        decreases k,
    {
        k = k - 1;
        deepest.push(dirs[k]);
    }
    proof {
        assert forall|j: int|
            0 <= j < ns.len() && under(ns, j, t as int) && ns[j].kind == Kind::Directory implies deepest@.contains(
            NodeId(j as u32),
        ) by {
            lemma_under_after(ns, j, t as int);
            let m = choose|m: int| 0 <= m < dirs@.len() && dirs@[m] == NodeId(j as u32);
            assert(deepest@[dirs@.len() - 1 - m] == NodeId(j as u32));
        }
        assert forall|j: int|
            0 <= j < ns.len() && under(ns, j, t as int) && ns[j].kind != Kind::Directory implies files@.contains(
            NodeId(j as u32),
        ) by {
            lemma_under_after(ns, j, t as int);
        }
        assert forall|a: int, b: int| 0 <= a < b < deepest@.len() implies !under(
            ns,
            deepest@[b].0 as int,
            deepest@[a].0 as int,
        ) by {
            if under(ns, deepest@[b].0 as int, deepest@[a].0 as int) {
                lemma_under_after(ns, deepest@[b].0 as int, deepest@[a].0 as int);
            }
        }
        assert forall|m: int| 0 <= m < deepest@.len() implies under(ns, #[trigger] deepest@[m].0 as int, t as int)
            && ns[deepest@[m].0 as int].kind == Kind::Directory && (deepest@[m].0 as int) < ns.len() by {
            assert(deepest@[m] == dirs@[dirs@.len() - 1 - m]);
        }
    }
    (files, deepest)
}

/// The paths of [`removal_order`]: files and links (any order), then
/// directories deepest first.
pub fn collect(tree: &Tree, top: NodeId) -> (r: (Vec<String>, Vec<String>))
    requires
        (top.0 as int) < tree.spec_nodes().len(),
    ensures
        exists|files: Seq<NodeId>, dirs: Seq<NodeId>|
            {
                &&& #[trigger] removal_ok(tree.spec_nodes(), top.0 as int, files, dirs)
                &&& r.0@.len() == files.len()
                &&& r.1@.len() == dirs.len()
                &&& forall|k: int| 0 <= k < files.len() ==> r.0@[k]@ == path_of(tree.spec_nodes(), files[k].0 as int)
                &&& forall|k: int| 0 <= k < dirs.len() ==> r.1@[k]@ == path_of(tree.spec_nodes(), dirs[k].0 as int)
            },
{
    let (files, dirs) = removal_order(tree, top);
    let file_paths = paths_of(tree, &files);
    let dir_paths = paths_of(tree, &dirs);
    assert(removal_ok(tree.spec_nodes(), top.0 as int, files@, dirs@));
    (file_paths, dir_paths)
}

fn paths_of(tree: &Tree, ids: &Vec<NodeId>) -> (r: Vec<String>)
    requires
        forall|k: int| 0 <= k < ids@.len() ==> (#[trigger] ids@[k].0 as int) < tree.spec_nodes().len(),
    ensures
        r@.len() == ids@.len(),
        forall|k: int| 0 <= k < ids@.len() ==> r@[k]@ == path_of(tree.spec_nodes(), #[trigger] ids@[k].0 as int),
{
    let mut out: Vec<String> = Vec::new();
    for k in 0..ids.len()
        invariant
            out@.len() == k,
            forall|k: int| 0 <= k < ids@.len() ==> (#[trigger] ids@[k].0 as int) < tree.spec_nodes().len(),
            forall|m: int| 0 <= m < k ==> out@[m]@ == path_of(tree.spec_nodes(), #[trigger] ids@[m].0 as int),
    {
        out.push(tree.path(ids[k]));
    }
    out
}

/// Strip the read-only, hidden and system attributes of `path` so a
/// refused removal can be tried again, and say whether anything changed.
/// Files here carry no such attributes: nothing changes.
pub fn clear_protective_attributes(path: &str) -> (r: Result<bool, IoError>)
    ensures
        r == Ok::<bool, IoError>(false),
{
    Ok(false)
}

/// One path that could not be removed, with the reason.
#[derive(Clone, Debug)]
pub struct DeleteFailure {
    pub path: String,
    pub error: IoError,
}

/// What a finished deletion did.
#[derive(Clone, Debug)]
pub struct DeleteOutcome {
    /// Files and directories removed.
    pub removed: u64,
    /// Paths that could not be removed, in the order they were tried.
    pub failures: Vec<DeleteFailure>,
    /// Stopped early because the deletion was cancelled.
    pub cancelled: bool,
}

impl Default for DeleteOutcome {
    fn default() -> (r: DeleteOutcome)
        ensures
            r.removed == 0,
            r.failures@.len() == 0,
            !r.cancelled,
    {
        DeleteOutcome { removed: 0, failures: Vec::new(), cancelled: false }
    }
}

/// Where a deletion stands.
#[derive(Debug)]
pub enum DeleteStatus {
    Running,
    Done(DeleteOutcome),
}

/// What asking a running deletion for its result gave.
#[derive(Debug)]
pub enum Receipt {
    /// The deletion finished with this outcome.
    Finished(DeleteOutcome),
    /// It is still running.
    Empty,
    /// It ended without reporting.
    Disconnected,
}

/// Whether `r` is the status of the deletion of `path` when asking for its
/// result gave `receipt`: one that ended without a result counts as a
/// single failure on `path` itself.
pub open spec fn status_of(receipt: Receipt, path: Seq<char>, r: DeleteStatus) -> bool {
    match receipt {
        Receipt::Finished(o) => r matches DeleteStatus::Done(d) && d.removed == o.removed
            && d.failures@ == o.failures@ && d.cancelled == o.cancelled,
        Receipt::Empty => r is Running,
        Receipt::Disconnected => r matches DeleteStatus::Done(d) && d.removed == 0 && !d.cancelled
            && d.failures@.len() == 1 && d.failures@[0].path@ == path && d.failures@[0].error.kind
            == ErrorKind::Other,
    }
}

/// The status of the deletion of `path` from what asking for its result
/// gave (see [`status_of`]).
pub fn delete_status(receipt: Receipt, path: &str) -> (r: DeleteStatus)
    ensures
        status_of(receipt, path@, r),
{
    match receipt {
        Receipt::Finished(outcome) => DeleteStatus::Done(outcome),
        Receipt::Empty => DeleteStatus::Running,
        Receipt::Disconnected => {
            let mut outcome = DeleteOutcome::default();
            outcome.failures.push(
                DeleteFailure {
                    path: path.to_owned(),
                    error: IoError { kind: ErrorKind::Other, message: "delete thread exited without a result".to_owned() },
                },
            );
            DeleteStatus::Done(outcome)
        },
    }
}

/// The paths of the nodes `ids`, in order.
pub open spec fn id_paths(nodes: Seq<Node>, ids: Seq<NodeId>) -> Seq<Seq<char>> {
    ids.map_values(|x: NodeId| path_of(nodes, x.0 as int))
}

/// A removal lists no node twice, so it lists no more paths than there
/// are nodes.
proof fn lemma_removal_count(nodes: Seq<Node>, top: int, files: Seq<NodeId>, dirs: Seq<NodeId>)
    requires
        removal_ok(nodes, top, files, dirs),
    ensures
        files.len() + dirs.len() <= nodes.len(),
{
    let all = files + dirs;
    let ids = all.map_values(|x: NodeId| x.0 as int);
    assert forall|a: int, b: int| 0 <= a < ids.len() && 0 <= b < ids.len() && a != b implies ids[a] != ids[b] by {
        if a < b {
            if b < files.len() {
                assert(files[a].0 < files[b].0);
            } else if a >= files.len() {
                assert(dirs[a - files.len()].0 > dirs[b - files.len()].0);
            } else {
                assert(nodes[files[a].0 as int].kind != Kind::Directory);
                assert(nodes[dirs[b - files.len()].0 as int].kind == Kind::Directory);
            }
        } else {
            if a < files.len() {
                assert(files[b].0 < files[a].0);
            } else if b >= files.len() {
                assert(dirs[b - files.len()].0 > dirs[a - files.len()].0);
            } else {
                assert(nodes[files[b].0 as int].kind != Kind::Directory);
                assert(nodes[dirs[a - files.len()].0 as int].kind == Kind::Directory);
            }
        }
    }
    assert(ids.no_duplicates());
    ids.unique_seq_to_set();
    let range = vstd::set_lib::set_int_range(0, nodes.len() as int);
    assert forall|v: int| ids.to_set().contains(v) implies range.contains(v) by {
        let k = choose|k: int| 0 <= k < ids.len() && ids[k] == v;
        if k < files.len() {
            assert(ids[k] == files[k].0 as int);
        } else {
            assert(ids[k] == dirs[k - files.len()].0 as int);
        }
    }
    vstd::set_lib::lemma_int_range(0, nodes.len() as int);
    vstd::set_lib::lemma_len_subset(ids.to_set(), range);
}

/// A permanent deletion handed to a worker: the node and path it was asked
/// for, how many entries it removes, and whether it was asked to stop. The
/// worker runs the [`Deletion`] that [`RunningDelete::new`] plans with it.
#[derive(Debug)]
pub struct RunningDelete {
    /// Node the deletion was asked for.
    pub node: NodeId,
    pub path: String,
    /// Entries to remove, for progress.
    pub total: u64,
    /// Whether the worker was asked to stop.
    pub cancel: bool,
}

impl RunningDelete {
    /// Plan the removal of `node` and everything under it: the handle, and
    /// the work for the worker, its paths in [`removal_order`].
    pub fn new(tree: &Tree, node: NodeId) -> (r: (RunningDelete, Deletion))
        requires
            (node.0 as int) < tree.spec_nodes().len(),
        ensures
            r.0.node == node,
            r.0.path@ == path_of(tree.spec_nodes(), node.0 as int),
            !r.0.cancel,
            r.0.total == r.1.spec_paths().len(),
            r.1.wf(),
            r.1.spec_next() == 0,
            r.1.spec_done() == 0,
            r.1.spec_removed() == 0,
            r.1.spec_failures().len() == 0,
            !r.1.spec_cancelled(),
            exists|files: Seq<NodeId>, dirs: Seq<NodeId>|
                {
                    &&& #[trigger] removal_ok(tree.spec_nodes(), node.0 as int, files, dirs)
                    &&& r.1.spec_files() == files.len()
                    &&& r.1.spec_paths() == id_paths(tree.spec_nodes(), files) + id_paths(tree.spec_nodes(), dirs)
                },
    {
        let count: usize = tree.len();
        let (files, dirs) = removal_order(tree, node);
        proof {
            lemma_removal_count(tree.spec_nodes(), node.0 as int, files@, dirs@);
            assert(files@.len() + dirs@.len() <= count);
        }
        let file_paths = paths_of(tree, &files);
        let dir_paths = paths_of(tree, &dirs);
        let total = (file_paths.len() + dir_paths.len()) as u64;
        let work = Deletion::new(file_paths, dir_paths);
        proof {
            assert(texts(file_paths@) =~= id_paths(tree.spec_nodes(), files@));
            assert(texts(dir_paths@) =~= id_paths(tree.spec_nodes(), dirs@));
            assert(removal_ok(tree.spec_nodes(), node.0 as int, files@, dirs@));
        }
        let handle = RunningDelete { node, path: tree.path(node), total, cancel: false };
        (handle, work)
    }

    /// Ask the worker to stop before its next path.
    pub fn cancel(&mut self)
        ensures
            final(self).cancel,
            final(self).node == old(self).node,
            final(self).path@ == old(self).path@,
            final(self).total == old(self).total,
    {
        self.cancel = true;
    }

    /// Whether the deletion was asked to stop; the worker hands this to
    /// [`Deletion::next_path`].
    pub fn is_cancelled(&self) -> (r: bool)
        ensures
            r == self.cancel,
    {
        self.cancel
    }

    /// Where the deletion stands, from what asking the worker for its
    /// result gave (see [`status_of`]).
    pub fn try_finish(&self, receipt: Receipt) -> (r: DeleteStatus)
        ensures
            status_of(receipt, self.path@, r),
    {
        delete_status(receipt, &self.path)
    }
}

/// The paths of a deletion as text.
pub open spec fn texts(v: Seq<String>) -> Seq<Seq<char>> {
    v.map_values(|s: String| s@)
}

/// A permanent deletion in progress: the paths to remove, files first and
/// then directories deepest first, and what removing them did so far.
#[derive(Debug)]
pub struct Deletion {
    files: Vec<String>,
    dirs: Vec<String>,
    next: usize,
    done: u64,
    outcome: DeleteOutcome,
}

impl Deletion {
    /// Every path, in the order they are handed out.
    pub closed spec fn spec_paths(&self) -> Seq<Seq<char>> {
        texts(self.files@) + texts(self.dirs@)
    }

    /// How many files come first.
    pub closed spec fn spec_files(&self) -> nat {
        self.files@.len()
    }

    /// How many paths have been handed out.
    pub closed spec fn spec_next(&self) -> nat {
        self.next as nat
    }

    /// Paths removed or given up on so far.
    pub closed spec fn spec_done(&self) -> u64 {
        self.done
    }

    pub closed spec fn spec_removed(&self) -> u64 {
        self.outcome.removed
    }

    pub closed spec fn spec_failures(&self) -> Seq<DeleteFailure> {
        self.outcome.failures@
    }

    pub closed spec fn spec_cancelled(&self) -> bool {
        self.outcome.cancelled
    }

    /// Every path handed out was recorded once at most, and the count of
    /// paths fits.
    pub closed spec fn wf(&self) -> bool {
        &&& self.outcome.removed + self.outcome.failures@.len() == self.done
        &&& self.files@.len() + self.dirs@.len() <= usize::MAX
    }

    /// A deletion of `files`, then `dirs`, as [`collect`] gives them.
    pub fn new(files: Vec<String>, dirs: Vec<String>) -> (r: Deletion)
        requires
            files@.len() + dirs@.len() <= usize::MAX,
        ensures
            r.wf(),
            r.spec_paths() == texts(files@) + texts(dirs@),
            r.spec_files() == files@.len(),
            r.spec_next() == 0,
            r.spec_done() == 0,
            r.spec_removed() == 0,
            r.spec_failures().len() == 0,
            !r.spec_cancelled(),
    {
        Deletion { files, dirs, next: 0, done: 0, outcome: DeleteOutcome::default() }
    }

    /// Paths to remove in all, for progress.
    pub fn total(&self) -> (r: u64)
        requires
            self.wf(),
            self.spec_paths().len() <= u64::MAX,
        ensures
            r == self.spec_paths().len(),
    {
        (self.files.len() + self.dirs.len()) as u64
    }

    /// Paths removed or given up on so far.
    pub fn done(&self) -> (r: u64)
        ensures
            r == self.spec_done(),
    {
        self.done
    }

    /// The next path to remove and whether it is a directory, or `None`
    /// when every path has been handed out or the deletion was cancelled;
    /// `cancelled` says whether it was cancelled since the last path, which
    /// ends it with the outcome marked cancelled.
    pub fn next_path(&mut self, cancelled: bool) -> (r: Option<(String, bool)>)
        requires
            old(self).wf(),
        ensures
            final(self).wf(),
            final(self).spec_paths() == old(self).spec_paths(),
            final(self).spec_files() == old(self).spec_files(),
            final(self).spec_done() == old(self).spec_done(),
            final(self).spec_removed() == old(self).spec_removed(),
            final(self).spec_failures() == old(self).spec_failures(),
            old(self).spec_cancelled() || old(self).spec_next() >= old(self).spec_paths().len() ==> {
                &&& r is None
                &&& final(self).spec_next() == old(self).spec_next()
                &&& final(self).spec_cancelled() == old(self).spec_cancelled()
            },
            !old(self).spec_cancelled() && old(self).spec_next() < old(self).spec_paths().len() ==> if cancelled {
                &&& r is None
                &&& final(self).spec_next() == old(self).spec_next()
                &&& final(self).spec_cancelled()
            } else {
                &&& r matches Some((p, is_dir)) && p@ == old(self).spec_paths()[old(self).spec_next() as int]
                    && is_dir == (old(self).spec_next() >= old(self).spec_files())
                &&& final(self).spec_next() == old(self).spec_next() + 1
                &&& !final(self).spec_cancelled()
            },
    {
        let nf = self.files.len();
        let total = nf + self.dirs.len();
        if self.outcome.cancelled || self.next >= total {
            return None;
        }
        if cancelled {
            self.outcome.cancelled = true;
            return None;
        }
        let k = self.next;
        let path = if k < nf {
            self.files[k].clone()
        } else {
            self.dirs[k - nf].clone()
        };
        self.next = k + 1;
        proof {
            let all = texts(self.files@) + texts(self.dirs@);
            if k < nf {
                assert(all[k as int] == self.files@[k as int]@);
            } else {
                assert(all[k as int] == self.dirs@[k - nf]@);
            }
        }
        Some((path, k >= nf))
    }

    /// Record what removing `path` did: removed, or a failure kept with
    /// its reason.
    pub fn record(&mut self, path: String, result: Result<(), IoError>)
        requires
            old(self).wf(),
            old(self).spec_done() < u64::MAX,
        ensures
            final(self).wf(),
            final(self).spec_paths() == old(self).spec_paths(),
            final(self).spec_files() == old(self).spec_files(),
            final(self).spec_next() == old(self).spec_next(),
            final(self).spec_cancelled() == old(self).spec_cancelled(),
            final(self).spec_done() == old(self).spec_done() + 1,
            match result {
                Ok(()) => final(self).spec_removed() == old(self).spec_removed() + 1
                    && final(self).spec_failures() == old(self).spec_failures(),
                Err(e) => final(self).spec_removed() == old(self).spec_removed()
                    && final(self).spec_failures().len() == old(self).spec_failures().len() + 1
                    && final(self).spec_failures().drop_last() == old(self).spec_failures()
                    && final(self).spec_failures().last().path@ == path@
                    && final(self).spec_failures().last().error == e,
            },
    {
        self.done = self.done + 1;
        match result {
            Ok(()) => {
                self.outcome.removed = self.outcome.removed + 1;
            },
            Err(error) => {
                self.outcome.failures.push(DeleteFailure { path, error });
                assert(self.outcome.failures@.drop_last() =~= old(self).spec_failures());
            },
        }
    }

    /// What the deletion did.
    pub fn finish(self) -> (r: DeleteOutcome)
        ensures
            r.removed == self.spec_removed(),
            r.failures@ == self.spec_failures(),
            r.cancelled == self.spec_cancelled(),
    {
        self.outcome
    }
}

/// The message shown when the deletion of `path` ends.
pub open spec fn delete_message_spec(removed: nat, failed: nat, cancelled: bool, total: nat, path: Seq<char>) -> Seq<char> {
    if cancelled {
        "delete cancelled after "@ + decimal(removed) + " items: "@ + path
    } else if failed == 0 {
        "deleted "@ + decimal(removed) + " items: "@ + path
    } else {
        "delete failed for "@ + decimal(failed) + " of "@ + decimal(total) + " items: "@ + path
    }
}

/// The message shown when the deletion of `path`, `total` entries in all,
/// ends with `outcome`.
pub fn delete_message(outcome: &DeleteOutcome, path: &str, total: u64) -> (r: String)
    ensures
        r@ == delete_message_spec(
            outcome.removed as nat,
            outcome.failures@.len(),
            outcome.cancelled,
            total as nat,
            path@,
        ),
{
    let mut out = String::new();
    if outcome.cancelled {
        out.append("delete cancelled after ");
        push_decimal(&mut out, outcome.removed as u128);
        out.append(" items: ");
    } else if outcome.failures.len() == 0 {
        out.append("deleted ");
        push_decimal(&mut out, outcome.removed as u128);
        out.append(" items: ");
    } else {
        out.append("delete failed for ");
        push_decimal(&mut out, outcome.failures.len() as u128);
        out.append(" of ");
        push_decimal(&mut out, total as u128);
        out.append(" items: ");
    }
    out.append(path);
    out
}

impl App {
    /// Why `id` cannot be deleted permanently now, if it cannot: permanent
    /// deletion must be unlocked, no other deletion may be running
    /// (`busy`), `id` must pass [`App::check_removable`] with the home
    /// folder `home`, and it must not be gone already.
    pub fn check_delete(&self, id: NodeId, busy: bool, home: Option<&str>) -> (r: Result<(), IoError>)
        requires
            self.valid_id(id),
        ensures
            !self.spec_permanent_delete() ==> (r matches Err(e) && e.kind == ErrorKind::PermissionDenied),
            self.spec_permanent_delete() && busy ==> (r matches Err(e) && e.kind == ErrorKind::ResourceBusy),
            self.spec_permanent_delete() && !busy ==> match r {
                Ok(()) => {
                    &&& self.spec_tree() is Some
                    &&& id.0 != 0
                    &&& crate::paths::components(path_of(self.spec_nodes(), id.0 as int)).len() > 1
                    &&& home matches Some(h) ==> crate::paths::components(h@) != crate::paths::components(
                        path_of(self.spec_nodes(), id.0 as int),
                    )
                    &&& !marked(self.spec_nodes(), id.0 as int, self.spec_trashed().dom())
                    &&& !marked(self.spec_nodes(), id.0 as int, self.spec_deleted())
                },
                Err(e) => e.kind == ErrorKind::PermissionDenied || (e.kind == ErrorKind::NotFound && (marked(
                    self.spec_nodes(),
                    id.0 as int,
                    self.spec_trashed().dom(),
                ) || marked(self.spec_nodes(), id.0 as int, self.spec_deleted()))),
            },
            self.spec_permanent_delete() && !busy ==> (r is Ok <==> {
                &&& self.spec_tree() is Some
                &&& id.0 != 0
                &&& crate::paths::components(path_of(self.spec_nodes(), id.0 as int)).len() > 1
                &&& home matches Some(h) ==> crate::paths::components(h@) != crate::paths::components(
                    path_of(self.spec_nodes(), id.0 as int),
                )
                &&& !marked(self.spec_nodes(), id.0 as int, self.spec_trashed().dom())
                &&& !marked(self.spec_nodes(), id.0 as int, self.spec_deleted())
            }),
    {
        if !self.permanent_delete() {
            return Err(IoError { kind: ErrorKind::PermissionDenied, message: "permanent delete is not enabled".to_owned() });
        }
        if busy {
            return Err(IoError { kind: ErrorKind::ResourceBusy, message: "a deletion is already running".to_owned() });
        }
        match self.check_removable(id, home) {
            Ok(()) => {},
            Err(e) => return Err(e),
        }
        if self.is_gone(id) {
            return Err(IoError { kind: ErrorKind::NotFound, message: "already removed".to_owned() });
        }
        Ok(())
    }

    /// Adopt a finished deletion of `node` at `path`, `total` entries in
    /// all: the node counts as deleted when its path is gone
    /// (`path_exists` false), whatever happened underneath, and the
    /// message reports the outcome.
    pub fn finish_delete(&mut self, node: NodeId, path: &str, path_exists: bool, outcome: &DeleteOutcome, total: u64)
        ensures
            final(self).spec_deleted() == if path_exists {
                old(self).spec_deleted()
            } else {
                old(self).spec_deleted().insert(node.0)
            },
            final(self).spec_message() matches Some(m) && m@ == delete_message_spec(
                outcome.removed as nat,
                outcome.failures@.len(),
                outcome.cancelled,
                total as nat,
                path@,
            ),
            final(self).spec_trashed() == old(self).spec_trashed(),
            final(self).spec_tree() == old(self).spec_tree(),
            final(self).spec_has_cursor() == old(self).spec_has_cursor(),
            final(self).spec_dir() == old(self).spec_dir(),
            final(self).spec_selected() == old(self).spec_selected(),
            final(self).spec_history() == old(self).spec_history(),
    {
        if !path_exists {
            self.mark_deleted(node);
        }
        let message = delete_message(outcome, path, total);
        self.set_message(Some(message));
    }
}

} // verus!
