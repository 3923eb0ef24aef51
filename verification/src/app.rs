//! Application state shared by every front end: the finished tree, the
//! cursor moving around it, what a tree view has open, and what was done
//! to entries since the scan.
//!
//! A front end owns an [`App`], forwards user intent as method calls, and
//! draws whatever the state says. Scans, trash and deletion run outside;
//! their results come back through [`App::set_tree`] and the `mark_`
//! methods.

use crate::fold::{
    map_get_ref, map_insert, map_is_empty, map_new, set_contains, set_insert, set_is_empty,
    set_new, set_remove,
};
use crate::paths::{components, path_components};
use crate::scan::{ErrorKind, IoError, ScanOptions};
use crate::tree::{Node, NodeId, Tree, children_ok, parents_ok};
use vstd::prelude::*;

verus! {

broadcast use vstd::std_specs::hash::group_hash_axioms;

/// Navigation state within a finished [`Tree`].
#[derive(Debug)]
pub struct Cursor {
    /// Directory whose children are listed.
    pub dir: NodeId,
    /// Index into `tree.children(dir)`.
    pub selected: usize,
    /// Parent positions, innermost last, restored by [`App::back`].
    history: Vec<(NodeId, usize)>,
}

impl Cursor {
    /// The positions [`App::back`] returns to, innermost last.
    pub fn history(&self) -> (r: &[(NodeId, usize)])
        ensures
            r@ == self.spec_history(),
    {
        self.history.as_slice()
    }

    pub closed spec fn spec_history(&self) -> Seq<(NodeId, usize)> {
        self.history@
    }

    pub closed spec fn spec_dir(&self) -> NodeId {
        self.dir
    }

    pub closed spec fn spec_selected(&self) -> usize {
        self.selected
    }
}

/// The ancestors of node `id`, itself first, up to the root.
pub open spec fn chain_up(nodes: Seq<Node>, id: int) -> Seq<NodeId>
    decreases id,
{
    if 0 <= id < nodes.len() {
        match nodes[id].parent {
            Some(p) => if 0 <= p.0 < id {
                seq![NodeId(id as u32)] + chain_up(nodes, p.0 as int)
            } else {
                seq![NodeId(id as u32)]
            },
            None => seq![NodeId(id as u32)],
        }
    } else {
        seq![]
    }
}

/// Whether `id` or one of its ancestors is in `marks`.
pub open spec fn marked(nodes: Seq<Node>, id: int, marks: Set<u32>) -> bool {
    exists|k: int| 0 <= k < chain_up(nodes, id).len() && marks.contains(#[trigger] chain_up(nodes, id)[k].0)
}

/// The directories strictly above `from` (starting at `from` itself) up
/// to, not including, `stop`.
pub open spec fn opened_to(nodes: Seq<Node>, from: Option<NodeId>, stop: Option<NodeId>) -> Set<u32>
    decreases (match from {
        Some(d) => d.0 as int + 1,
        None => 0,
    }),
{
    match from {
        None => Set::empty(),
        Some(d) => if Some(d) == stop || !(0 <= d.0 < nodes.len()) {
            Set::empty()
        } else {
            let up = match nodes[d.0 as int].parent {
                Some(p) => if p.0 < d.0 {
                    Some(p)
                } else {
                    None
                },
                None => None,
            };
            opened_to(nodes, up, stop).insert(d.0)
        },
    }
}

/// The rows of a tree view for node `id` at `depth`: the node, then, when
/// it is open, its children's rows one level deeper.
pub open spec fn rows_node(
    lists: Seq<Seq<NodeId>>,
    open: Set<u32>,
    id: NodeId,
    depth: int,
) -> Seq<(NodeId, u32)>
    decreases lists.len() - id.0, 1int, 0int,
{
    if id.0 >= lists.len() {
        seq![]
    } else {
        seq![(id, depth as u32)] + if open.contains(id.0) {
            rows_list(lists, open, lists[id.0 as int], depth + 1, id.0 as int, 0)
        } else {
            seq![]
        }
    }
}

/// The rows of `list[from..]`, children of `parent`, at `depth`.
pub open spec fn rows_list(
    lists: Seq<Seq<NodeId>>,
    open: Set<u32>,
    list: Seq<NodeId>,
    depth: int,
    parent: int,
    from: int,
) -> Seq<(NodeId, u32)>
    decreases lists.len() - parent, 0int, list.len() - from,
{
    if from < 0 || from >= list.len() || list[from].0 <= parent || list[from].0 >= lists.len() {
        seq![]
    } else {
        rows_node(lists, open, list[from], depth) + rows_list(lists, open, list, depth, parent, from + 1)
    }
}

/// The state a front end drives.
#[derive(Debug)]
pub struct App {
    tree: Option<Tree>,
    cursor: Option<Cursor>,
    options: ScanOptions,
    message: Option<String>,
    hovered: Option<NodeId>,
    expanded: foldhash::HashSet<u32>,
    trashed: foldhash::HashMap<u32, Option<String>>,
    deleted: foldhash::HashSet<u32>,
    evicted: foldhash::HashSet<u32>,
    permanent_delete: bool,
    backup_volume: bool,
    last_root: Option<String>,
}

impl App {
    /// A cursor always points into the tree.
    #[verifier::type_invariant]
    spec fn inv(self) -> bool {
        match self.cursor {
            None => true,
            Some(c) => match self.tree {
                None => false,
                Some(t) => {
                    &&& (c.dir.0 as int) < t.spec_nodes().len()
                    &&& forall|k: int|
                        0 <= k < c.history@.len() ==> ((#[trigger] c.history@[k]).0.0 as int) < t.spec_nodes().len()
                },
            },
        }
    }

    pub closed spec fn spec_tree(&self) -> Option<Tree> {
        self.tree
    }

    pub closed spec fn spec_has_cursor(&self) -> bool {
        self.cursor is Some
    }

    pub closed spec fn spec_dir(&self) -> NodeId {
        self.cursor->Some_0.dir
    }

    pub closed spec fn spec_selected(&self) -> usize {
        self.cursor->Some_0.selected
    }

    pub closed spec fn spec_history(&self) -> Seq<(NodeId, usize)> {
        self.cursor->Some_0.history@
    }

    pub closed spec fn spec_expanded(&self) -> Set<u32> {
        self.expanded@
    }

    pub closed spec fn spec_trashed(&self) -> Map<u32, Option<String>> {
        self.trashed@
    }

    pub closed spec fn spec_deleted(&self) -> Set<u32> {
        self.deleted@
    }

    pub closed spec fn spec_evicted(&self) -> Set<u32> {
        self.evicted@
    }

    pub closed spec fn spec_message(&self) -> Option<String> {
        self.message
    }

    pub closed spec fn spec_options(&self) -> ScanOptions {
        self.options
    }

    pub closed spec fn spec_permanent_delete(&self) -> bool {
        self.permanent_delete
    }

    pub closed spec fn spec_backup_volume(&self) -> bool {
        self.backup_volume
    }

    pub closed spec fn spec_last_root(&self) -> Option<String> {
        self.last_root
    }

    pub closed spec fn spec_hovered(&self) -> Option<NodeId> {
        self.hovered
    }

    /// The nodes of the tree, or none.
    pub open spec fn spec_nodes(&self) -> Seq<Node> {
        match self.spec_tree() {
            Some(t) => t.spec_nodes(),
            None => seq![],
        }
    }

    /// Children of the current directory, largest first; none without a cursor.
    pub open spec fn spec_entries(&self) -> Seq<NodeId> {
        if self.spec_has_cursor() && self.spec_tree() is Some {
            self.spec_tree()->Some_0.spec_children()[self.spec_dir().0 as int]
        } else {
            seq![]
        }
    }

    /// Everything but the cursor is as in `other`.
    pub open spec fn same_but_cursor(&self, other: &App) -> bool {
        &&& self.spec_tree() == other.spec_tree()
        &&& self.spec_expanded() == other.spec_expanded()
        &&& self.spec_trashed() == other.spec_trashed()
        &&& self.spec_deleted() == other.spec_deleted()
        &&& self.spec_evicted() == other.spec_evicted()
        &&& self.spec_message() == other.spec_message()
        &&& self.spec_options() == other.spec_options()
        &&& self.spec_permanent_delete() == other.spec_permanent_delete()
        &&& self.spec_backup_volume() == other.spec_backup_volume()
        &&& self.spec_last_root() == other.spec_last_root()
        &&& self.spec_hovered() == other.spec_hovered()
    }

    /// A node id that the tree holds, when there is a tree.
    pub open spec fn valid_id(&self, id: NodeId) -> bool {
        self.spec_tree() matches Some(t) ==> (id.0 as int) < t.spec_nodes().len()
    }

    /// An app with no tree yet.
    pub fn new(options: ScanOptions) -> (r: App)
        ensures
            r.spec_tree() is None,
            !r.spec_has_cursor(),
            r.spec_options() == options,
            r.spec_message() is None,
            r.spec_hovered() is None,
            r.spec_expanded().is_empty(),
            r.spec_trashed().is_empty(),
            r.spec_deleted().is_empty(),
            r.spec_evicted().is_empty(),
            !r.spec_permanent_delete(),
            !r.spec_backup_volume(),
            r.spec_last_root() is None,
    {
        App {
            tree: None,
            cursor: None,
            options,
            message: None,
            hovered: None,
            expanded: set_new(),
            trashed: map_new(),
            deleted: set_new(),
            evicted: set_new(),
            permanent_delete: false,
            backup_volume: false,
            last_root: None,
        }
    }

    /// The tree, once a scan has finished.
    pub fn tree(&self) -> (r: Option<&Tree>)
        ensures
            match self.spec_tree() {
                Some(t) => r == Some(&t),
                None => r is None,
            },
    {
        match &self.tree {
            Some(t) => Some(t),
            None => None,
        }
    }

    /// The cursor, once a tree is set.
    pub fn cursor(&self) -> (r: Option<&Cursor>)
        ensures
            r is Some == self.spec_has_cursor(),
            r matches Some(c) ==> c.spec_dir() == self.spec_dir() && c.spec_selected() == self.spec_selected()
                && c.spec_history() == self.spec_history(),
    {
        match &self.cursor {
            Some(c) => Some(c),
            None => None,
        }
    }

    /// The scan options new scans use.
    pub fn options(&self) -> (r: &ScanOptions)
        ensures
            *r == self.spec_options(),
    {
        &self.options
    }

    /// One-line status for the front end to show.
    pub fn message(&self) -> (r: Option<&String>)
        ensures
            match self.spec_message() {
                Some(m) => r == Some(&m),
                None => r is None,
            },
    {
        match &self.message {
            Some(m) => Some(m),
            None => None,
        }
    }

    /// Show `message` until the next action.
    pub fn set_message(&mut self, message: Option<String>)
        ensures
            final(self).spec_message() == message,
            final(self).spec_tree() == old(self).spec_tree(),
            final(self).spec_has_cursor() == old(self).spec_has_cursor(),
            final(self).spec_dir() == old(self).spec_dir(),
            final(self).spec_selected() == old(self).spec_selected(),
            final(self).spec_history() == old(self).spec_history(),
            final(self).spec_trashed() == old(self).spec_trashed(),
            final(self).spec_deleted() == old(self).spec_deleted(),
            final(self).spec_evicted() == old(self).spec_evicted(),
            final(self).spec_expanded() == old(self).spec_expanded(),
            final(self).spec_permanent_delete() == old(self).spec_permanent_delete(),
    {
        proof {
            use_type_invariant(&*self);
        }
        self.message = message;
    }

    /// Whether directory `id` is open in the tree view.
    pub fn is_expanded(&self, id: NodeId) -> (r: bool)
        ensures
            r == self.spec_expanded().contains(id.0),
    {
        crate::fold::set_contains(&self.expanded, &id.0)
    }

    /// Node under the pointer, for front ends with one.
    pub fn hovered(&self) -> (r: Option<NodeId>)
        ensures
            r == self.spec_hovered(),
    {
        self.hovered
    }

    /// Remember the node under the pointer.
    pub fn set_hovered(&mut self, id: Option<NodeId>)
        ensures
            final(self).spec_hovered() == id,
            final(self).spec_tree() == old(self).spec_tree(),
            final(self).spec_has_cursor() == old(self).spec_has_cursor(),
            final(self).spec_dir() == old(self).spec_dir(),
            final(self).spec_selected() == old(self).spec_selected(),
            final(self).spec_history() == old(self).spec_history(),
    {
        proof {
            use_type_invariant(&*self);
        }
        self.hovered = id;
    }

    /// Whether the scanned tree sits on a Time Machine backup volume.
    pub fn backup_volume(&self) -> (r: bool)
        ensures
            r == self.spec_backup_volume(),
    {
        self.backup_volume
    }

    /// Whether permanent deletion is offered: only once the user has unlocked it.
    pub fn permanent_delete(&self) -> (r: bool)
        ensures
            r == self.spec_permanent_delete(),
    {
        self.permanent_delete
    }

    /// Unlock permanent deletion until the app quits.
    pub fn enable_permanent_delete(&mut self)
        ensures
            final(self).spec_permanent_delete(),
            final(self).spec_tree() == old(self).spec_tree(),
            final(self).spec_has_cursor() == old(self).spec_has_cursor(),
            final(self).spec_dir() == old(self).spec_dir(),
            final(self).spec_selected() == old(self).spec_selected(),
            final(self).spec_history() == old(self).spec_history(),
    {
        proof {
            use_type_invariant(&*self);
        }
        self.permanent_delete = true;
    }

    /// Note that a scan of `root` was started, for [`App::rescan_root`].
    pub fn start_scan(&mut self, root: String)
        ensures
            final(self).spec_last_root() == Some(root),
            final(self).spec_tree() == old(self).spec_tree(),
            final(self).spec_has_cursor() == old(self).spec_has_cursor(),
            final(self).spec_dir() == old(self).spec_dir(),
            final(self).spec_selected() == old(self).spec_selected(),
            final(self).spec_history() == old(self).spec_history(),
    {
        proof {
            use_type_invariant(&*self);
        }
        self.last_root = Some(root);
    }

    /// The root of the last scan, to scan again.
    pub fn rescan_root(&self) -> (r: Option<String>)
        ensures
            r == self.spec_last_root(),
    {
        match &self.last_root {
            Some(root) => Some(root.clone()),
            None => None,
        }
    }

    /// A scan failed: say so.
    pub fn scan_failed(&mut self, error: &IoError)
        ensures
            final(self).spec_message() matches Some(m) && m@ == "scan failed: "@ + error.message@,
            final(self).spec_tree() == old(self).spec_tree(),
            final(self).spec_has_cursor() == old(self).spec_has_cursor(),
            final(self).spec_dir() == old(self).spec_dir(),
            final(self).spec_selected() == old(self).spec_selected(),
            final(self).spec_history() == old(self).spec_history(),
    {
        proof {
            use_type_invariant(&*self);
        }
        let mut text = String::from_str("scan failed: ");
        text.append(error.message.as_str());
        proof {
            reveal_strlit("scan failed: ");
        }
        self.message = Some(text);
    }

    /// Adopt a finished scan's tree: the cursor goes to its root, and
    /// everything remembered about the previous tree is forgotten.
    /// `backup_volume` says whether the tree sits on a backup volume.
    pub fn set_tree(&mut self, tree: Tree, backup_volume: bool)
        requires
            tree.spec_nodes().len() > 0,
        ensures
            final(self).spec_tree() == Some(tree),
            final(self).spec_has_cursor(),
            final(self).spec_dir() == NodeId(0),
            final(self).spec_selected() == 0,
            final(self).spec_history().len() == 0,
            final(self).spec_hovered() is None,
            final(self).spec_expanded().is_empty(),
            final(self).spec_trashed().is_empty(),
            final(self).spec_deleted().is_empty(),
            final(self).spec_evicted().is_empty(),
            final(self).spec_backup_volume() == backup_volume,
            final(self).spec_message() == old(self).spec_message(),
            final(self).spec_options() == old(self).spec_options(),
            final(self).spec_permanent_delete() == old(self).spec_permanent_delete(),
            final(self).spec_last_root() == old(self).spec_last_root(),
    {
        proof {
            use_type_invariant(&*self);
        }
        self.cursor = None;
        self.tree = Some(tree);
        self.cursor = Some(Cursor { dir: NodeId(0), selected: 0, history: Vec::new() });
        self.hovered = None;
        self.expanded = set_new();
        self.trashed = map_new();
        self.deleted = set_new();
        self.evicted = set_new();
        self.backup_volume = backup_volume;
    }

    /// Current directory node; always one the tree holds.
    pub fn dir(&self) -> (r: Option<NodeId>)
        ensures
            r == (if self.spec_has_cursor() {
                Some(self.spec_dir())
            } else {
                None
            }),
            self.spec_has_cursor() ==> self.spec_tree() is Some && (self.spec_dir().0 as int)
                < self.spec_nodes().len(),
    {
        proof {
            use_type_invariant(self);
        }
        match &self.cursor {
            Some(c) => Some(c.dir),
            None => None,
        }
    }

    /// Children of the current directory, largest first.
    pub fn entries(&self) -> (r: &[NodeId])
        ensures
            r@ == self.spec_entries(),
    {
        proof {
            use_type_invariant(self);
        }
        match (&self.tree, &self.cursor) {
            (Some(tree), Some(cursor)) => tree.children(cursor.dir),
            _ => {
                let empty: &[NodeId] = &[];
                assert(empty@ =~= Seq::<NodeId>::empty());
                empty
            },
        }
    }

    /// The selected entry, if the selection is on one.
    pub fn selected(&self) -> (r: Option<NodeId>)
        ensures
            r == (if self.spec_has_cursor() && self.spec_selected() < self.spec_entries().len() {
                Some(self.spec_entries()[self.spec_selected() as int])
            } else {
                None
            }),
    {
        let entries = self.entries();
        match &self.cursor {
            Some(c) => {
                if c.selected < entries.len() {
                    Some(entries[c.selected])
                } else {
                    None
                }
            },
            None => None,
        }
    }

    /// Path from the root to the current directory, root first.
    pub fn breadcrumbs(&self) -> (r: Vec<NodeId>)
        ensures
            r@ == (if self.spec_has_cursor() {
                chain_up(self.spec_nodes(), self.spec_dir().0 as int).reverse()
            } else {
                seq![]
            }),
    {
        proof {
            use_type_invariant(self);
        }
        match (&self.tree, &self.cursor) {
            (Some(tree), Some(cursor)) => {
                let ghost nodes = tree.spec_nodes();
                let mut up: Vec<NodeId> = Vec::new();
                let mut current = cursor.dir;
                proof {
                    use_type_invariant(tree);
                }
                loop
                    invariant_except_break
                        up@ + chain_up(nodes, current.0 as int) == chain_up(nodes, cursor.dir.0 as int),
                    invariant
                        nodes == tree.spec_nodes(),
                        parents_ok(nodes),
                        (current.0 as int) < nodes.len(),
                    ensures
                        up@ == chain_up(nodes, cursor.dir.0 as int),
                    decreases current.0,
                {
                    let ghost before = up@;
                    up.push(current);
                    let node = tree.node(current);
                    assert(chain_up(nodes, current.0 as int)[0] == current);
                    match node.parent {
                        Some(p) => {
                            assert(p.0 < current.0);
                            assert(up@ + chain_up(nodes, p.0 as int) =~= before + chain_up(nodes, current.0 as int));
                            current = p;
                        },
                        None => {
                            assert(up@ =~= before + chain_up(nodes, current.0 as int));
                            assert(up@ == chain_up(nodes, cursor.dir.0 as int));
                            break;
                        },
                    }
                }
                let mut out: Vec<NodeId> = Vec::new();
                let mut i = up.len();
                while i > 0
                    invariant
                        i <= up@.len(),
                        out@ =~= up@.subrange(i as int, up@.len() as int).reverse(),
                    decreases i,
                {
                    i = i - 1;
                    out.push(up[i]);
                    assert(up@.subrange(i as int, up@.len() as int).reverse() =~= up@.subrange(
                        i + 1,
                        up@.len() as int,
                    ).reverse().push(up@[i as int]));
                }
                assert(up@.subrange(0, up@.len() as int) =~= up@);
                out
            },
            _ => Vec::new(),
        }
    }

    /// Move the selection by `delta` entries, staying on the list.
    pub fn move_selection(&mut self, delta: isize)
        requires
            old(self).spec_has_cursor() ==> old(self).spec_selected() <= isize::MAX && isize::MIN
                <= old(self).spec_selected() + delta <= isize::MAX,
        ensures
            final(self).same_but_cursor(old(self)),
            final(self).spec_has_cursor() == old(self).spec_has_cursor(),
            final(self).spec_dir() == old(self).spec_dir(),
            final(self).spec_history() == old(self).spec_history(),
            final(self).spec_selected() == (if old(self).spec_has_cursor() && old(self).spec_entries().len() > 0 {
                let next = old(self).spec_selected() + delta;
                if next < 0 {
                    0
                } else if next > old(self).spec_entries().len() - 1 {
                    (old(self).spec_entries().len() - 1) as usize
                } else {
                    next as usize
                }
            } else {
                old(self).spec_selected()
            }),
    {
        proof {
            use_type_invariant(&*self);
        }
        let len = self.entries().len();
        if len == 0 {
            return;
        }
        let mut taken: Option<Cursor> = None;
        std::mem::swap(&mut taken, &mut self.cursor);
        match taken {
            Some(mut c) => {
                let next = c.selected as isize + delta;
                let last = if len - 1 > isize::MAX as usize {
                    isize::MAX
                } else {
                    (len - 1) as isize
                };
                c.selected = if next < 0 {
                    0
                } else if next > last {
                    last as usize
                } else {
                    next as usize
                };
                self.cursor = Some(c);
            },
            None => {},
        }
    }

    /// Select the first entry.
    pub fn select_first(&mut self)
        ensures
            final(self).same_but_cursor(old(self)),
            final(self).spec_has_cursor() == old(self).spec_has_cursor(),
            final(self).spec_dir() == old(self).spec_dir(),
            final(self).spec_history() == old(self).spec_history(),
            final(self).spec_selected() == (if old(self).spec_has_cursor() {
                0
            } else {
                old(self).spec_selected()
            }),
    {
        proof {
            use_type_invariant(&*self);
        }
        let mut taken: Option<Cursor> = None;
        std::mem::swap(&mut taken, &mut self.cursor);
        match taken {
            Some(mut c) => {
                c.selected = 0;
                self.cursor = Some(c);
            },
            None => {},
        }
    }

    /// Select the last entry (the first when there are none).
    pub fn select_last(&mut self)
        ensures
            final(self).same_but_cursor(old(self)),
            final(self).spec_has_cursor() == old(self).spec_has_cursor(),
            final(self).spec_dir() == old(self).spec_dir(),
            final(self).spec_history() == old(self).spec_history(),
            final(self).spec_selected() == (if old(self).spec_has_cursor() {
                if old(self).spec_entries().len() > 0 {
                    (old(self).spec_entries().len() - 1) as usize
                } else {
                    0
                }
            } else {
                old(self).spec_selected()
            }),
    {
        proof {
            use_type_invariant(&*self);
        }
        let len = self.entries().len();
        let mut taken: Option<Cursor> = None;
        std::mem::swap(&mut taken, &mut self.cursor);
        match taken {
            Some(mut c) => {
                c.selected = if len > 0 {
                    len - 1
                } else {
                    0
                };
                self.cursor = Some(c);
            },
            None => {},
        }
    }

    /// Select `id` if it is a child of the current directory.
    pub fn select(&mut self, id: NodeId) -> (r: bool)
        ensures
            final(self).same_but_cursor(old(self)),
            final(self).spec_has_cursor() == old(self).spec_has_cursor(),
            final(self).spec_dir() == old(self).spec_dir(),
            final(self).spec_history() == old(self).spec_history(),
            r == old(self).spec_entries().contains(id),
            r ==> final(self).spec_selected() < old(self).spec_entries().len() && old(self).spec_entries()[final(self).spec_selected() as int] == id && forall|k: int|
                0 <= k < final(self).spec_selected() ==> old(self).spec_entries()[k] != id,
            !r ==> final(self).spec_selected() == old(self).spec_selected(),
    {
        proof {
            use_type_invariant(&*self);
        }
        let entries = self.entries();
        let index = position_of(entries, id);
        if index == entries.len() {
            return false;
        }
        let mut taken: Option<Cursor> = None;
        std::mem::swap(&mut taken, &mut self.cursor);
        match taken {
            Some(mut c) => {
                c.selected = index;
                self.cursor = Some(c);
            },
            None => {},
        }
        true
    }

    /// Descend into the selected entry if it has children.
    pub fn enter(&mut self) -> (r: bool)
        ensures
            final(self).same_but_cursor(old(self)),
            final(self).spec_has_cursor() == old(self).spec_has_cursor(),
            r == (old(self).spec_has_cursor() && old(self).spec_selected() < old(self).spec_entries().len() && old(self).spec_tree()->Some_0.spec_children()[old(self).spec_entries()[old(self).spec_selected() as int].0 as int].len()
                > 0),
            r ==> final(self).spec_dir() == old(self).spec_entries()[old(self).spec_selected() as int]
                && final(self).spec_selected() == 0 && final(self).spec_history() == old(self).spec_history().push(
                (old(self).spec_dir(), old(self).spec_selected()),
            ),
            !r ==> final(self).spec_dir() == old(self).spec_dir() && final(self).spec_selected() == old(self).spec_selected() && final(self).spec_history() == old(self).spec_history(),
    {
        proof {
            use_type_invariant(&*self);
        }
        let id = match self.selected() {
            Some(id) => id,
            None => return false,
        };
        let has_children = match &self.tree {
            Some(tree) => {
                proof {
                    use_type_invariant(tree);
                    assert(self.spec_entries().contains(id));
                    assert(tree.spec_children()[self.spec_dir().0 as int].contains(id));
                }
                tree.children(id).len() > 0
            },
            None => false,
        };
        if !has_children {
            return false;
        }
        let mut taken: Option<Cursor> = None;
        std::mem::swap(&mut taken, &mut self.cursor);
        match taken {
            Some(mut c) => {
                c.history.push((c.dir, c.selected));
                c.dir = id;
                c.selected = 0;
                self.cursor = Some(c);
            },
            None => {},
        }
        true
    }

    /// Whether [`App::back`] has somewhere to go.
    pub fn can_back(&self) -> (r: bool)
        ensures
            r == (self.spec_has_cursor() && self.spec_history().len() > 0),
    {
        match &self.cursor {
            Some(c) => c.history.len() > 0,
            None => false,
        }
    }

    /// Return to where the last [`App::enter`] or [`App::zoom_to`] left,
    /// reselecting the entry selected there.
    pub fn back(&mut self) -> (r: bool)
        ensures
            final(self).same_but_cursor(old(self)),
            final(self).spec_has_cursor() == old(self).spec_has_cursor(),
            r == (old(self).spec_has_cursor() && old(self).spec_history().len() > 0),
            r ==> final(self).spec_dir() == old(self).spec_history().last().0 && final(self).spec_selected() == old(self).spec_history().last().1 && final(self).spec_history() == old(self).spec_history().drop_last(),
            !r ==> final(self).spec_dir() == old(self).spec_dir() && final(self).spec_selected() == old(self).spec_selected() && final(self).spec_history() == old(self).spec_history(),
    {
        proof {
            use_type_invariant(&*self);
        }
        let mut taken: Option<Cursor> = None;
        std::mem::swap(&mut taken, &mut self.cursor);
        match taken {
            Some(mut c) => {
                let ghost h = c.history@;
                match c.history.pop() {
                    Some((dir, selected)) => {
                        assert(h[h.len() - 1] == (dir, selected));
                        c.dir = dir;
                        c.selected = selected;
                        self.cursor = Some(c);
                        true
                    },
                    None => {
                        self.cursor = Some(c);
                        false
                    },
                }
            },
            None => false,
        }
    }

    /// Make `dir` the current directory, remembering the way back. Any node
    /// with children is accepted, so a treemap can zoom straight into a deep folder.
    pub fn zoom_to(&mut self, dir: NodeId) -> (r: bool)
        requires
            old(self).valid_id(dir),
        ensures
            final(self).same_but_cursor(old(self)),
            final(self).spec_has_cursor() == old(self).spec_has_cursor(),
            r == (old(self).spec_has_cursor() && old(self).spec_tree()->Some_0.spec_children()[dir.0 as int].len()
                > 0 && old(self).spec_dir() != dir),
            r ==> final(self).spec_dir() == dir && final(self).spec_selected() == 0 && final(self).spec_history()
                == old(self).spec_history().push((old(self).spec_dir(), old(self).spec_selected())),
            !r ==> final(self).spec_dir() == old(self).spec_dir() && final(self).spec_selected() == old(self).spec_selected() && final(self).spec_history() == old(self).spec_history(),
    {
        proof {
            use_type_invariant(&*self);
        }
        let has_children = match &self.tree {
            Some(tree) => tree.children(dir).len() > 0,
            None => return false,
        };
        if !has_children {
            return false;
        }
        let mut taken: Option<Cursor> = None;
        std::mem::swap(&mut taken, &mut self.cursor);
        match taken {
            Some(mut c) => {
                if c.dir == dir {
                    self.cursor = Some(c);
                    return false;
                }
                c.history.push((c.dir, c.selected));
                c.dir = dir;
                c.selected = 0;
                self.cursor = Some(c);
                true
            },
            None => false,
        }
    }

    /// Select `id` wherever it is: zoom to its parent, then pick it.
    pub fn reveal_node(&mut self, id: NodeId) -> (r: bool)
        requires
            old(self).valid_id(id),
        ensures
            final(self).same_but_cursor(old(self)),
            r ==> old(self).spec_has_cursor() && final(self).spec_has_cursor() && old(self).spec_nodes()[id.0 as int].parent
                == Some(final(self).spec_dir()) && final(self).spec_entries()[final(self).spec_selected() as int] == id,
            old(self).spec_has_cursor() && old(self).spec_nodes()[id.0 as int].parent is Some ==> r,
    {
        proof {
            use_type_invariant(&*self);
        }
        let parent = match &self.tree {
            Some(tree) => {
                proof {
                    use_type_invariant(tree);
                }
                match tree.node(id).parent {
                    Some(p) => {
                        proof {
                            assert(crate::tree::is_child(tree.spec_nodes(), p.0 as int, id.0 as int));
                            assert(crate::tree::child_list_ok(
                                tree.spec_nodes(),
                                tree.spec_metric(),
                                p.0 as int,
                                tree.spec_children()[p.0 as int],
                            ));
                            assert(tree.spec_children()[p.0 as int].contains(id));
                        }
                        p
                    },
                    None => return false,
                }
            },
            None => return false,
        };
        if !self.cursor.is_some() {
            return false;
        }
        let here = self.dir();
        if here != Some(parent) {
            self.zoom_to(parent);
        }
        self.select(id)
    }

    /// Open or close a directory in a tree view. Returns the new state.
    pub fn toggle_expanded(&mut self, id: NodeId) -> (r: bool)
        ensures
            r == !old(self).spec_expanded().contains(id.0),
            final(self).spec_expanded() == if r {
                old(self).spec_expanded().insert(id.0)
            } else {
                old(self).spec_expanded().remove(id.0)
            },
            final(self).spec_tree() == old(self).spec_tree(),
            final(self).spec_has_cursor() == old(self).spec_has_cursor(),
            final(self).spec_dir() == old(self).spec_dir(),
            final(self).spec_selected() == old(self).spec_selected(),
            final(self).spec_history() == old(self).spec_history(),
    {
        proof {
            use_type_invariant(&*self);
        }
        let mut open = set_new();
        std::mem::swap(&mut open, &mut self.expanded);
        let was_open = set_remove(&mut open, &id.0);
        if !was_open {
            set_insert(&mut open, id.0);
        }
        proof {
            if was_open {
            }
        }
        self.expanded = open;
        !was_open
    }

    /// Open every directory from `id`'s parent up to, not including, the
    /// current directory (up to the root when it is not on the way).
    pub fn expand_to(&mut self, id: NodeId)
        requires
            old(self).valid_id(id),
        ensures
            final(self).spec_tree() == old(self).spec_tree(),
            final(self).spec_has_cursor() == old(self).spec_has_cursor(),
            final(self).spec_dir() == old(self).spec_dir(),
            final(self).spec_selected() == old(self).spec_selected(),
            final(self).spec_history() == old(self).spec_history(),
            final(self).spec_expanded() == (if old(self).spec_tree() is Some {
                old(self).spec_expanded().union(
                    opened_to(
                        old(self).spec_nodes(),
                        old(self).spec_nodes()[id.0 as int].parent,
                        if old(self).spec_has_cursor() {
                            Some(old(self).spec_dir())
                        } else {
                            None
                        },
                    ),
                )
            } else {
                old(self).spec_expanded()
            }),
    {
        proof {
            use_type_invariant(&*self);
        }
        let stop = self.dir();
        let mut open = set_new();
        std::mem::swap(&mut open, &mut self.expanded);
        let ghost start = open@;
        match &self.tree {
            Some(tree) => {
                proof {
                    use_type_invariant(tree);
                }
                let ghost nodes = tree.spec_nodes();
                let mut current = tree.node(id).parent;
                proof {
                    assert(start.union(opened_to(nodes, current, stop)) =~= open@.union(opened_to(nodes, current, stop)));
                }
                loop
                    invariant
                        nodes == tree.spec_nodes(),
                        parents_ok(nodes),
                        current matches Some(d) ==> (d.0 as int) < nodes.len(),
                        open@.union(opened_to(nodes, current, stop)) == start.union(
                            opened_to(nodes, tree.spec_nodes()[id.0 as int].parent, stop),
                        ),
                    ensures
                        open@ == start.union(opened_to(nodes, tree.spec_nodes()[id.0 as int].parent, stop)),
                    decreases (match current {
                        Some(d) => d.0 as int + 1,
                        None => 0,
                    }),
                {
                    match current {
                        None => {
                            assert(open@.union(opened_to(nodes, current, stop)) =~= open@);
                            break;
                        },
                        Some(d) => {
                            if Some(d) == stop {
                                assert(open@.union(opened_to(nodes, current, stop)) =~= open@);
                                break;
                            }
                            let ghost before = open@;
                            set_insert(&mut open, d.0);
                            let next = tree.node(d).parent;
                            proof {
                                if let Some(p) = next {
                                    assert(p.0 < d.0);
                                }
                                assert(opened_to(nodes, current, stop) == opened_to(nodes, next, stop).insert(d.0));
                                assert(open@.union(opened_to(nodes, next, stop)) =~= before.union(
                                    opened_to(nodes, current, stop),
                                ));
                            }
                            current = next;
                        },
                    }
                }
            },
            None => {},
        }
        self.expanded = open;
    }

    /// Rows of a tree view rooted at the current directory: each node in
    /// display order with its depth below the root, following what is open.
    pub fn tree_rows(&self) -> (r: Vec<(NodeId, u32)>)
        ensures
            r@ == (if self.spec_has_cursor() && self.spec_tree() is Some {
                rows_list(
                    self.spec_tree()->Some_0.spec_children(),
                    self.spec_expanded(),
                    self.spec_tree()->Some_0.spec_children()[self.spec_dir().0 as int],
                    0,
                    self.spec_dir().0 as int,
                    0,
                )
            } else {
                seq![]
            }),
    {
        proof {
            use_type_invariant(self);
        }
        match (&self.tree, &self.cursor) {
            (Some(tree), Some(cursor)) => {
                proof {
                    use_type_invariant(tree);
                }
                rows_of(tree, &self.expanded, cursor.dir)
            },
            _ => Vec::new(),
        }
    }
}

impl App {
    /// Whether `id` or any ancestor was moved to the trash since the scan.
    pub fn is_trashed(&self, id: NodeId) -> (r: bool)
        requires
            self.valid_id(id),
        ensures
            r == (self.spec_tree() is Some && marked(self.spec_nodes(), id.0 as int, self.spec_trashed().dom())),
    {
        proof {
            use_type_invariant(self);
        }
        match &self.tree {
            Some(tree) => any_trashed(tree, id, &self.trashed),
            None => false,
        }
    }

    /// Whether `id` or any ancestor was deleted permanently since the scan.
    pub fn is_deleted(&self, id: NodeId) -> (r: bool)
        requires
            self.valid_id(id),
        ensures
            r == (self.spec_tree() is Some && marked(self.spec_nodes(), id.0 as int, self.spec_deleted())),
    {
        proof {
            use_type_invariant(self);
        }
        match &self.tree {
            Some(tree) => any_marked(tree, id, &self.deleted),
            None => false,
        }
    }

    /// Whether `id` or an ancestor had its cloud download removed since the scan.
    pub fn is_evicted(&self, id: NodeId) -> (r: bool)
        requires
            self.valid_id(id),
        ensures
            r == (self.spec_tree() is Some && marked(self.spec_nodes(), id.0 as int, self.spec_evicted())),
    {
        proof {
            use_type_invariant(self);
        }
        match &self.tree {
            Some(tree) => any_marked(tree, id, &self.evicted),
            None => false,
        }
    }

    /// Whether `id` no longer exists at its scanned path because of an
    /// action taken here: trashed or deleted, itself or through an ancestor.
    pub fn is_gone(&self, id: NodeId) -> (r: bool)
        requires
            self.valid_id(id),
        ensures
            r == (self.spec_tree() is Some && (marked(self.spec_nodes(), id.0 as int, self.spec_trashed().dom())
                || marked(self.spec_nodes(), id.0 as int, self.spec_deleted()))),
    {
        self.is_trashed(id) || self.is_deleted(id)
    }

    /// Whether a trashed `id` can be put back: it was trashed here and
    /// where it went is known.
    pub fn can_put_back(&self, id: NodeId) -> (r: bool)
        ensures
            r == (self.spec_trashed().contains_key(id.0) && self.spec_trashed()[id.0] is Some),
    {
        match map_get_ref(&self.trashed, &id.0) {
            Some(location) => location.is_some(),
            None => false,
        }
    }

    /// Where a trashed `id` went, when known.
    pub fn trash_location(&self, id: NodeId) -> (r: Option<String>)
        ensures
            r == (if self.spec_trashed().contains_key(id.0) {
                self.spec_trashed()[id.0]
            } else {
                None
            }),
    {
        match map_get_ref(&self.trashed, &id.0) {
            Some(Some(location)) => Some(location.clone()),
            _ => None,
        }
    }

    /// Record that `id` went to the trash, and where when known.
    pub fn mark_trashed(&mut self, id: NodeId, location: Option<String>)
        ensures
            final(self).spec_trashed() == old(self).spec_trashed().insert(id.0, location),
            final(self).spec_tree() == old(self).spec_tree(),
            final(self).spec_has_cursor() == old(self).spec_has_cursor(),
            final(self).spec_dir() == old(self).spec_dir(),
            final(self).spec_selected() == old(self).spec_selected(),
            final(self).spec_history() == old(self).spec_history(),
            final(self).spec_deleted() == old(self).spec_deleted(),
            final(self).spec_evicted() == old(self).spec_evicted(),
    {
        proof {
            use_type_invariant(&*self);
        }
        let mut trashed = map_new();
        std::mem::swap(&mut trashed, &mut self.trashed);
        map_insert(&mut trashed, id.0, location);
        self.trashed = trashed;
    }

    /// Record that `id` came back from the trash.
    pub fn mark_put_back(&mut self, id: NodeId)
        ensures
            final(self).spec_trashed() == old(self).spec_trashed().remove(id.0),
            final(self).spec_tree() == old(self).spec_tree(),
            final(self).spec_has_cursor() == old(self).spec_has_cursor(),
            final(self).spec_dir() == old(self).spec_dir(),
            final(self).spec_selected() == old(self).spec_selected(),
            final(self).spec_history() == old(self).spec_history(),
    {
        proof {
            use_type_invariant(&*self);
        }
        let mut trashed = map_new();
        std::mem::swap(&mut trashed, &mut self.trashed);
        crate::fold::map_remove(&mut trashed, &id.0);
        self.trashed = trashed;
    }

    /// Record that `id` was deleted permanently.
    pub fn mark_deleted(&mut self, id: NodeId)
        ensures
            final(self).spec_deleted() == old(self).spec_deleted().insert(id.0),
            final(self).spec_trashed() == old(self).spec_trashed(),
            final(self).spec_tree() == old(self).spec_tree(),
            final(self).spec_has_cursor() == old(self).spec_has_cursor(),
            final(self).spec_dir() == old(self).spec_dir(),
            final(self).spec_selected() == old(self).spec_selected(),
            final(self).spec_history() == old(self).spec_history(),
    {
        proof {
            use_type_invariant(&*self);
        }
        let mut deleted = set_new();
        std::mem::swap(&mut deleted, &mut self.deleted);
        set_insert(&mut deleted, id.0);
        self.deleted = deleted;
    }

    /// Record that `id`'s cloud download was removed.
    pub fn mark_evicted(&mut self, id: NodeId)
        ensures
            final(self).spec_evicted() == old(self).spec_evicted().insert(id.0),
            final(self).spec_trashed() == old(self).spec_trashed(),
            final(self).spec_tree() == old(self).spec_tree(),
            final(self).spec_has_cursor() == old(self).spec_has_cursor(),
            final(self).spec_dir() == old(self).spec_dir(),
            final(self).spec_selected() == old(self).spec_selected(),
            final(self).spec_history() == old(self).spec_history(),
    {
        proof {
            use_type_invariant(&*self);
        }
        let mut evicted = set_new();
        std::mem::swap(&mut evicted, &mut self.evicted);
        set_insert(&mut evicted, id.0);
        self.evicted = evicted;
    }

    /// The full path of `id`, when there is a tree.
    pub fn path_of(&self, id: NodeId) -> (r: Option<String>)
        requires
            self.valid_id(id),
        ensures
            match self.spec_tree() {
                Some(t) => r matches Some(p) && p@ == crate::tree::path_of(t.spec_nodes(), id.0 as int),
                None => r is None,
            },
    {
        match &self.tree {
            Some(tree) => Some(tree.path(id)),
            None => None,
        }
    }

    /// Why `id` must not be removed, if it is one of the places no disk
    /// usage tool should offer to delete: the scan root, a filesystem root,
    /// or the user's home folder `home`.
    pub fn check_removable(&self, id: NodeId, home: Option<&str>) -> (r: Result<(), IoError>)
        requires
            self.valid_id(id),
        ensures
            match r {
                Ok(()) => {
                    &&& self.spec_tree() is Some
                    &&& id.0 != 0
                    &&& components(crate::tree::path_of(self.spec_nodes(), id.0 as int)).len() > 1
                    &&& home matches Some(h) ==> components(h@) != components(
                        crate::tree::path_of(self.spec_nodes(), id.0 as int),
                    )
                },
                Err(e) => {
                    &&& e.kind == ErrorKind::PermissionDenied
                    &&& !(self.spec_tree() is Some && id.0 != 0 && components(
                        crate::tree::path_of(self.spec_nodes(), id.0 as int),
                    ).len() > 1 && (home matches Some(h) ==> components(h@) != components(
                        crate::tree::path_of(self.spec_nodes(), id.0 as int),
                    )))
                },
            },
    {
        let tree = match &self.tree {
            Some(t) => t,
            None => return Err(IoError { kind: ErrorKind::PermissionDenied, message: String::from_str("no scan") }),
        };
        if id.0 == 0 {
            return Err(
                IoError {
                    kind: ErrorKind::PermissionDenied,
                    message: String::from_str("the scanned folder itself is not removable; scan its parent"),
                },
            );
        }
        let path = tree.path(id);
        let parts = path_components(path.as_str());
        if parts.len() <= 1 {
            return Err(
                IoError { kind: ErrorKind::PermissionDenied, message: String::from_str("a drive root is not removable") },
            );
        }
        match home {
            Some(h) => {
                if crate::paths::starts_with(h, path.as_str()) && crate::paths::starts_with(path.as_str(), h) {
                    proof {
                        let a = components(h@);
                        let b = components(path@);
                        assert(a =~= b) by {
                            assert(a.take(b.len() as int) == b);
                            assert(b.take(a.len() as int) == a);
                        }
                    }
                    return Err(
                        IoError {
                            kind: ErrorKind::PermissionDenied,
                            message: String::from_str("the home folder is not removable"),
                        },
                    );
                }
                proof {
                    let a = components(h@);
                    let b = components(path@);
                    if a == b {
                        assert(a.take(b.len() as int) =~= b);
                    }
                }
            },
            None => {},
        }
        Ok(())
    }
}

/// The ancestors of `id`, itself first, up to the root.
fn ancestry(tree: &Tree, id: NodeId) -> (r: Vec<NodeId>)
    requires
        (id.0 as int) < tree.spec_nodes().len(),
    ensures
        r@ == chain_up(tree.spec_nodes(), id.0 as int),
{
    proof {
        use_type_invariant(tree);
    }
    let ghost nodes = tree.spec_nodes();
    let mut up: Vec<NodeId> = Vec::new();
    let mut current = id;
    loop
        invariant_except_break
            up@ + chain_up(nodes, current.0 as int) == chain_up(nodes, id.0 as int),
        invariant
            nodes == tree.spec_nodes(),
            parents_ok(nodes),
            (current.0 as int) < nodes.len(),
        ensures
            up@ == chain_up(nodes, id.0 as int),
        decreases current.0,
    {
        let ghost before = up@;
        up.push(current);
        let node = tree.node(current);
        match node.parent {
            Some(p) => {
                assert(p.0 < current.0);
                assert(up@ + chain_up(nodes, p.0 as int) =~= before + chain_up(nodes, current.0 as int));
                current = p;
            },
            None => {
                assert(up@ =~= before + chain_up(nodes, current.0 as int));
                break;
            },
        }
    }
    up
}

/// Whether `id` or an ancestor is a key of `marks`.
fn any_trashed(tree: &Tree, id: NodeId, marks: &foldhash::HashMap<u32, Option<String>>) -> (r: bool)
    requires
        (id.0 as int) < tree.spec_nodes().len(),
    ensures
        r == marked(tree.spec_nodes(), id.0 as int, marks@.dom()),
{
    if map_is_empty(marks) {
        proof {
            if marked(tree.spec_nodes(), id.0 as int, marks@.dom()) {
                let k = choose|k: int|
                    0 <= k < chain_up(tree.spec_nodes(), id.0 as int).len() && marks@.dom().contains(
                        #[trigger] chain_up(tree.spec_nodes(), id.0 as int)[k].0,
                    );
            }
        }
        return false;
    }
    let chain = ancestry(tree, id);
    let mut i: usize = 0;
    while i < chain.len()
        invariant
            i <= chain@.len(),
            chain@ == chain_up(tree.spec_nodes(), id.0 as int),
            forall|k: int| 0 <= k < i ==> !marks@.dom().contains(#[trigger] chain@[k].0),
        decreases chain@.len() - i,
    {
        match map_get_ref(marks, &chain[i].0) {
            Some(_) => return true,
            None => {},
        }
        i = i + 1;
    }
    false
}

/// Whether `id` or an ancestor is in `marks`.
fn any_marked(tree: &Tree, id: NodeId, marks: &foldhash::HashSet<u32>) -> (r: bool)
    requires
        (id.0 as int) < tree.spec_nodes().len(),
    ensures
        r == marked(tree.spec_nodes(), id.0 as int, marks@),
{
    if set_is_empty(marks) {
        proof {
            if marked(tree.spec_nodes(), id.0 as int, marks@) {
                let k = choose|k: int|
                    0 <= k < chain_up(tree.spec_nodes(), id.0 as int).len() && marks@.contains(
                        #[trigger] chain_up(tree.spec_nodes(), id.0 as int)[k].0,
                    );
            }
        }
        return false;
    }
    let chain = ancestry(tree, id);
    let mut i: usize = 0;
    while i < chain.len()
        invariant
            i <= chain@.len(),
            chain@ == chain_up(tree.spec_nodes(), id.0 as int),
            forall|k: int| 0 <= k < i ==> !marks@.contains(#[trigger] chain@[k].0),
        decreases chain@.len() - i,
    {
        if set_contains(marks, &chain[i].0) {
            return true;
        }
        i = i + 1;
    }
    false
}

/// Going back after going into a directory ([`App::enter`] or
/// [`App::zoom_to`] returning true) restores the directory, the
/// selection and the way back from before.
pub proof fn back_undoes_enter(before: &App, inside: &App, after: &App)
    requires
        inside.spec_history() == before.spec_history().push((before.spec_dir(), before.spec_selected())),
        after.spec_dir() == inside.spec_history().last().0,
        after.spec_selected() == inside.spec_history().last().1,
        after.spec_history() == inside.spec_history().drop_last(),
    ensures
        after.spec_dir() == before.spec_dir(),
        after.spec_selected() == before.spec_selected(),
        after.spec_history() == before.spec_history(),
{
    assert(inside.spec_history().drop_last() =~= before.spec_history());
}

/// Opening and then closing a directory (two [`App::toggle_expanded`]
/// calls) leaves what is open as it was.
pub proof fn toggle_twice_restores(open: Set<u32>, id: u32)
    ensures
        ({
            let once = if !open.contains(id) {
                open.insert(id)
            } else {
                open.remove(id)
            };
            let twice = if !once.contains(id) {
                once.insert(id)
            } else {
                once.remove(id)
            };
            twice == open
        }),
{
    let once = if !open.contains(id) {
        open.insert(id)
    } else {
        open.remove(id)
    };
    let twice = if !once.contains(id) {
        once.insert(id)
    } else {
        once.remove(id)
    };
    assert(twice =~= open);
}

/// With nothing open, a tree view lists exactly the entries of the
/// directory, all at depth zero.
pub proof fn closed_rows_are_entries(lists: Seq<Seq<NodeId>>, list: Seq<NodeId>, parent: int, from: int)
    requires
        0 <= from <= list.len(),
        forall|k: int| 0 <= k < list.len() ==> (#[trigger] list[k]).0 > parent && (list[k].0 as int) < lists.len(),
    ensures
        rows_list(lists, Set::empty(), list, 0, parent, from) == list.subrange(from, list.len() as int).map_values(
            |x: NodeId| (x, 0u32),
        ),
    decreases list.len() - from,
{
    if from < list.len() {
        closed_rows_are_entries(lists, list, parent, from + 1);
        assert(list[from].0 > parent);
        assert(rows_node(lists, Set::empty(), list[from], 0) =~= seq![(list[from], 0u32)]);
        assert(list.subrange(from, list.len() as int).map_values(|x: NodeId| (x, 0u32)) =~= seq![(list[from], 0u32)]
            + list.subrange(from + 1, list.len() as int).map_values(|x: NodeId| (x, 0u32)));
    } else {
        assert(list.subrange(from, list.len() as int).map_values(|x: NodeId| (x, 0u32)) =~= Seq::<(NodeId, u32)>::empty());
    }
}

/// The first index of `id` in `list`, or its length when it is absent.
fn position_of(list: &[NodeId], id: NodeId) -> (r: usize)
    ensures
        r <= list@.len(),
        forall|k: int| 0 <= k < r ==> list@[k] != id,
        r < list@.len() ==> list@[r as int] == id,
        r == list@.len() ==> !list@.contains(id),
{
    let mut index: usize = 0;
    while index < list.len()
        invariant
            index <= list@.len(),
            forall|k: int| 0 <= k < index ==> list@[k] != id,
        decreases list@.len() - index,
    {
        if list[index] == id {
            return index;
        }
        index = index + 1;
    }
    index
}

/// The rows still to come for a stack of nodes (top last) waiting to be shown.
pub open spec fn pending(lists: Seq<Seq<NodeId>>, open: Set<u32>, stack: Seq<(NodeId, u32)>) -> Seq<(NodeId, u32)>
    decreases stack.len(),
{
    if stack.len() == 0 {
        seq![]
    } else {
        rows_node(lists, open, stack.last().0, stack.last().1 as int) + pending(lists, open, stack.drop_last())
    }
}

/// `list[from..]` at `depth`, reversed, so that the first is on top.
pub open spec fn reversed_at(list: Seq<NodeId>, depth: u32, from: int) -> Seq<(NodeId, u32)>
    decreases list.len() - from,
{
    if from < 0 || from >= list.len() {
        seq![]
    } else {
        reversed_at(list, depth, from + 1).push((list[from], depth))
    }
}

proof fn lemma_pending_push(
    lists: Seq<Seq<NodeId>>,
    open: Set<u32>,
    stack: Seq<(NodeId, u32)>,
    list: Seq<NodeId>,
    depth: u32,
    parent: int,
    from: int,
)
    requires
        0 <= from <= list.len(),
        forall|k: int| 0 <= k < list.len() ==> (#[trigger] list[k]).0 > parent && (list[k].0 as int) < lists.len(),
    ensures
        pending(lists, open, stack + reversed_at(list, depth, from)) == rows_list(
            lists,
            open,
            list,
            depth as int,
            parent,
            from,
        ) + pending(lists, open, stack),
    decreases list.len() - from,
{
    if from >= list.len() {
        assert(stack + reversed_at(list, depth, from) =~= stack);
        assert(rows_list(lists, open, list, depth as int, parent, from) =~= Seq::<(NodeId, u32)>::empty());
        assert(Seq::<(NodeId, u32)>::empty() + pending(lists, open, stack) =~= pending(lists, open, stack));
    } else {
        lemma_pending_push(lists, open, stack, list, depth, parent, from + 1);
        let s2 = stack + reversed_at(list, depth, from);
        assert(s2 =~= (stack + reversed_at(list, depth, from + 1)).push((list[from], depth)));
        assert(s2.last() == (list[from], depth));
        assert(s2.drop_last() =~= stack + reversed_at(list, depth, from + 1));
        assert(list[from].0 > parent);
        assert(rows_node(lists, open, list[from], depth as int) + (rows_list(
            lists,
            open,
            list,
            depth as int,
            parent,
            from + 1,
        ) + pending(lists, open, stack)) =~= (rows_node(lists, open, list[from], depth as int) + rows_list(
            lists,
            open,
            list,
            depth as int,
            parent,
            from + 1,
        )) + pending(lists, open, stack));
    }
}

/// The rows under `dir` (see [`App::tree_rows`]).
fn rows_of(tree: &Tree, expanded: &foldhash::HashSet<u32>, dir: NodeId) -> (r: Vec<(NodeId, u32)>)
    requires
        tree.well_formed(),
        (dir.0 as int) < tree.spec_nodes().len(),
    ensures
        r@ == rows_list(tree.spec_children(), expanded@, tree.spec_children()[dir.0 as int], 0, dir.0 as int, 0),
{
    let ghost lists = tree.spec_children();
    let ghost open = expanded@;
    let ghost nodes = tree.spec_nodes();
    let mut rows: Vec<(NodeId, u32)> = Vec::new();
    let mut stack: Vec<(NodeId, u32)> = Vec::new();
    let top = tree.children(dir);
    let mut k = top.len();
    proof {
        assert(lists.len() == nodes.len());
        assert forall|j: int| 0 <= j < top@.len() implies (#[trigger] top@[j]).0 > dir.0 && (top@[j].0 as int)
            < nodes.len() by {
            assert(crate::tree::child_list_ok(nodes, tree.spec_metric(), dir.0 as int, lists[dir.0 as int]));
            assert(lists[dir.0 as int].contains(top@[j]));
        }
        lemma_pending_push(lists, open, Seq::empty(), top@, 0, dir.0 as int, 0);
        assert(Seq::<(NodeId, u32)>::empty() + reversed_at(top@, 0, 0) =~= reversed_at(top@, 0, 0));
        assert(pending(lists, open, Seq::empty()) =~= Seq::<(NodeId, u32)>::empty());
    }
    while k > 0
        invariant
            k <= top@.len(),
            stack@ == reversed_at(top@, 0, k as int),
            forall|j: int| 0 <= j < top@.len() ==> (#[trigger] top@[j]).0 > dir.0 && (top@[j].0 as int) < nodes.len(),
            forall|t: int| 0 <= t < stack@.len() ==> ((#[trigger] stack@[t]).0.0 as int) < nodes.len() && (
            stack@[t].1 as int) < stack@[t].0.0,
        decreases k,
    {
        k = k - 1;
        stack.push((top[k], 0));
    }
    let ghost target = rows_list(lists, open, lists[dir.0 as int], 0, dir.0 as int, 0);
    assert(pending(lists, open, stack@) + Seq::empty() =~= target);
    loop
        invariant
            tree.well_formed(),
            lists == tree.spec_children(),
            nodes == tree.spec_nodes(),
            open == expanded@,
            lists.len() == nodes.len(),
            forall|t: int| 0 <= t < stack@.len() ==> ((#[trigger] stack@[t]).0.0 as int) < nodes.len() && (
            stack@[t].1 as int) < stack@[t].0.0,
            rows@ + pending(lists, open, stack@) == target,
        ensures
            rows@ == target,
        decreases target.len() - rows@.len(),
    {
        let ghost before_stack = stack@;
        let (id, depth) = match stack.pop() {
            Some(entry) => entry,
            None => {
                assert(rows@ + Seq::empty() =~= rows@);
                break;
            },
        };
        assert(before_stack.last() == (id, depth));
        assert(before_stack.drop_last() =~= stack@);
        rows.push((id, depth));
        let is_open = set_contains(expanded, &id.0);
        if is_open {
            let kids = tree.children(id);
            proof {
                assert forall|j: int| 0 <= j < kids@.len() implies (#[trigger] kids@[j]).0 > id.0 && (kids@[j].0 as int)
                    < nodes.len() by {
                    assert(crate::tree::child_list_ok(nodes, tree.spec_metric(), id.0 as int, lists[id.0 as int]));
                    assert(lists[id.0 as int].contains(kids@[j]));
                }
                lemma_pending_push(lists, open, stack@, kids@, (depth + 1) as u32, id.0 as int, 0);
            }
            let ghost base = stack@;
            let mut k = kids.len();
            while k > 0
                invariant
                    k <= kids@.len(),
                    stack@ == base + reversed_at(kids@, (depth + 1) as u32, k as int),
                    depth < id.0,
                    forall|j: int| 0 <= j < kids@.len() ==> (#[trigger] kids@[j]).0 > id.0 && (kids@[j].0 as int) < nodes.len(),
                    forall|t: int| 0 <= t < stack@.len() ==> ((#[trigger] stack@[t]).0.0 as int) < nodes.len() && (
                    stack@[t].1 as int) < stack@[t].0.0,
                decreases k,
            {
                k = k - 1;
                stack.push((kids[k], depth + 1));
                assert(stack@ =~= base + reversed_at(kids@, (depth + 1) as u32, k as int));
            }
            assert(rows@ + pending(lists, open, stack@) =~= target);
        } else {
            assert(rows@ + pending(lists, open, stack@) =~= target);
        }
    }
    rows
}

} // verus!
