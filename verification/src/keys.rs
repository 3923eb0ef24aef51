//! Keyboard navigation in the tree view: up and down through the visible
//! rows, to either end, by a page, and right and left to open, close,
//! step into or out of a directory. Reading the keys is the interface's;
//! which row ends up selected is decided here.

use crate::app::{rows_list, rows_node, App};
use crate::tree::NodeId;
use vstd::prelude::*;

verus! {

/// A navigation key.
#[derive(Clone, Copy, Debug, PartialEq, Eq, Structural)]
pub enum Nav {
    Up,
    Down,
    Left,
    Right,
    /// Home, or Cmd+Up on macOS.
    First,
    /// End, or Cmd+Down on macOS.
    Last,
    /// Page Up, or Option+Up on macOS.
    PageUp,
    /// Page Down, or Option+Down on macOS.
    PageDown,
}

/// The rows the tree view shows: the zoom directory's contents, opened
/// directories unfolded, each with its depth.
pub open spec fn visible_rows(app: &App) -> Seq<(NodeId, u32)> {
    if app.spec_has_cursor() && app.spec_tree() is Some {
        rows_list(
            app.spec_tree()->Some_0.spec_children(),
            app.spec_expanded(),
            app.spec_tree()->Some_0.spec_children()[app.spec_dir().0 as int],
            0,
            app.spec_dir().0 as int,
            0,
        )
    } else {
        seq![]
    }
}

/// The first row from `k` on that shows `id`.
pub open spec fn find_row(rows: Seq<(NodeId, u32)>, id: NodeId, k: int) -> Option<int>
    decreases rows.len() - k,
{
    if k < 0 || k >= rows.len() {
        None
    } else if rows[k].0 == id {
        Some(k)
    } else {
        find_row(rows, id, k + 1)
    }
}

proof fn lemma_find_row(rows: Seq<(NodeId, u32)>, id: NodeId, k: int)
    requires
        0 <= k,
    ensures
        find_row(rows, id, k) matches Some(j) ==> k <= j < rows.len() && rows[j].0 == id,
    decreases rows.len() - k,
{
    if k < rows.len() && rows[k].0 != id {
        lemma_find_row(rows, id, k + 1);
    }
}

/// The first row showing `id`.
pub fn row_position(rows: &Vec<(NodeId, u32)>, id: NodeId) -> (r: Option<usize>)
    ensures
        match find_row(rows@, id, 0) {
            Some(j) => r == Some(j as usize),
            None => r is None,
        },
{
    let mut k: usize = 0;
    while k < rows.len()
        invariant
            k <= rows@.len(),
            find_row(rows@, id, k as int) == find_row(rows@, id, 0),
        decreases rows@.len() - k,
    {
        if rows[k].0 == id {
            return Some(k);
        }
        k = k + 1;
    }
    None
}

/// Where a key other than left and right moves from row `index` (none
/// when nothing is selected) among `len` rows, `page` to a screenful.
pub open spec fn moved_to(nav: Nav, index: Option<int>, len: int, page: int) -> int {
    let last = len - 1;
    match nav {
        Nav::Down => match index {
            Some(i) => if i + 1 < last { i + 1 } else { last },
            None => 0,
        },
        Nav::Up => match index {
            Some(i) => if i >= 1 { i - 1 } else { 0 },
            None => 0,
        },
        Nav::First => 0,
        Nav::Last => last,
        Nav::PageDown => match index {
            Some(i) => if i + page < last { i + page } else { last },
            None => 0,
        },
        Nav::PageUp => match index {
            Some(i) => if i >= page { i - page } else { 0 },
            None => 0,
        },
        _ => 0,
    }
}

proof fn lemma_list_ids(
    lists: Seq<Seq<NodeId>>,
    open: Set<u32>,
    list: Seq<NodeId>,
    depth: int,
    parent: int,
    from: int,
)
    ensures
        forall|k: int|
            0 <= k < rows_list(lists, open, list, depth, parent, from).len() ==> (#[trigger] rows_list(
                lists,
                open,
                list,
                depth,
                parent,
                from,
            )[k].0.0 as int) < lists.len(),
    decreases lists.len() - parent, 0int, list.len() - from,
{
    if from < 0 || from >= list.len() || list[from].0 <= parent || list[from].0 >= lists.len() {
    } else {
        lemma_node_ids(lists, open, list[from], depth);
        lemma_list_ids(lists, open, list, depth, parent, from + 1);
        let a = rows_node(lists, open, list[from], depth);
        let b = rows_list(lists, open, list, depth, parent, from + 1);
        assert(rows_list(lists, open, list, depth, parent, from) == a + b);
        assert forall|k: int| 0 <= k < (a + b).len() implies ((a + b)[k].0.0 as int) < lists.len() by {
            if k < a.len() {
                assert((a + b)[k] == a[k]);
            } else {
                assert((a + b)[k] == b[k - a.len()]);
            }
        }
    }
}

proof fn lemma_node_ids(lists: Seq<Seq<NodeId>>, open: Set<u32>, id: NodeId, depth: int)
    ensures
        forall|k: int|
            0 <= k < rows_node(lists, open, id, depth).len() ==> (#[trigger] rows_node(lists, open, id, depth)[k].0.0 as int)
                < lists.len(),
    decreases lists.len() - id.0, 1int, 0int,
{
    if id.0 < lists.len() {
        let rest = if open.contains(id.0) {
            rows_list(lists, open, lists[id.0 as int], depth + 1, id.0 as int, 0)
        } else {
            seq![]
        };
        if open.contains(id.0) {
            lemma_list_ids(lists, open, lists[id.0 as int], depth + 1, id.0 as int, 0);
        }
        let whole = seq![(id, depth as u32)] + rest;
        assert(rows_node(lists, open, id, depth) == whole);
        assert forall|k: int| 0 <= k < whole.len() implies (whole[k].0.0 as int) < lists.len() by {
            if k > 0 {
                assert(whole[k] == rest[k - 1]);
            }
        }
    }
}

impl App {
    /// Apply a navigation key to the tree view whose selected node is
    /// `selected`, and return the node to select, if any. `page` is a
    /// screenful of rows (at least one). Up, down, the ends and the pages
    /// move through the visible rows; right opens a closed directory or
    /// steps into an open one's first child; left closes an open
    /// directory or steps to the parent; with nothing selected, right and
    /// left select the first row.
    pub fn navigate(&mut self, selected: Option<NodeId>, nav: Nav, page: usize) -> (r: Option<NodeId>)
        requires
            page >= 1,
            old(self).spec_has_cursor() ==> old(self).spec_tree() is Some,
        ensures
            ({
                let rows = visible_rows(old(self));
                let index = match selected {
                    Some(s) => find_row(rows, s, 0),
                    None => None,
                };
                let opened = final(self).spec_expanded() != old(self).spec_expanded();
                &&& final(self).spec_tree() == old(self).spec_tree()
                &&& final(self).spec_has_cursor() == old(self).spec_has_cursor()
                &&& final(self).spec_dir() == old(self).spec_dir()
                &&& final(self).spec_selected() == old(self).spec_selected()
                &&& final(self).spec_history() == old(self).spec_history()
                &&& rows.len() == 0 ==> r is None && !opened
                &&& rows.len() > 0 && nav != Nav::Left && nav != Nav::Right ==> {
                    &&& !opened
                    &&& r == Some(rows[moved_to(nav, index, rows.len() as int, page as int)].0)
                }
                &&& rows.len() > 0 && (nav == Nav::Left || nav == Nav::Right) ==> match index {
                    None => {
                        &&& !opened
                        &&& r == Some(rows[0].0)
                    },
                    Some(i) => {
                        let id = rows[i].0;
                        let is_dir = old(self).spec_tree()->Some_0.spec_children()[id.0 as int].len() > 0;
                        let open = old(self).spec_expanded().contains(id.0);
                        let after = visible_rows(final(self));
                        if nav == Nav::Right {
                            if is_dir && open {
                                &&& !opened
                                &&& r == (if i + 1 < rows.len() { Some(rows[i + 1].0) } else { None })
                            } else if is_dir {
                                &&& final(self).spec_expanded() == old(self).spec_expanded().insert(id.0)
                                &&& r == (if i < after.len() { Some(after[i].0) } else { None })
                            } else {
                                !opened && r is None
                            }
                        } else if is_dir && open {
                            &&& final(self).spec_expanded() == old(self).spec_expanded().remove(id.0)
                            &&& r == (if i < after.len() { Some(after[i].0) } else { None })
                        } else {
                            &&& !opened
                            &&& r == match old(self).spec_nodes()[id.0 as int].parent {
                                Some(p) => if find_row(rows, p, 0) is Some { Some(p) } else { None },
                                None => None,
                            }
                        }
                    },
                }
            }),
    {
        let rows = self.tree_rows();
        assert(rows@ == visible_rows(self));
        if rows.len() == 0 {
            return None;
        }
        let last = rows.len() - 1;
        let index = match selected {
            Some(s) => row_position(&rows, s),
            None => None,
        };
        let ghost gindex = match index {
            Some(i) => Some(i as int),
            None => None::<int>,
        };
        proof {
            if let Some(s) = selected {
                lemma_find_row(rows@, s, 0);
            }
        }
        let target: usize = match nav {
            Nav::Down => match index {
                Some(i) => if i + 1 < last { i + 1 } else { last },
                None => 0,
            },
            Nav::Up => match index {
                Some(i) => if i >= 1 { i - 1 } else { 0 },
                None => 0,
            },
            Nav::First => 0,
            Nav::Last => last,
            Nav::PageDown => match index {
                Some(i) => if i < last && page < last - i { i + page } else { last },
                None => 0,
            },
            Nav::PageUp => match index {
                Some(i) => if i >= page { i - page } else { 0 },
                None => 0,
            },
            Nav::Left | Nav::Right => {
                let i = match index {
                    Some(i) => i,
                    None => return Some(rows[0].0),
                };
                let id = rows[i].0;
                let tree = match self.tree() {
                    Some(t) => t,
                    None => return None,
                };
                proof {
                    use_type_invariant(tree);
                    lemma_list_ids(
                        tree.spec_children(),
                        self.spec_expanded(),
                        tree.spec_children()[self.spec_dir().0 as int],
                        0,
                        self.spec_dir().0 as int,
                        0,
                    );
                    assert(rows@[i as int] == visible_rows(self)[i as int]);
                }
                let is_dir = tree.children(id).len() > 0;
                let parent = tree.node(id).parent;
                let open = self.is_expanded(id);
                if nav == Nav::Right {
                    if !is_dir {
                        return None;
                    }
                    if open {
                        return if i + 1 < rows.len() {
                            Some(rows[i + 1].0)
                        } else {
                            None
                        };
                    }
                    self.toggle_expanded(id);
                    let after = self.tree_rows();
                    return if i < after.len() {
                        Some(after[i].0)
                    } else {
                        None
                    };
                }
                if is_dir && open {
                    self.toggle_expanded(id);
                    let after = self.tree_rows();
                    return if i < after.len() {
                        Some(after[i].0)
                    } else {
                        None
                    };
                }
                return match parent {
                    Some(p) => match row_position(&rows, p) {
                        Some(_) => Some(p),
                        None => None,
                    },
                    None => None,
                };
            },
        };
        assert(target as int == moved_to(nav, gindex, rows@.len() as int, page as int));
        Some(rows[target].0)
    }
}

} // verus!
