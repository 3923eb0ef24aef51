//! Text of the window's tree view rows: the name cell and the count
//! columns. Counts are shown for directories only; files get blanks
//! there, as WinDirStat does.

use crate::format::{decimal, push_decimal};
use crate::tree::{Node, NodeId, Tree};
use vstd::prelude::*;
use vstd::string::*;

verus! {

/// The name cell: the name, a slash after a directory with contents, and
/// a warning mark when reading the entry failed.
pub open spec fn row_name_spec(node: Node, is_dir: bool) -> Seq<char> {
    node.name@ + (if is_dir {
        seq!['/']
    } else {
        seq![]
    }) + (if node.error {
        "  !"@
    } else {
        seq![]
    })
}

/// The name cell for `id` (see [`row_name_spec`]).
pub fn row_name(tree: &Tree, id: NodeId) -> (r: String)
    requires
        (id.0 as int) < tree.spec_nodes().len(),
    ensures
        r@ == row_name_spec(tree.spec_nodes()[id.0 as int], tree.spec_children()[id.0 as int].len() > 0),
{
    proof {
        use_type_invariant(tree);
    }
    let node = tree.node(id);
    let mut name = node.name.as_str().to_owned();
    if tree.children(id).len() > 0 {
        crate::text::push_char(&mut name, '/');
    }
    if node.error {
        name.append("  !");
    }
    name
}

/// A count cell: the number for a directory, blank for a file.
pub open spec fn count_spec(n: nat, is_dir: bool) -> Seq<char> {
    if is_dir {
        decimal(n)
    } else {
        seq![]
    }
}

/// The items, files and folders cells for `id`: everything below it, the
/// files below it and the folders below it, for a directory; blanks for
/// a file.
pub fn row_counts(tree: &Tree, id: NodeId) -> (r: (String, String, String))
    requires
        (id.0 as int) < tree.spec_nodes().len(),
    ensures
        ({
            let node = tree.spec_nodes()[id.0 as int];
            let is_dir = tree.spec_children()[id.0 as int].len() > 0;
            &&& r.0@ == count_spec((node.file_count + node.dir_count) as nat, is_dir)
            &&& r.1@ == count_spec(node.file_count as nat, is_dir)
            &&& r.2@ == count_spec(node.dir_count as nat, is_dir)
        }),
{
    proof {
        use_type_invariant(tree);
    }
    let node = tree.node(id);
    if tree.children(id).len() == 0 {
        return (String::new(), String::new(), String::new());
    }
    let mut items = String::new();
    push_decimal(&mut items, node.file_count as u128 + node.dir_count as u128);
    let mut files = String::new();
    push_decimal(&mut files, node.file_count as u128);
    let mut dirs = String::new();
    push_decimal(&mut dirs, node.dir_count as u128);
    (items, files, dirs)
}

/// The totals the toolbar shows for the current folder: its size and the
/// files below it.
pub open spec fn totals_spec(bytes: nat, files: nat) -> Seq<char> {
    crate::format::size_text(bytes) + "   "@ + decimal(files) + " files"@
}

/// The toolbar's totals for a folder of `bytes` holding `files` files
/// (see [`totals_spec`]).
pub fn totals_text(bytes: u64, files: u64) -> (r: String)
    ensures
        r@ == totals_spec(bytes as nat, files as nat),
{
    let mut text = crate::format::size(bytes);
    text.append("   ");
    push_decimal(&mut text, files as u128);
    text.append(" files");
    proof {
        reveal_strlit("   ");
        reveal_strlit(" files");
    }
    text
}

/// Whether `s` ends in a path separator.
pub open spec fn ends_in_slash(s: Seq<char>) -> bool {
    s.len() > 0 && s.last() == '/'
}

/// A crumb of the current folder's row: the name, with a slash after the
/// last crumb unless it already ends in one; and whether a separating
/// slash is drawn after it, which only an ancestor not ending in a slash
/// gets.
pub open spec fn crumb_label_spec(name: Seq<char>, last: bool) -> (Seq<char>, bool) {
    if last {
        (if ends_in_slash(name) {
            name
        } else {
            name.push('/')
        }, false)
    } else {
        (name, !ends_in_slash(name))
    }
}

/// The text of a crumb named `name` in the current folder's row, and
/// whether a separating slash follows it (see [`crumb_label_spec`]).
pub fn crumb_label(name: &str, last: bool) -> (r: (String, bool))
    ensures
        (r.0@, r.1) == crumb_label_spec(name@, last),
{
    let chars = crate::text::chars_of(name);
    let slash = chars.len() > 0 && chars[chars.len() - 1] == '/';
    let mut text = name.to_owned();
    if last {
        if !slash {
            crate::text::push_char(&mut text, '/');
        }
        (text, false)
    } else {
        (text, !slash)
    }
}

} // verus!
