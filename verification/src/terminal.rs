//! The terminal interface's decisions: what each key does, and the text of
//! the header, the footer and the list rows. Reading keys and drawing are
//! the terminal library's.

use crate::app::{chain_up, App};
use crate::format::{decimal, push_decimal, size, size_text};
use crate::text::push_char;
use crate::tree::{Node, NodeId, Tree};
use vstd::prelude::*;
use vstd::string::*;

verus! {

/// A key as the terminal reports it.
#[derive(Clone, Copy, Debug, PartialEq, Eq, Structural)]
pub enum Key {
    Char(char),
    Esc,
    Up,
    Down,
    Left,
    Right,
    PageUp,
    PageDown,
    Home,
    End,
    Enter,
    Backspace,
    /// Any other key.
    Other,
}

/// What a key asks for.
#[derive(Clone, Copy, Debug, PartialEq, Eq, Structural)]
pub enum Command {
    Quit,
    /// Move the selection by this many entries.
    Move(isize),
    First,
    Last,
    /// Go into the selected folder.
    Enter,
    /// Go back up.
    Back,
    /// Open the selected entry with the default app.
    Open,
    /// Move the selected entry to the trash.
    Trash,
}

/// What `key` does, `ctrl` held or not, when the build can `open` entries
/// and move them to the `trash`: the keys of the README's table.
pub open spec fn command_spec(key: Key, ctrl: bool, open: bool, trash: bool) -> Option<Command> {
    match key {
        Key::Esc => Some(Command::Quit),
        Key::Down => Some(Command::Move(1isize)),
        Key::Up => Some(Command::Move(-1isize)),
        Key::PageDown => Some(Command::Move(10isize)),
        Key::PageUp => Some(Command::Move(-10isize)),
        Key::Home => Some(Command::First),
        Key::End => Some(Command::Last),
        Key::Enter | Key::Right => Some(Command::Enter),
        Key::Backspace | Key::Left => Some(Command::Back),
        Key::Char(c) => if c == 'q' || (c == 'c' && ctrl) {
            Some(Command::Quit)
        } else if c == 'j' {
            Some(Command::Move(1isize))
        } else if c == 'k' {
            Some(Command::Move(-1isize))
        } else if c == 'd' {
            Some(Command::Move(10isize))
        } else if c == 'u' {
            Some(Command::Move(-10isize))
        } else if c == 'g' {
            Some(Command::First)
        } else if c == 'G' {
            Some(Command::Last)
        } else if c == 'l' {
            Some(Command::Enter)
        } else if c == 'h' {
            Some(Command::Back)
        } else if c == 'o' && open {
            Some(Command::Open)
        } else if c == 'x' && ctrl && trash {
            Some(Command::Trash)
        } else {
            None
        },
        Key::Other => None,
    }
}

/// What `key` does (see [`command_spec`]).
pub fn command_for(key: Key, ctrl: bool, open: bool, trash: bool) -> (r: Option<Command>)
    ensures
        r == command_spec(key, ctrl, open, trash),
{
    match key {
        Key::Esc => Some(Command::Quit),
        Key::Down => Some(Command::Move(1)),
        Key::Up => Some(Command::Move(-1)),
        Key::PageDown => Some(Command::Move(10)),
        Key::PageUp => Some(Command::Move(-10)),
        Key::Home => Some(Command::First),
        Key::End => Some(Command::Last),
        Key::Enter | Key::Right => Some(Command::Enter),
        Key::Backspace | Key::Left => Some(Command::Back),
        Key::Char(c) => if c == 'q' || (c == 'c' && ctrl) {
            Some(Command::Quit)
        } else if c == 'j' {
            Some(Command::Move(1))
        } else if c == 'k' {
            Some(Command::Move(-1))
        } else if c == 'd' {
            Some(Command::Move(10))
        } else if c == 'u' {
            Some(Command::Move(-10))
        } else if c == 'g' {
            Some(Command::First)
        } else if c == 'G' {
            Some(Command::Last)
        } else if c == 'l' {
            Some(Command::Enter)
        } else if c == 'h' {
            Some(Command::Back)
        } else if c == 'o' && open {
            Some(Command::Open)
        } else if c == 'x' && ctrl && trash {
            Some(Command::Trash)
        } else {
            None
        },
        Key::Other => None,
    }
}

/// The key help in the footer, listing open and trash only when the
/// build has them.
pub open spec fn footer_keys_spec(open: bool, trash: bool) -> Seq<char> {
    " ↑↓/jk move  ⏎/l enter  ⌫/h back  g/G ends"@ + (if open {
        "  o open"@
    } else {
        seq![]
    }) + (if trash {
        "  ^x trash"@
    } else {
        seq![]
    }) + "  q quit"@
}

/// The key help in the footer (see [`footer_keys_spec`]).
pub fn footer_keys(open: bool, trash: bool) -> (r: String)
    ensures
        r@ == footer_keys_spec(open, trash),
{
    let mut keys = " ↑↓/jk move  ⏎/l enter  ⌫/h back  g/G ends".to_owned();
    if open {
        keys.append("  o open");
    }
    if trash {
        keys.append("  ^x trash");
    }
    keys.append("  q quit");
    keys
}

/// The names along `crumbs` joined by ` › `.
pub open spec fn crumb_names(nodes: Seq<Node>, crumbs: Seq<NodeId>) -> Seq<char>
    decreases crumbs.len(),
{
    if crumbs.len() == 0 {
        seq![]
    } else if crumbs.len() == 1 {
        nodes[crumbs[0].0 as int].name@
    } else {
        crumb_names(nodes, crumbs.drop_last()) + " › "@ + nodes[crumbs.last().0 as int].name@
    }
}

/// The header line: the path to the current directory as crumbs, then its
/// size and file count; just the program's name before the first scan.
pub open spec fn header_spec(app: &App) -> Seq<char> {
    if app.spec_tree() is Some && app.spec_has_cursor() {
        let nodes = app.spec_nodes();
        let dir = app.spec_dir().0 as int;
        " "@ + crumb_names(nodes, chain_up(nodes, dir).reverse()) + "   "@ + size_text(
            app.spec_tree()->Some_0.spec_size(dir) as nat,
        ) + "  ·  "@ + decimal(nodes[dir].file_count as nat) + " files"@
    } else {
        " dirstats"@
    }
}

/// Every node on the way up from a node of the tree is in the tree.
proof fn lemma_chain_in(nodes: Seq<Node>, i: int, k: int)
    requires
        0 <= i < nodes.len(),
        0 <= k < chain_up(nodes, i).len(),
    ensures
        (chain_up(nodes, i)[k].0 as int) < nodes.len(),
    decreases i,
{
    match nodes[i].parent {
        Some(p) => if 0 <= p.0 < i && k > 0 {
            lemma_chain_in(nodes, p.0 as int, k - 1);
        } else {
            assert(chain_up(nodes, i)[k] == NodeId(i as u32));
        },
        None => {
            assert(chain_up(nodes, i)[k] == NodeId(i as u32));
        },
    }
}

/// The header line (see [`header_spec`]).
pub fn header_line(app: &App) -> (r: String)
    ensures
        r@ == header_spec(app),
{
    let dir = match app.dir() {
        Some(d) => d,
        None => return " dirstats".to_owned(),
    };
    let tree = match app.tree() {
        Some(t) => t,
        None => return " dirstats".to_owned(),
    };
    proof {
        use_type_invariant(tree);
        assert(app.spec_nodes() == tree.spec_nodes());
    }
    let crumbs = app.breadcrumbs();
    proof {
        assert forall|k: int| 0 <= k < crumbs@.len() implies (#[trigger] crumbs@[k].0 as int) < tree.spec_nodes().len() by {
            lemma_chain_in(tree.spec_nodes(), dir.0 as int, crumbs@.len() - 1 - k);
        }
    }
    let ghost nodes = tree.spec_nodes();
    let mut out = " ".to_owned();
    let ghost start = out@;
    let mut i: usize = 0;
    while i < crumbs.len()
        invariant
            i <= crumbs@.len(),
            nodes == tree.spec_nodes(),
            forall|k: int| 0 <= k < crumbs@.len() ==> (#[trigger] crumbs@[k].0 as int) < nodes.len(),
            out@ == start + crumb_names(nodes, crumbs@.take(i as int)),
        decreases crumbs@.len() - i,
    {
        if i > 0 {
            out.append(" › ");
        }
        out.append(tree.node(crumbs[i]).name.as_str());
        proof {
            let t = crumbs@.take(i + 1);
            assert(t.drop_last() =~= crumbs@.take(i as int));
            assert(t.last() == crumbs@[i as int]);
            if i == 0 {
                assert(crumb_names(nodes, t) == nodes[crumbs@[0].0 as int].name@);
            }
        }
        i = i + 1;
    }
    assert(crumbs@.take(crumbs@.len() as int) =~= crumbs@);
    out.append("   ");
    out.append(size(tree.size(dir)).as_str());
    out.append("  ·  ");
    push_decimal(&mut out, tree.node(dir).file_count as u128);
    out.append(" files");
    out
}

/// The name column of a list row: the name, a slash after a directory
/// with contents, cut to `width` characters; then ` !` when reading it
/// failed and ` (hard link)` for an extra link to counted data.
pub open spec fn row_label_spec(node: Node, has_children: bool, width: nat) -> Seq<char> {
    let name = if has_children {
        node.name@.push('/')
    } else {
        node.name@
    };
    let cut = if name.len() > width {
        name.take(width as int)
    } else {
        name
    };
    cut + (if node.error {
        " !"@
    } else {
        seq![]
    }) + (if node.duplicate_link {
        " (hard link)"@
    } else {
        seq![]
    })
}

/// The name column of a list row for `id` (see [`row_label_spec`]).
pub fn row_label(tree: &Tree, id: NodeId, width: usize) -> (r: String)
    requires
        (id.0 as int) < tree.spec_nodes().len(),
    ensures
        r@ == row_label_spec(
            tree.spec_nodes()[id.0 as int],
            tree.spec_children()[id.0 as int].len() > 0,
            width as nat,
        ),
{
    proof {
        use_type_invariant(tree);
    }
    let node = tree.node(id);
    let has_children = tree.children(id).len() > 0;
    let ghost name = if has_children {
        node.name@.push('/')
    } else {
        node.name@
    };
    let mut out = String::new();
    let mut taken: usize = 0;
    let mut i: usize = 0;
    let n = node.name.unicode_len();
    while i < n && taken < width
        invariant
            i <= n,
            n == node.name@.len(),
            taken == i,
            taken <= width,
            out@ == node.name@.take(i as int),
        decreases n - i,
    {
        push_char(&mut out, node.name.get_char(i));
        assert(node.name@.take(i + 1) =~= node.name@.take(i as int).push(node.name@[i as int]));
        i = i + 1;
        taken = taken + 1;
    }
    if has_children && taken < width {
        push_char(&mut out, '/');
    }
    proof {
        if i == n {
            assert(node.name@.take(n as int) =~= node.name@);
        }
        if has_children {
            if taken < width {
                assert(out@ =~= name);
            } else if i == n {
                assert(name.take(width as int) =~= node.name@);
            } else {
                assert(name.take(width as int) =~= node.name@.take(width as int));
            }
        } else if i < n {
            assert(out@ =~= name.take(width as int));
        }
    }
    if node.error {
        out.append(" !");
    }
    if node.duplicate_link {
        out.append(" (hard link)");
    }
    out
}

} // verus!
