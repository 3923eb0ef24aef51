//! The window's status line: the latest message while it is fresh or when
//! something failed, otherwise the size and path of the node under the
//! pointer, otherwise the message again. How long a message stays fresh is
//! the window's to time.

use crate::app::App;
use crate::format::size_text;
use crate::text::chars_of;
use crate::tree::{path_of, NodeId};
use vstd::prelude::*;
use vstd::string::*;

verus! {

/// Whether `t` occurs in `s`.
pub open spec fn has_text(s: Seq<char>, t: Seq<char>) -> bool {
    exists|i: int| 0 <= i && i + t.len() <= s.len() && #[trigger] s.subrange(i, i + t.len()) == t
}

/// Whether `t` occurs in `s` (see [`has_text`]).
pub fn contains_text(s: &str, t: &str) -> (r: bool)
    ensures
        r == has_text(s@, t@),
{
    let a = chars_of(s);
    let b = chars_of(t);
    let n = a.len();
    let m = b.len();
    if m > n {
        return false;
    }
    let mut i: usize = 0;
    while i <= n - m
        invariant
            a@ == s@,
            b@ == t@,
            n == a@.len(),
            m == b@.len(),
            m <= n,
            i <= n - m + 1,
            forall|k: int| 0 <= k < i ==> #[trigger] a@.subrange(k, k + m) != b@,
        decreases n - m + 1 - i,
    {
        let mut j: usize = 0;
        let mut same = true;
        while j < m
            invariant
                a@ == s@,
                b@ == t@,
                n == a@.len(),
                m == b@.len(),
                i + m <= n,
                j <= m,
                same == forall|q: int| 0 <= q < j ==> a@[i + q] == b@[q],
            decreases m - j,
        {
            if a[i + j] != b[j] {
                same = false;
            }
            j = j + 1;
        }
        if same {
            assert(a@.subrange(i as int, i + m) =~= b@);
            return true;
        }
        assert(a@.subrange(i as int, i + m) != b@) by {
            let q = choose|q: int| 0 <= q < m && a@[i + q] != b@[q];
            assert(a@.subrange(i as int, i + m)[q] == a@[i + q]);
        }
        i = i + 1;
    }
    assert forall|k: int| 0 <= k && k + t@.len() <= s@.len() implies #[trigger] s@.subrange(k, k + t@.len())
        != t@ by {
        assert(k < i);
    }
    false
}

/// `s` right-aligned in a field of `width` characters: spaces before it
/// when it is shorter.
pub open spec fn right_aligned(s: Seq<char>, width: nat) -> Seq<char> {
    if s.len() >= width {
        s
    } else {
        Seq::new((width - s.len()) as nat, |i: int| ' ') + s
    }
}

/// The status line's text, and whether it shows a failure (drawn in the
/// error colour): a message reporting a failure, or a `fresh` one, comes
/// first; then the size and path of the node under the pointer; then the
/// message; then a blank.
pub open spec fn status_spec(app: App, fresh: bool) -> (Seq<char>, bool) {
    let hovered = match (app.spec_tree(), app.spec_hovered()) {
        (Some(t), Some(h)) => if (h.0 as int) < t.spec_nodes().len() {
            Some((t, h))
        } else {
            None
        },
        _ => None,
    };
    match app.spec_message() {
        Some(m) if has_text(m@, "failed"@) || fresh => (m@, has_text(m@, "failed"@)),
        _ => match hovered {
            Some((t, h)) => (
                right_aligned(size_text(t.spec_size(h.0 as int) as nat), 10) + "  "@ + path_of(
                    t.spec_nodes(),
                    h.0 as int,
                ),
                false,
            ),
            None => match app.spec_message() {
                Some(m) => (m@, false),
                None => (" "@, false),
            },
        },
    }
}

fn push_spaces(out: &mut String, n: usize)
    ensures
        final(out)@ == old(out)@ + Seq::new(n as nat, |i: int| ' '),
{
    let mut k: usize = 0;
    while k < n
        invariant
            k <= n,
            out@ == old(out)@ + Seq::new(k as nat, |i: int| ' '),
        decreases n - k,
    {
        crate::text::push_char(out, ' ');
        proof {
            assert(Seq::new((k + 1) as nat, |i: int| ' ') =~= Seq::new(k as nat, |i: int| ' ').push(' '));
        }
        k = k + 1;
    }
}

impl App {
    /// The status line (see [`status_spec`]); `fresh` says whether the
    /// message was set only moments ago.
    pub fn status_line(&self, fresh: bool) -> (r: (String, bool))
        ensures
            (r.0@, r.1) == status_spec(*self, fresh),
    {
        let failed = match self.message() {
            Some(m) => contains_text(m.as_str(), "failed"),
            None => false,
        };
        if let Some(m) = self.message() {
            if failed || fresh {
                return (m.clone(), failed);
            }
        }
        let target: Option<NodeId> = match (self.tree(), self.hovered()) {
            (Some(tree), Some(h)) => if (h.0 as usize) < tree.len() {
                Some(h)
            } else {
                None
            },
            _ => None,
        };
        match (self.tree(), target) {
            (Some(tree), Some(h)) => {
                let size = crate::format::size(tree.size(h));
                let chars = chars_of(size.as_str());
                let mut text = String::new();
                if chars.len() < 10 {
                    push_spaces(&mut text, 10 - chars.len());
                }
                text.append(size.as_str());
                text.append("  ");
                let path = tree.path(h);
                text.append(path.as_str());
                proof {
                    reveal_strlit("  ");
                    assert(text@ =~= right_aligned(size@, 10) + "  "@ + path@);
                }
                (text, false)
            },
            _ => match self.message() {
                Some(m) => (m.clone(), false),
                None => {
                    proof {
                        reveal_strlit(" ");
                    }
                    (" ".to_owned(), false)
                },
            },
        }
    }
}

} // verus!
