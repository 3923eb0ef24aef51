//! Treemap pieces that are whole numbers: rectangles, the row rule of
//! the row layout, per-node extension breakdowns, and the sample tree the
//! application icon draws. Lighting, colour and proportional layout work
//! in floating point and live with the renderer.

use crate::paths::{Part, components, parts_from, path_components, seg_end};
use crate::tree::{Kind, Node, NodeId, SizeMetric, Tree, TreeBuilder, finished, totals_fit};
use vstd::prelude::*;
use vstd::string::*;

verus! {

/// Integer rectangle, right/bottom exclusive.
#[derive(Clone, Copy, Debug, PartialEq, Eq, Structural)]
pub struct Rect {
    pub left: i32,
    pub top: i32,
    pub right: i32,
    pub bottom: i32,
}

impl Default for Rect {
    fn default() -> (r: Rect)
        ensures
            r == (Rect { left: 0, top: 0, right: 0, bottom: 0 }),
    {
        Rect { left: 0, top: 0, right: 0, bottom: 0 }
    }
}

impl Rect {
    pub fn new(left: i32, top: i32, right: i32, bottom: i32) -> (r: Rect)
        ensures
            r == (Rect { left, top, right, bottom }),
    {
        Rect { left, top, right, bottom }
    }

    /// Horizontal extent; the difference must fit an `i32`.
    pub fn width(&self) -> (r: i32)
        requires
            i32::MIN <= self.right - self.left <= i32::MAX,
        ensures
            r == self.right - self.left,
    {
        self.right - self.left
    }

    /// Vertical extent; the difference must fit an `i32`.
    pub fn height(&self) -> (r: i32)
        requires
            i32::MIN <= self.bottom - self.top <= i32::MAX,
        ensures
            r == self.bottom - self.top,
    {
        self.bottom - self.top
    }

    /// Whether the rectangle covers no pixel.
    pub fn is_empty(&self) -> (r: bool)
        requires
            i32::MIN <= self.right - self.left <= i32::MAX,
            i32::MIN <= self.bottom - self.top <= i32::MAX,
        ensures
            r == (self.right - self.left <= 0 || self.bottom - self.top <= 0),
    {
        self.width() <= 0 || self.height() <= 0
    }

    /// Whether pixel (`x`, `y`) lies inside.
    pub fn contains(&self, x: i32, y: i32) -> (r: bool)
        ensures
            r == (self.left <= x < self.right && self.top <= y < self.bottom),
    {
        x >= self.left && x < self.right && y >= self.top && y < self.bottom
    }
}

/// How siblings are laid out.
#[derive(Clone, Copy, Debug, PartialEq, Eq, Structural)]
pub enum Style {
    /// Rows: fill a row until children get too thin.
    Rows,
    /// Squarified: grow a strip while its worst aspect ratio improves.
    Squarified,
}

impl Default for Style {
    fn default() -> (r: Style)
        ensures
            r == Style::Rows,
    {
        Style::Rows
    }
}

/// How each rectangle is lit.
#[derive(Clone, Copy, Debug, PartialEq, Eq, Structural)]
pub enum Shading {
    /// Cushions lit softly across the whole box, with a broad highlight
    /// toward the light.
    Glow,
    /// Plain fills.
    Flat,
}

impl Default for Shading {
    fn default() -> (r: Shading)
        ensures
            r == Shading::Glow,
    {
        Shading::Glow
    }
}

/// Whether child `i` ends its row: the row ends at `row_end`, and a
/// zero-weight child ends it early.
pub fn is_last_in_row(weights: &[u64], i: usize, row_end: usize) -> (r: bool)
    requires
        i < usize::MAX,
    ensures
        r == (i + 1 == row_end || (i + 1 < weights@.len() && weights@[i + 1] == 0)),
{
    i + 1 == row_end || (i + 1 < weights.len() && weights[i + 1] == 0)
}

/// The largest extensions below each node with their bytes, as (rank,
/// bytes) pairs, largest first.
#[derive(Clone, Debug)]
pub struct ExtensionMix {
    segments: Vec<Vec<(u32, u64)>>,
}

impl ExtensionMix {
    /// A breakdown with `segments[i]` for node `i`.
    pub fn new(segments: Vec<Vec<(u32, u64)>>) -> (r: ExtensionMix)
        ensures
            r.spec_segments() == segments@.map_values(|v: Vec<(u32, u64)>| v@),
    {
        ExtensionMix { segments }
    }

    pub closed spec fn spec_segments(&self) -> Seq<Seq<(u32, u64)>> {
        self.segments@.map_values(|v: Vec<(u32, u64)>| v@)
    }

    /// `(rank, bytes)` pairs for `id`, largest first; none for a node the
    /// breakdown does not cover. Bytes not covered by the returned pairs
    /// belong to smaller extensions.
    pub fn segments(&self, id: NodeId) -> (r: &[(u32, u64)])
        ensures
            r@ == (if (id.0 as int) < self.spec_segments().len() {
                self.spec_segments()[id.0 as int]
            } else {
                seq![]
            }),
    {
        let i = id.index();
        if i < self.segments.len() {
            self.segments[i].as_slice()
        } else {
            let empty: &[(u32, u64)] = &[];
            assert(empty@ =~= Seq::<(u32, u64)>::empty());
            empty
        }
    }
}

/// What `str::to_lowercase` makes of a text.
pub uninterp spec fn lowercase(text: Seq<char>) -> Seq<char>;

/// `str::to_lowercase`: the text with every character in its lower-case
/// form, as Unicode defines it.
#[verifier::external_body]
fn to_lowercase(text: &str) -> (r: String)
    ensures
        r@ == lowercase(text@),
{
    text.to_lowercase()
}

/// The file name of a path: its last component, when that is a name.
pub open spec fn file_name(path: Seq<char>) -> Option<Seq<char>> {
    let parts = components(path);
    if parts.len() > 0 && parts.last() is Name {
        Some(parts.last()->Name_0)
    } else {
        None
    }
}

/// Index of the last `.` of `s` before `j`, or `-1`.
pub open spec fn last_dot(s: Seq<char>, j: int) -> int
    decreases j,
{
    if j <= 0 {
        -1
    } else if s[j - 1] == '.' {
        j - 1
    } else {
        last_dot(s, j - 1)
    }
}

/// The extension of a file name: what follows its last `.`, unless the
/// only `.` starts the name.
pub open spec fn extension_in(name: Seq<char>) -> Option<Seq<char>> {
    let d = last_dot(name, name.len() as int);
    if d <= 0 {
        None
    } else {
        Some(name.subrange(d + 1, name.len() as int))
    }
}

/// The extension of a node's name, lower-cased; `None` when it has none.
pub open spec fn node_extension(name: Seq<char>) -> Option<Seq<char>> {
    match file_name(name) {
        Some(f) => match extension_in(f) {
            Some(e) => Some(lowercase(e)),
            None => None,
        },
        None => None,
    }
}

/// The last `.` of `a + "." + e`, when `e` holds none, is the one before `e`.
proof fn lemma_last_dot_before(n: Seq<char>, at: int, j: int)
    requires
        0 <= at < j <= n.len(),
        n[at] == '.',
        forall|k: int| at < k < n.len() ==> n[k] != '.',
    ensures
        last_dot(n, j) == at,
    decreases j,
{
    if j - 1 > at {
        lemma_last_dot_before(n, at, j - 1);
    }
}

/// A file's extension is what follows the last `.` of its name, so it
/// holds no `.` itself, unless that `.` starts the name: for a name
/// `a.e` with `a` not empty and `e` free of dots, the extension is `e`.
pub proof fn extension_follows_the_last_dot(a: Seq<char>, e: Seq<char>)
    requires
        a.len() > 0,
        !e.contains('.'),
    ensures
        extension_in(a + seq!['.'] + e) == Some(e),
{
    let n = a + seq!['.'] + e;
    let at = a.len() as int;
    assert(n[at] == '.');
    assert forall|k: int| at < k < n.len() implies n[k] != '.' by {
        assert(n[k] == e[k - at - 1]);
    }
    lemma_last_dot_before(n, at, n.len() as int);
    assert(n.subrange(at + 1, n.len() as int) =~= e);
}

/// A name without a dot after its first character has no extension.
pub proof fn dotless_names_have_no_extension(n: Seq<char>)
    requires
        forall|k: int| 0 < k < n.len() ==> n[k] != '.',
    ensures
        extension_in(n) is None,
{
    lemma_no_dot_after_first(n, n.len() as int);
}

proof fn lemma_no_dot_after_first(n: Seq<char>, j: int)
    requires
        j <= n.len(),
        forall|k: int| 0 < k < n.len() ==> n[k] != '.',
    ensures
        last_dot(n, j) <= 0,
    decreases j,
{
    if j > 1 {
        assert(n[j - 1] != '.');
        lemma_no_dot_after_first(n, j - 1);
    } else if j == 1 {
        assert(last_dot(n, 0) == -1);
    }
}

proof fn lemma_seg_end_plain(s: Seq<char>, i: int)
    requires
        0 <= i <= s.len(),
        !s.contains('/'),
    ensures
        seg_end(s, i) == s.len(),
    decreases s.len() - i,
{
    if i < s.len() {
        assert(s[i] != '/');
        lemma_seg_end_plain(s, i + 1);
    }
}

/// The extension of a plain file name `a.e` (no `/`, not `..`, `a` not
/// empty, `e` free of dots) is `e` lower-cased, as a node of that name is
/// grouped by.
pub proof fn plain_names_group_by_their_last_extension(a: Seq<char>, e: Seq<char>)
    requires
        a.len() > 0,
        !e.contains('.'),
        !(a + seq!['.'] + e).contains('/'),
        a + seq!['.'] + e != seq!['.', '.'],
    ensures
        node_extension(a + seq!['.'] + e) == Some(lowercase(e)),
{
    let n = a + seq!['.'] + e;
    extension_follows_the_last_dot(a, e);
    lemma_seg_end_plain(n, 0);
    assert(n.len() > 0 && n[0] != '/');
    assert(n.subrange(0, n.len() as int) =~= n);
    assert(n != seq!['.']);
    assert(components(n) =~= seq![Part::Name(n)]);
}

/// The extension of a node's name, lower-cased, as the colouring groups
/// files; `None` when it has none.
pub fn extension_of(node: &Node) -> (r: Option<String>)
    ensures
        match node_extension(node.name@) {
            Some(e) => r matches Some(s) && s@ == e,
            None => r is None,
        },
{
    let parts = path_components(node.name.as_str());
    let ghost pv = parts@.map_values(|x: crate::paths::PathPart| crate::paths::part_of(x));
    if parts.len() == 0 {
        return None;
    }
    let last = parts.len() - 1;
    let name = match &parts[last] {
        crate::paths::PathPart::Normal(n) => n,
        _ => {
            assert(!(pv.last() is Name));
            return None;
        },
    };
    assert(pv.last() == Part::Name(name@));
    let chars = crate::text::chars_of(name.as_str());
    let mut j = chars.len();
    while j > 0 && chars[j - 1] != '.'
        invariant
            j <= chars@.len(),
            last_dot(chars@, j as int) == last_dot(chars@, chars@.len() as int),
        decreases j,
    {
        j = j - 1;
    }
    if j <= 1 {
        return None;
    }
    let ext = crate::text::text_of(&chars, j, chars.len());
    Some(to_lowercase(ext.as_str()))
}

/// A directory or a file of the sample disk the icon draws.
pub enum Entry {
    Dir(&'static str, Vec<Entry>),
    File(&'static str, u64),
}

/// The total size of `entries`, directories counting their contents.
pub open spec fn total_spec(entries: Seq<Entry>) -> int
    decreases entries,
{
    if entries.len() == 0 {
        0
    } else {
        let rest = total_spec(entries.drop_last());
        match entries.last() {
            Entry::File(_, size) => rest + size,
            Entry::Dir(_, children) => rest + total_spec(children@),
        }
    }
}

/// The size of the largest file among `entries` and their contents, with
/// its name: the last of the largest when several tie.
pub open spec fn largest_spec(entries: Seq<Entry>) -> Option<(&'static str, u64)>
    decreases entries,
{
    if entries.len() == 0 {
        None
    } else {
        let before = largest_spec(entries.drop_last());
        let here = match entries.last() {
            Entry::File(name, size) => Some((name, size)),
            Entry::Dir(_, children) => largest_spec(children@),
        };
        match (before, here) {
            (Some(b), Some(h)) => if h.1 >= b.1 {
                Some(h)
            } else {
                Some(b)
            },
            (None, h) => h,
            (b, None) => b,
        }
    }
}

proof fn lemma_total_nonneg(entries: Seq<Entry>)
    ensures
        total_spec(entries) >= 0,
    decreases entries,
{
    if entries.len() > 0 {
        lemma_total_nonneg(entries.drop_last());
        match entries.last() {
            Entry::File(_, _) => {},
            Entry::Dir(_, children) => lemma_total_nonneg(children@),
        }
    }
}

/// The total size of `entries`, directories counting their contents; it
/// must fit a `u64`.
pub fn total(entries: &Vec<Entry>) -> (r: u64)
    requires
        total_spec(entries@) <= u64::MAX,
    ensures
        r == total_spec(entries@),
    decreases entries@,
{
    let mut sum: u64 = 0;
    let mut i: usize = 0;
    while i < entries.len()
        invariant
            i <= entries@.len(),
            sum == total_spec(entries@.take(i as int)),
            total_spec(entries@) <= u64::MAX,
        decreases entries@.len() - i,
    {
        proof {
            let t = entries@.take(i + 1);
            assert(t.drop_last() =~= entries@.take(i as int));
            assert(t.last() == entries@[i as int]);
            lemma_total_prefix(entries@, i + 1);
            match entries@[i as int] {
                Entry::Dir(_, children) => lemma_total_nonneg(children@),
                _ => {},
            }
        }
        let add = match &entries[i] {
            Entry::File(_, size) => *size,
            Entry::Dir(_, children) => total(children),
        };
        sum = sum + add;
        i = i + 1;
    }
    assert(entries@.take(entries@.len() as int) =~= entries@);
    sum
}

proof fn lemma_total_prefix(entries: Seq<Entry>, k: int)
    requires
        0 <= k <= entries.len(),
    ensures
        total_spec(entries.take(k)) <= total_spec(entries),
    decreases entries.len() - k,
{
    if k < entries.len() {
        lemma_total_prefix(entries, k + 1);
        let t = entries.take(k + 1);
        assert(t.drop_last() =~= entries.take(k));
        match t.last() {
            Entry::Dir(_, children) => lemma_total_nonneg(children@),
            _ => {},
        }
    } else {
        assert(entries.take(k) =~= entries);
    }
}

/// The largest file among `entries` and their contents, with its size:
/// the last of the largest when several tie.
pub fn largest_file(entries: &Vec<Entry>) -> (r: Option<(&'static str, u64)>)
    ensures
        r == largest_spec(entries@),
    decreases entries@,
{
    let mut best: Option<(&'static str, u64)> = None;
    let mut i: usize = 0;
    while i < entries.len()
        invariant
            i <= entries@.len(),
            best == largest_spec(entries@.take(i as int)),
        decreases entries@.len() - i,
    {
        proof {
            let t = entries@.take(i + 1);
            assert(t.drop_last() =~= entries@.take(i as int));
            assert(t.last() == entries@[i as int]);
        }
        let here = match &entries[i] {
            Entry::File(name, size) => Some((*name, *size)),
            Entry::Dir(_, children) => largest_file(children),
        };
        best = match (best, here) {
            (Some(b), Some(h)) => if h.1 >= b.1 {
                Some(h)
            } else {
                Some(b)
            },
            (None, h) => h,
            (b, None) => b,
        };
        i = i + 1;
    }
    assert(entries@.take(entries@.len() as int) =~= entries@);
    best
}

} // verus!
