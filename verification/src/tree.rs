//! Compact in-memory directory tree: nodes in one vector addressed by
//! index, parents before children, with sizes rolled up into directories
//! and children sorted largest first.

use vstd::prelude::*;
use vstd::string::*;

verus! {

/// Index of a node in a [`Tree`].
#[derive(Clone, Copy, Debug, PartialEq, Eq, Hash, Structural)]
pub struct NodeId(pub u32);

impl NodeId {
    /// Position in the tree's node vector. Nodes are numbered in the order
    /// they were added, so a parent's index is always below its children's.
    pub fn index(self) -> (r: usize)
        ensures
            r == self.0,
    {
        self.0 as usize
    }
}

/// What an entry is on disk.
#[derive(Clone, Copy, Debug, PartialEq, Eq, Structural)]
pub enum Kind {
    /// A regular file.
    File,
    /// A directory; the only kind that has children.
    Directory,
    /// A symbolic link, junction or mount point. Never followed: it has no
    /// children and counts only its own size.
    Symlink,
    /// Anything else, such as a FIFO, socket or device node.
    Other,
}

/// Which size drives sorting and treemap weights.
#[derive(Clone, Copy, Debug, PartialEq, Eq, Structural)]
pub enum SizeMetric {
    /// Bytes allocated on disk (what `du` reports).
    Allocated,
    /// Logical file length.
    Apparent,
}

impl Default for SizeMetric {
    fn default() -> (r: SizeMetric)
        ensures
            r == SizeMetric::Allocated,
    {
        SizeMetric::Allocated
    }
}

/// One entry in a [`Tree`].
#[derive(Debug)]
pub struct Node {
    /// File name within its parent. For the root, the path it was scanned as.
    pub name: String,
    /// Containing directory; `None` only for the root.
    pub parent: Option<NodeId>,
    /// What the entry is; only a [`Kind::Directory`] has children.
    pub kind: Kind,
    /// Logical length. For directories, includes all descendants once the tree is finished.
    pub apparent_size: u64,
    /// Allocated bytes. For directories, includes all descendants once the tree is finished.
    pub allocated_size: u64,
    /// Non-directory entries at or below this node; a non-directory counts itself.
    pub file_count: u64,
    /// Directories at or below this node, not counting itself.
    pub dir_count: u64,
    /// Last modification in nanoseconds since the Unix epoch (negative
    /// before it). For directories, the newest of its own and anything
    /// below once the tree is finished; `None` when unknown.
    pub modified: Option<i128>,
    /// An additional hard link to data already counted elsewhere; contributes no size.
    pub duplicate_link: bool,
    /// Reading this entry's metadata failed; its sizes and time are then
    /// unknown and left at zero and `None`.
    pub error: bool,
}

impl Clone for Node {
    fn clone(&self) -> (r: Node)
        ensures
            r == *self,
    {
        Node {
            name: self.name.clone(),
            parent: self.parent,
            kind: self.kind,
            apparent_size: self.apparent_size,
            allocated_size: self.allocated_size,
            file_count: self.file_count,
            dir_count: self.dir_count,
            modified: self.modified,
            duplicate_link: self.duplicate_link,
            error: self.error,
        }
    }
}

/// The four counters that [`TreeBuilder::finish`] rolls up into directories.
#[derive(Clone, Copy, PartialEq, Eq, Structural)]
pub enum Counter {
    Apparent,
    Allocated,
    Files,
    Dirs,
}

/// A node's own value of `counter`, as pushed.
pub open spec fn own(node: Node, counter: Counter) -> int {
    match counter {
        Counter::Apparent => node.apparent_size as int,
        Counter::Allocated => node.allocated_size as int,
        Counter::Files => node.file_count as int,
        Counter::Dirs => node.dir_count as int,
    }
}

/// What a child whose subtree totals `total` adds to its parent: nothing
/// in bytes for a duplicate hard link, and one more directory for a directory.
pub open spec fn contribution(child: Node, counter: Counter, total: int) -> int {
    match counter {
        Counter::Apparent | Counter::Allocated => if child.duplicate_link { 0 } else { total },
        Counter::Files => total,
        Counter::Dirs => total + if child.kind == Kind::Directory { 1int } else { 0int },
    }
}

/// Every node's parent comes before it, and only the first node has none.
pub open spec fn parents_ok(nodes: Seq<Node>) -> bool {
    forall|i: int|
        0 <= i < nodes.len() ==> match #[trigger] nodes[i].parent {
            None => i == 0,
            Some(p) => (p.0 as int) < i,
        }
}

/// Whether node `j` is a child of node `i`.
pub open spec fn is_child(nodes: Seq<Node>, i: int, j: int) -> bool {
    &&& 0 <= i < j < nodes.len()
    &&& nodes[j].parent matches Some(q) && q.0 as int == i
}

/// The rolled-up `counter` of node `i`: its own value plus what each of its
/// children contributes.
pub open spec fn total(nodes: Seq<Node>, counter: Counter, i: int) -> int
    decreases nodes.len() - i, 1int, 0int,
{
    if 0 <= i < nodes.len() {
        own(nodes[i], counter) + kids_total(nodes, counter, i, i + 1)
    } else {
        0
    }
}

/// What the children of `i` numbered `j` or more contribute to it.
pub open spec fn kids_total(nodes: Seq<Node>, counter: Counter, i: int, j: int) -> int
    decreases nodes.len() - i, 0int, nodes.len() - j,
{
    if 0 <= i < j < nodes.len() {
        (if is_child(nodes, i, j) {
            contribution(nodes[j], counter, total(nodes, counter, j))
        } else {
            0
        }) + kids_total(nodes, counter, i, j + 1)
    } else {
        0
    }
}

/// The later of two optional times; a known time beats an unknown one.
pub open spec fn newer(a: Option<i128>, b: Option<i128>) -> Option<i128> {
    match (a, b) {
        (Some(x), Some(y)) => Some(if x >= y { x } else { y }),
        (Some(x), None) => Some(x),
        (None, y) => y,
    }
}

/// The newest modification at or below node `i`.
pub open spec fn newest(nodes: Seq<Node>, i: int) -> Option<i128>
    decreases nodes.len() - i, 1int, 0int,
{
    if 0 <= i < nodes.len() {
        newer(nodes[i].modified, kids_newest(nodes, i, i + 1))
    } else {
        None
    }
}

/// The newest modification below the children of `i` numbered `j` or more.
pub open spec fn kids_newest(nodes: Seq<Node>, i: int, j: int) -> Option<i128>
    decreases nodes.len() - i, 0int, nodes.len() - j,
{
    if 0 <= i < j < nodes.len() {
        newer(
            if is_child(nodes, i, j) { newest(nodes, j) } else { None },
            kids_newest(nodes, i, j + 1),
        )
    } else {
        None
    }
}

/// Every rolled-up counter fits in a `u64`.
pub open spec fn totals_fit(nodes: Seq<Node>) -> bool {
    forall|c: Counter, i: int| 0 <= i < nodes.len() ==> #[trigger] total(nodes, c, i) <= u64::MAX
}

/// Node `i` after [`TreeBuilder::finish`]: its counters and time replaced by
/// the rolled-up ones, everything else as pushed.
pub open spec fn finished(nodes: Seq<Node>, i: int) -> Node {
    Node {
        apparent_size: total(nodes, Counter::Apparent, i) as u64,
        allocated_size: total(nodes, Counter::Allocated, i) as u64,
        file_count: total(nodes, Counter::Files, i) as u64,
        dir_count: total(nodes, Counter::Dirs, i) as u64,
        modified: newest(nodes, i),
        ..nodes[i]
    }
}

/// The children of `i` among the first `n` nodes, in index order.
pub open spec fn kid_seq(nodes: Seq<Node>, i: int, n: int) -> Seq<NodeId>
    decreases n,
{
    if n <= 0 {
        Seq::empty()
    } else if is_child(nodes, i, n - 1) {
        kid_seq(nodes, i, n - 1).push(NodeId((n - 1) as u32))
    } else {
        kid_seq(nodes, i, n - 1)
    }
}

proof fn lemma_total_nonneg(nodes: Seq<Node>, c: Counter, i: int)
    ensures
        total(nodes, c, i) >= 0,
    decreases nodes.len() - i, 1int, 0int,
{
    if 0 <= i < nodes.len() {
        lemma_kids_total_nonneg(nodes, c, i, i + 1);
    }
}

proof fn lemma_kids_total_nonneg(nodes: Seq<Node>, c: Counter, i: int, j: int)
    ensures
        kids_total(nodes, c, i, j) >= 0,
    decreases nodes.len() - i, 0int, nodes.len() - j,
{
    if 0 <= i < j < nodes.len() {
        lemma_kids_total_nonneg(nodes, c, i, j + 1);
        lemma_total_nonneg(nodes, c, j);
    }
}

/// Contributions only add up: starting later never gives more.
proof fn lemma_kids_total_mono(nodes: Seq<Node>, c: Counter, i: int, a: int, b: int)
    requires
        i < a <= b,
    ensures
        kids_total(nodes, c, i, b) <= kids_total(nodes, c, i, a),
    decreases b - a,
{
    if a < b {
        lemma_kids_total_mono(nodes, c, i, a + 1, b);
        if 0 <= i < a < nodes.len() {
            lemma_total_nonneg(nodes, c, a);
        }
    }
}

/// The node's own value of `counter`.
fn own_value(node: &Node, counter: Counter) -> (r: u64)
    ensures
        r == own(*node, counter),
{
    match counter {
        Counter::Apparent => node.apparent_size,
        Counter::Allocated => node.allocated_size,
        Counter::Files => node.file_count,
        Counter::Dirs => node.dir_count,
    }
}

/// Every node's rolled-up `counter`, or `None` when one of them does not fit
/// in a `u64`. Parents precede children, so one reverse pass accumulates
/// every subtree.
fn rolled_totals(nodes: &Vec<Node>, counter: Counter) -> (r: Option<Vec<u64>>)
    requires
        parents_ok(nodes@),
    ensures
        r is Some <==> forall|i: int|
            0 <= i < nodes@.len() ==> #[trigger] total(nodes@, counter, i) <= u64::MAX,
        r matches Some(v) ==> v@.len() == nodes@.len() && forall|i: int|
            0 <= i < nodes@.len() ==> v@[i] as int == #[trigger] total(nodes@, counter, i),
{
    let n = nodes.len();
    let ghost ns = nodes@;
    let mut v: Vec<u64> = Vec::new();
    for i in 0..n
        invariant
            n == ns.len(),
            ns == nodes@,
            v@.len() == i,
            forall|m: int| 0 <= m < i ==> v@[m] as int == own(#[trigger] ns[m], counter),
    {
        v.push(own_value(&nodes[i], counter));
    }
    if n == 0 {
        return Some(v);
    }
    let mut k = n;
    while k > 1
        invariant
            1 <= k <= n,
            n == ns.len(),
            ns == nodes@,
            parents_ok(ns),
            v@.len() == n,
            forall|m: int|
                0 <= m < n ==> #[trigger] v@[m] as int == own(ns[m], counter) + kids_total(
                    ns,
                    counter,
                    m,
                    if m + 1 > k { m + 1 } else { k as int },
                ),
        decreases k,
    {
        k = k - 1;
        let node = &nodes[k];
        assert(ns[k as int].parent is Some);
        let p = node.parent.unwrap().index();
        assert(is_child(ns, p as int, k as int));
        let ghost vk = v@[k as int];
        assert(vk as int == total(ns, counter, k as int));
        let added: Option<u64> = match counter {
            Counter::Apparent | Counter::Allocated => if node.duplicate_link {
                Some(0)
            } else {
                Some(v[k])
            },
            Counter::Files => Some(v[k]),
            Counter::Dirs => if node.kind == Kind::Directory {
                v[k].checked_add(1)
            } else {
                Some(v[k])
            },
        };
        let ghost unfold = kids_total(ns, counter, p as int, k as int);
        assert(unfold == contribution(ns[k as int], counter, total(ns, counter, k as int))
            + kids_total(ns, counter, p as int, k + 1));
        proof {
            lemma_kids_total_mono(ns, counter, p as int, p + 1, k as int);
            lemma_kids_total_nonneg(ns, counter, p as int, k + 1);
            lemma_total_nonneg(ns, counter, k as int);
        }
        let sum = match added {
            Some(c) => v[p].checked_add(c),
            None => None,
        };
        match sum {
            Some(s) => {
                v.set(p, s);
            },
            None => {
                assert(total(ns, counter, p as int) > u64::MAX);
                return None;
            },
        }
        assert forall|m: int| 0 <= m < n implies #[trigger] v@[m] as int == own(ns[m], counter)
            + kids_total(ns, counter, m, if m + 1 > k { m + 1 } else { k as int }) by {
            if m < k && m != p {
                assert(!is_child(ns, m, k as int));
                assert(kids_total(ns, counter, m, k as int) == kids_total(ns, counter, m, k + 1));
            }
        }
    }
    assert forall|m: int| 0 <= m < n implies #[trigger] v@[m] as int == total(ns, counter, m) by {}
    assert forall|m: int| 0 <= m < n implies #[trigger] total(ns, counter, m) <= u64::MAX by {
        assert(v@[m] as int == total(ns, counter, m));
    }
    Some(v)
}

/// The later of two optional times.
fn newer_of(a: Option<i128>, b: Option<i128>) -> (r: Option<i128>)
    ensures
        r == newer(a, b),
{
    match (a, b) {
        (Some(x), Some(y)) => Some(if x >= y { x } else { y }),
        (a, b) => if a.is_some() { a } else { b },
    }
}

proof fn lemma_newer_swap(a: Option<i128>, b: Option<i128>, c: Option<i128>)
    ensures
        newer(newer(a, b), c) == newer(a, newer(c, b)),
{
}

/// Every node's newest modification at or below it.
fn newest_times(nodes: &Vec<Node>) -> (r: Vec<Option<i128>>)
    requires
        parents_ok(nodes@),
    ensures
        r@.len() == nodes@.len(),
        forall|i: int| 0 <= i < nodes@.len() ==> r@[i] == #[trigger] newest(nodes@, i),
{
    let n = nodes.len();
    let ghost ns = nodes@;
    let mut v: Vec<Option<i128>> = Vec::new();
    for i in 0..n
        invariant
            n == ns.len(),
            ns == nodes@,
            v@.len() == i,
            forall|m: int| 0 <= m < i ==> v@[m] == (#[trigger] ns[m]).modified,
    {
        v.push(nodes[i].modified);
    }
    if n == 0 {
        return v;
    }
    let mut k = n;
    while k > 1
        invariant
            1 <= k <= n,
            n == ns.len(),
            ns == nodes@,
            parents_ok(ns),
            v@.len() == n,
            forall|m: int|
                0 <= m < n ==> #[trigger] v@[m] == newer(
                    ns[m].modified,
                    kids_newest(ns, m, if m + 1 > k { m + 1 } else { k as int }),
                ),
        decreases k,
    {
        k = k - 1;
        assert(ns[k as int].parent is Some);
        let p = nodes[k].parent.unwrap().index();
        assert(is_child(ns, p as int, k as int));
        assert(v@[k as int] == newest(ns, k as int));
        proof {
            lemma_newer_swap(ns[p as int].modified, kids_newest(ns, p as int, k + 1), newest(ns, k as int));
        }
        let updated = newer_of(v[p], v[k]);
        v.set(p, updated);
        assert forall|m: int| 0 <= m < n implies #[trigger] v@[m] == newer(
            ns[m].modified,
            kids_newest(ns, m, if m + 1 > k { m + 1 } else { k as int }),
        ) by {
            if m < k && m != p {
                assert(!is_child(ns, m, k as int));
            }
        }
    }
    v
}

/// A node's size under `metric`; zero for a duplicate hard link.
pub open spec fn node_size(node: Node, metric: SizeMetric) -> u64 {
    if node.duplicate_link {
        0
    } else {
        match metric {
            SizeMetric::Allocated => node.allocated_size,
            SizeMetric::Apparent => node.apparent_size,
        }
    }
}

fn size_of_node(node: &Node, metric: SizeMetric) -> (r: u64)
    ensures
        r == node_size(*node, metric),
{
    if node.duplicate_link {
        return 0;
    }
    match metric {
        SizeMetric::Allocated => node.allocated_size,
        SizeMetric::Apparent => node.apparent_size,
    }
}

/// Sorts `pairs` by their first component, largest first, with
/// `slice::sort_unstable_by_key`: a permutation of the input in
/// non-increasing key order. Equal keys come out in no particular order.
#[verifier::external_body]
fn sort_largest_first(pairs: &mut Vec<(u64, NodeId)>)
    ensures
        final(pairs)@.to_multiset() == old(pairs)@.to_multiset(),
        forall|a: int, b: int|
            0 <= a < b < final(pairs)@.len() ==> final(pairs)@[a].0 >= final(pairs)@[b].0,
{
    pairs.sort_unstable_by_key(|pair| std::cmp::Reverse(pair.0));
}

proof fn lemma_kid_seq(nodes: Seq<Node>, i: int, n: int)
    requires
        0 <= n <= nodes.len(),
        n <= u32::MAX + 1,
    ensures
        kid_seq(nodes, i, n).no_duplicates(),
        forall|x: NodeId| #[trigger]
            kid_seq(nodes, i, n).contains(x) <==> (x.0 < n && is_child(nodes, i, x.0 as int)),
        forall|a: int|
            0 <= a < kid_seq(nodes, i, n).len() ==> (#[trigger] kid_seq(nodes, i, n)[a]).0 < n,
    decreases n,
{
    if n > 0 {
        lemma_kid_seq(nodes, i, n - 1);
        let prev = kid_seq(nodes, i, n - 1);
        let cur = kid_seq(nodes, i, n);
        if is_child(nodes, i, n - 1) {
            let x = NodeId((n - 1) as u32);
            assert(cur == prev.push(x));
            assert(!prev.contains(x));
            assert forall|y: NodeId| #[trigger] cur.contains(y) implies (y.0 < n && is_child(
                nodes,
                i,
                y.0 as int,
            )) by {
                let k = choose|k: int| 0 <= k < cur.len() && cur[k] == y;
                if k < prev.len() {
                    assert(prev[k] == y);
                    assert(prev.contains(y));
                } else {
                    assert(y == x);
                }
            }
            assert forall|y: NodeId| (y.0 < n && is_child(nodes, i, y.0 as int)) implies #[trigger] cur.contains(y) by {
                if y.0 == n - 1 {
                    assert(y == x);
                    assert(cur[prev.len() as int] == x);
                } else {
                    assert(prev.contains(y));
                    let k = choose|k: int| 0 <= k < prev.len() && prev[k] == y;
                    assert(cur[k] == y);
                }
            }
        } else {
            assert(cur == prev);
            assert forall|y: NodeId| #[trigger] cur.contains(y) <==> (y.0 < n && is_child(
                nodes,
                i,
                y.0 as int,
            )) by {
                if y.0 == n - 1 {
                    assert(!is_child(nodes, i, y.0 as int));
                }
            }
        }
    }
}

spec fn keyed(nodes: Seq<Node>, metric: SizeMetric, x: NodeId) -> (u64, NodeId) {
    (node_size(nodes[x.0 as int], metric), x)
}

/// `kids` reordered largest first under `metric`.
fn largest_first(nodes: &Vec<Node>, metric: SizeMetric, kids: &Vec<NodeId>) -> (r: Vec<NodeId>)
    requires
        kids@.no_duplicates(),
        forall|a: int| 0 <= a < kids@.len() ==> ((#[trigger] kids@[a]).0 as int) < nodes@.len(),
    ensures
        r@.no_duplicates(),
        forall|x: NodeId| #[trigger] r@.contains(x) <==> kids@.contains(x),
        forall|a: int, b: int|
            0 <= a < b < r@.len() ==> node_size(nodes@[r@[a].0 as int], metric) >= node_size(
                nodes@[r@[b].0 as int],
                metric,
            ),
{
    broadcast use vstd::seq_lib::group_to_multiset_ensures;
    let ghost ns = nodes@;
    let mut pairs: Vec<(u64, NodeId)> = Vec::new();
    for a in 0..kids.len()
        invariant
            ns == nodes@,
            pairs@ == kids@.subrange(0, a as int).map_values(|x: NodeId| keyed(ns, metric, x)),
            forall|c: int| 0 <= c < kids@.len() ==> ((#[trigger] kids@[c]).0 as int) < ns.len(),
    {
        let id = kids[a];
        let size = size_of_node(&nodes[id.0 as usize], metric);
        pairs.push((size, id));
        assert(kids@.subrange(0, a + 1) == kids@.subrange(0, a as int).push(id));
        assert(size == node_size(ns[id.0 as int], metric));
        assert(keyed(ns, metric, id) == (size, id));
        assert(pairs@ =~= kids@.subrange(0, a + 1).map_values(|x: NodeId| keyed(ns, metric, x)));
    }
    assert(kids@.subrange(0, kids@.len() as int) == kids@);
    let ghost before = pairs@;
    assert(before.no_duplicates()) by {
        assert forall|a: int, b: int| 0 <= a < before.len() && 0 <= b < before.len() && a != b
            implies before[a] != before[b] by {
            assert(before[a].1 == kids@[a]);
            assert(before[b].1 == kids@[b]);
        }
    }
    sort_largest_first(&mut pairs);
    let ghost after = pairs@;
    proof {
        before.lemma_multiset_has_no_duplicates();
        after.lemma_multiset_has_no_duplicates_conv();
    }
    // Every pair after sorting is one from before: its key is the size of its id.
    assert forall|a: int| 0 <= a < after.len() implies #[trigger] after[a] == keyed(ns, metric, after[a].1)
        && kids@.contains(after[a].1) by {
        assert(after.contains(after[a]));
        assert(after.to_multiset().count(after[a]) > 0);
        assert(before.to_multiset().count(after[a]) > 0);
        assert(before.contains(after[a]));
        let c = choose|c: int| 0 <= c < before.len() && before[c] == after[a];
        assert(before[c] == keyed(ns, metric, kids@[c]));
    }
    let mut r: Vec<NodeId> = Vec::new();
    for a in 0..pairs.len()
        invariant
            pairs@ == after,
            r@ == after.subrange(0, a as int).map_values(|p: (u64, NodeId)| p.1),
    {
        r.push(pairs[a].1);
        assert(after.subrange(0, a + 1) == after.subrange(0, a as int).push(after[a as int]));
    }
    assert(after.subrange(0, after.len() as int) == after);
    assert(r@.len() == after.len());
    assert forall|a: int, b: int| 0 <= a < r@.len() && 0 <= b < r@.len() && a != b
        implies r@[a] != r@[b] by {
        assert(r@[a] == after[a].1);
        assert(r@[b] == after[b].1);
        assert(after[a] == keyed(ns, metric, after[a].1));
        assert(after[b] == keyed(ns, metric, after[b].1));
    }
    assert forall|x: NodeId| #[trigger] r@.contains(x) <==> kids@.contains(x) by {
        if r@.contains(x) {
            let a = choose|a: int| 0 <= a < r@.len() && r@[a] == x;
            assert(after[a].1 == x);
            assert(kids@.contains(after[a].1));
        }
        if kids@.contains(x) {
            let c = choose|c: int| 0 <= c < kids@.len() && kids@[c] == x;
            assert(before[c] == keyed(ns, metric, x));
            assert(before.contains(keyed(ns, metric, x)));
            assert(before.to_multiset().count(keyed(ns, metric, x)) > 0);
            assert(after.to_multiset().count(keyed(ns, metric, x)) > 0);
            assert(after.contains(keyed(ns, metric, x)));
            let a = choose|a: int| 0 <= a < after.len() && after[a] == keyed(ns, metric, x);
            assert(r@[a] == x);
        }
    }
    assert forall|a: int, b: int| 0 <= a < b < r@.len() implies node_size(ns[r@[a].0 as int], metric)
        >= node_size(ns[r@[b].0 as int], metric) by {
        assert(after[a] == keyed(ns, metric, after[a].1));
        assert(after[b] == keyed(ns, metric, after[b].1));
    }
    r
}

/// Builds a [`Tree`] from entries gathered by a scanner.
#[derive(Debug)]
pub struct TreeBuilder {
    nodes: Vec<Node>,
}

impl TreeBuilder {
    /// The nodes pushed so far, in order.
    pub closed spec fn spec_nodes(&self) -> Seq<Node> {
        self.nodes@
    }

    #[verifier::type_invariant]
    spec fn inv(self) -> bool {
        &&& parents_ok(self.nodes@)
        &&& self.nodes@.len() <= u32::MAX + 1
    }

    /// An empty builder; push the root first.
    pub fn new() -> (r: TreeBuilder)
        ensures
            r.spec_nodes() == Seq::<Node>::empty(),
    {
        TreeBuilder { nodes: Vec::new() }
    }

    /// Number of nodes pushed.
    pub fn len(&self) -> (r: usize)
        ensures
            r == self.spec_nodes().len(),
    {
        self.nodes.len()
    }

    /// Add a node. The first node is the root and has no parent; every
    /// other node names a parent pushed before it. Sizes, counts and times
    /// on the pushed node are the entry's own: [`TreeBuilder::finish`] adds
    /// every descendant's on top, so a directory carries its own size (or
    /// zero) and counts of zero, and every other entry a `file_count` of one.
    pub fn push(&mut self, node: Node) -> (id: NodeId)
        requires
            old(self).spec_nodes().len() <= u32::MAX,
            match node.parent {
                None => old(self).spec_nodes().len() == 0,
                Some(p) => (p.0 as int) < old(self).spec_nodes().len(),
            },
        ensures
            final(self).spec_nodes() == old(self).spec_nodes().push(node),
            id.0 == old(self).spec_nodes().len(),
    {
        proof {
            use_type_invariant(&*self);
        }
        let id = NodeId(self.nodes.len() as u32);
        let ghost before = self.nodes@;
        let mut nodes = Vec::new();
        std::mem::swap(&mut nodes, &mut self.nodes);
        nodes.push(node);
        assert(parents_ok(nodes@)) by {
            assert forall|i: int| 0 <= i < nodes@.len() implies match #[trigger] nodes@[i].parent {
                None => i == 0,
                Some(p) => (p.0 as int) < i,
            } by {
                if i < before.len() {
                    assert(nodes@[i] == before[i]);
                }
            }
        }
        self.nodes = nodes;
        id
    }

    /// Whether every rolled-up size and count fits in a `u64`, which
    /// [`TreeBuilder::finish`] needs.
    pub fn totals_fit(&self) -> (r: bool)
        ensures
            r == totals_fit(self.spec_nodes()),
    {
        proof {
            use_type_invariant(self);
        }
        let a = rolled_totals(&self.nodes, Counter::Apparent);
        let b = rolled_totals(&self.nodes, Counter::Allocated);
        let c = rolled_totals(&self.nodes, Counter::Files);
        let d = rolled_totals(&self.nodes, Counter::Dirs);
        let r = a.is_some() && b.is_some() && c.is_some() && d.is_some();
        proof {
            if r {
                assert forall|k: Counter, i: int| 0 <= i < self.nodes@.len() implies #[trigger] total(
                    self.nodes@,
                    k,
                    i,
                ) <= u64::MAX by {
                    match k {
                        Counter::Apparent => {},
                        Counter::Allocated => {},
                        Counter::Files => {},
                        Counter::Dirs => {},
                    }
                }
            } else {
                if totals_fit(self.nodes@) {
                    assert forall|i: int| 0 <= i < self.nodes@.len() implies #[trigger] total(self.nodes@, Counter::Apparent, i) <= u64::MAX by {}
                    assert forall|i: int| 0 <= i < self.nodes@.len() implies #[trigger] total(self.nodes@, Counter::Allocated, i) <= u64::MAX by {}
                    assert forall|i: int| 0 <= i < self.nodes@.len() implies #[trigger] total(self.nodes@, Counter::Files, i) <= u64::MAX by {}
                    assert forall|i: int| 0 <= i < self.nodes@.len() implies #[trigger] total(self.nodes@, Counter::Dirs, i) <= u64::MAX by {}
                }
            }
        }
        r
    }

    /// Roll sizes, counts and times up into directories and sort every
    /// child list by `metric`, largest first.
    pub fn finish(self, metric: SizeMetric) -> (tree: Tree)
        requires
            totals_fit(self.spec_nodes()),
        ensures
            tree.spec_nodes().len() == self.spec_nodes().len(),
            forall|i: int|
                0 <= i < self.spec_nodes().len() ==> #[trigger] tree.spec_nodes()[i] == finished(
                    self.spec_nodes(),
                    i,
                ),
            tree.spec_metric() == metric,
    {
        proof {
            use_type_invariant(&self);
        }
        let ghost raw = self.nodes@;
        let mut nodes = self.nodes;
        let n = nodes.len();
        let apparent = rolled_totals(&nodes, Counter::Apparent);
        let allocated = rolled_totals(&nodes, Counter::Allocated);
        let files = rolled_totals(&nodes, Counter::Files);
        let dirs = rolled_totals(&nodes, Counter::Dirs);
        let times = newest_times(&nodes);
        proof {
            assert forall|i: int| 0 <= i < raw.len() implies #[trigger] total(raw, Counter::Apparent, i) <= u64::MAX by {}
            assert forall|i: int| 0 <= i < raw.len() implies #[trigger] total(raw, Counter::Allocated, i) <= u64::MAX by {}
            assert forall|i: int| 0 <= i < raw.len() implies #[trigger] total(raw, Counter::Files, i) <= u64::MAX by {}
            assert forall|i: int| 0 <= i < raw.len() implies #[trigger] total(raw, Counter::Dirs, i) <= u64::MAX by {}
        }
        let (apparent, allocated, files, dirs) = match (apparent, allocated, files, dirs) {
            (Some(a), Some(b), Some(c), Some(d)) => (a, b, c, d),
            _ => {
                proof {
                    assert(false);
                }
                (Vec::new(), Vec::new(), Vec::new(), Vec::new())
            },
        };
        for i in 0..n
            invariant
                n == raw.len(),
                nodes@.len() == n,
                apparent@.len() == n,
                allocated@.len() == n,
                files@.len() == n,
                dirs@.len() == n,
                times@.len() == n,
                forall|m: int| 0 <= m < n ==> apparent@[m] as int == #[trigger] total(raw, Counter::Apparent, m),
                forall|m: int| 0 <= m < n ==> allocated@[m] as int == #[trigger] total(raw, Counter::Allocated, m),
                forall|m: int| 0 <= m < n ==> files@[m] as int == #[trigger] total(raw, Counter::Files, m),
                forall|m: int| 0 <= m < n ==> dirs@[m] as int == #[trigger] total(raw, Counter::Dirs, m),
                forall|m: int| 0 <= m < n ==> times@[m] == #[trigger] newest(raw, m),
                forall|m: int| 0 <= m < i ==> #[trigger] nodes@[m] == finished(raw, m),
                forall|m: int| i <= m < n ==> #[trigger] nodes@[m] == raw[m],
        {
            nodes[i].apparent_size = apparent[i];
            nodes[i].allocated_size = allocated[i];
            nodes[i].file_count = files[i];
            nodes[i].dir_count = dirs[i];
            nodes[i].modified = times[i];
            assert(nodes@[i as int] == finished(raw, i as int));
        }
        assert(parents_ok(nodes@)) by {
            assert forall|i: int| 0 <= i < nodes@.len() implies match #[trigger] nodes@[i].parent {
                None => i == 0,
                Some(p) => (p.0 as int) < i,
            } by {
                assert(nodes@[i] == finished(raw, i));
                assert(raw[i].parent == nodes@[i].parent);
            }
        }
        let children = child_lists(&nodes, metric);
        Tree { nodes, metric, children }
    }
}

/// Every node's children, largest first under `metric`.
fn child_lists(nodes: &Vec<Node>, metric: SizeMetric) -> (r: Vec<Vec<NodeId>>)
    requires
        parents_ok(nodes@),
        nodes@.len() <= u32::MAX + 1,
    ensures
        children_ok(nodes@, metric, r@.map_values(|v: Vec<NodeId>| v@)),
{
    let n = nodes.len();
    let ghost ns = nodes@;
    let mut kids: Vec<Vec<NodeId>> = Vec::new();
    for i in 0..n
        invariant
            kids@.len() == i,
            forall|q: int| 0 <= q < i ==> (#[trigger] kids@[q])@ == Seq::<NodeId>::empty(),
    {
        kids.push(Vec::new());
    }
    assert forall|q: int| 0 <= q < n implies (#[trigger] kids@[q])@ == kid_seq(ns, q, 0) by {}
    for i in 0..n
        invariant
            n == ns.len(),
            ns == nodes@,
            n <= u32::MAX + 1,
            parents_ok(ns),
            kids@.len() == n,
            forall|q: int| 0 <= q < n ==> (#[trigger] kids@[q])@ == kid_seq(ns, q, i as int),
    {
        let ghost before = kids@;
        match nodes[i].parent {
            Some(p) => {
                let p = p.index();
                kids[p].push(NodeId(i as u32));
                assert forall|q: int| 0 <= q < n implies (#[trigger] kids@[q])@ == kid_seq(ns, q, i + 1) by {
                    if q == p {
                        assert(is_child(ns, q, i as int));
                    } else {
                        assert(kids@[q] == before[q]);
                        assert(!is_child(ns, q, i as int));
                    }
                }
            },
            None => {
                assert forall|q: int| 0 <= q < n implies (#[trigger] kids@[q])@ == kid_seq(ns, q, i + 1) by {
                    assert(!is_child(ns, q, i as int));
                }
            },
        }
    }
    let mut out: Vec<Vec<NodeId>> = Vec::new();
    for q in 0..n
        invariant
            n == ns.len(),
            ns == nodes@,
            n <= u32::MAX + 1,
            kids@.len() == n,
            forall|c: int| 0 <= c < n ==> (#[trigger] kids@[c])@ == kid_seq(ns, c, n as int),
            out@.len() == q,
            forall|c: int| 0 <= c < q ==> child_list_ok(ns, metric, c, (#[trigger] out@[c])@),
    {
        proof {
            lemma_kid_seq(ns, q as int, n as int);
        }
        let sorted = largest_first(nodes, metric, &kids[q]);
        out.push(sorted);
    }
    assert(out@.map_values(|v: Vec<NodeId>| v@).len() == n);
    out
}

/// `list` holds every child of `i` once, largest first under `metric`.
pub open spec fn child_list_ok(nodes: Seq<Node>, metric: SizeMetric, i: int, list: Seq<NodeId>) -> bool {
    &&& list.no_duplicates()
    &&& forall|x: NodeId| #[trigger] list.contains(x) <==> is_child(nodes, i, x.0 as int)
    &&& forall|a: int, b: int|
        0 <= a < b < list.len() ==> node_size(nodes[list[a].0 as int], metric) >= node_size(
            nodes[list[b].0 as int],
            metric,
        )
}

/// Every node's child list is right.
pub open spec fn children_ok(nodes: Seq<Node>, metric: SizeMetric, lists: Seq<Seq<NodeId>>) -> bool {
    &&& lists.len() == nodes.len()
    &&& forall|i: int| 0 <= i < nodes.len() ==> child_list_ok(nodes, metric, i, #[trigger] lists[i])
}

/// A scanned directory tree. Children are sorted by size, largest first.
#[derive(Debug)]
pub struct Tree {
    nodes: Vec<Node>,
    metric: SizeMetric,
    children: Vec<Vec<NodeId>>,
}

impl Tree {
    /// Every node, in id order.
    pub closed spec fn spec_nodes(&self) -> Seq<Node> {
        self.nodes@
    }

    /// The metric the tree was finished with.
    pub closed spec fn spec_metric(&self) -> SizeMetric {
        self.metric
    }

    /// The child lists, one per node.
    pub closed spec fn spec_children(&self) -> Seq<Seq<NodeId>> {
        self.children@.map_values(|v: Vec<NodeId>| v@)
    }

    /// Size of node `i` under the tree's metric.
    pub open spec fn spec_size(&self, i: int) -> u64 {
        node_size(self.spec_nodes()[i], self.spec_metric())
    }

    /// What every tree keeps: parents first, and each node's children
    /// listed once each, largest first.
    pub open spec fn well_formed(&self) -> bool {
        &&& parents_ok(self.spec_nodes())
        &&& self.spec_nodes().len() <= u32::MAX + 1
        &&& children_ok(self.spec_nodes(), self.spec_metric(), self.spec_children())
    }

    /// A copy with the same nodes, metric and child lists.
    pub fn clone(&self) -> (r: Tree)
        ensures
            r.spec_nodes() == self.spec_nodes(),
            r.spec_metric() == self.spec_metric(),
            r.spec_children() == self.spec_children(),
    {
        proof {
            use_type_invariant(self);
        }
        let mut nodes: Vec<Node> = Vec::new();
        for i in 0..self.nodes.len()
            invariant
                nodes@ == self.nodes@.subrange(0, i as int),
        {
            nodes.push(self.nodes[i].clone());
            assert(self.nodes@.subrange(0, i + 1) == self.nodes@.subrange(0, i as int).push(self.nodes@[i as int]));
        }
        let mut children: Vec<Vec<NodeId>> = Vec::new();
        for i in 0..self.children.len()
            invariant
                children@.len() == i,
                i <= self.children@.len(),
                forall|k: int| 0 <= k < i ==> (#[trigger] children@[k])@ == self.children@[k]@,
        {
            let mut list: Vec<NodeId> = Vec::new();
            let source = &self.children[i];
            for j in 0..source.len()
                invariant
                    list@ == source@.subrange(0, j as int),
            {
                list.push(source[j]);
                assert(source@.subrange(0, j + 1) == source@.subrange(0, j as int).push(source@[j as int]));
            }
            assert(source@.subrange(0, source@.len() as int) == source@);
            children.push(list);
        }
        assert(children@.map_values(|v: Vec<NodeId>| v@) =~= self.children@.map_values(|v: Vec<NodeId>| v@));
        assert(self.nodes@.subrange(0, self.nodes@.len() as int) == self.nodes@);
        Tree { nodes, metric: self.metric, children }
    }

    /// The type invariant; `use_type_invariant` brings it into a proof.
    #[verifier::type_invariant]
    pub open spec fn inv(self) -> bool {
        self.well_formed()
    }
}

/// `base` with `name` pushed onto it the way a Unix `PathBuf::push` does:
/// an absolute `name` replaces it, and a separator goes between unless
/// `base` is empty or already ends in one.
pub open spec fn join(base: Seq<char>, name: Seq<char>) -> Seq<char> {
    if name.len() > 0 && name[0] == '/' {
        name
    } else if base.len() == 0 {
        name
    } else if base.last() == '/' {
        base + name
    } else {
        base + seq!['/'] + name
    }
}

/// Full path of node `i`: its ancestors' names joined from the root down.
pub open spec fn path_of(nodes: Seq<Node>, i: int) -> Seq<char>
    decreases i,
{
    if 0 <= i < nodes.len() {
        match nodes[i].parent {
            Some(p) => if 0 <= p.0 < i {
                join(path_of(nodes, p.0 as int), nodes[i].name@)
            } else {
                nodes[i].name@
            },
            None => nodes[i].name@,
        }
    } else {
        Seq::empty()
    }
}

/// Step `k` of an ancestor chain goes from a node to its parent.
spec fn linked(nodes: Seq<Node>, chain: Seq<usize>, k: int) -> bool {
    &&& nodes[chain[k] as int].parent == Some(NodeId(chain[k + 1] as u32))
    &&& chain[k + 1] < chain[k]
}

/// `base` with `name` pushed onto it; see [`join`].
fn push_name(base: String, name: &String) -> (r: String)
    ensures
        r@ == join(base@, name@),
{
    let name_len = name.as_str().unicode_len();
    if name_len > 0 && name.as_str().get_char(0) == '/' {
        return name.clone();
    }
    let base_len = base.as_str().unicode_len();
    if base_len == 0 {
        return name.clone();
    }
    let mut out = base;
    if out.as_str().get_char(base_len - 1) != '/' {
        out.append("/");
        proof {
            reveal_strlit("/");
        }
    }
    out.append(name.as_str());
    assert(out@ =~= join(base@, name@));
    out
}

impl Tree {
    /// The root, always the first node. A tree returned by a scan is never empty.
    pub fn root(&self) -> (r: NodeId)
        ensures
            r.0 == 0,
    {
        NodeId(0)
    }

    /// Number of nodes, root included.
    pub fn len(&self) -> (r: usize)
        ensures
            r == self.spec_nodes().len(),
    {
        self.nodes.len()
    }

    /// Only an empty [`TreeBuilder`] finishes into an empty tree.
    pub fn is_empty(&self) -> (r: bool)
        ensures
            r == (self.spec_nodes().len() == 0),
    {
        self.nodes.len() == 0
    }

    /// The metric the tree was finished with, which orders children and
    /// decides [`Tree::size`].
    pub fn metric(&self) -> (r: SizeMetric)
        ensures
            r == self.spec_metric(),
    {
        self.metric
    }

    /// The node `id`.
    pub fn node(&self, id: NodeId) -> (r: &Node)
        requires
            (id.0 as int) < self.spec_nodes().len(),
        ensures
            *r == self.spec_nodes()[id.0 as int],
    {
        &self.nodes[id.0 as usize]
    }

    /// Every node in id order, so each parent comes before its children;
    /// node `i` has id `NodeId(i)`.
    pub fn nodes(&self) -> (r: &[Node])
        ensures
            r@ == self.spec_nodes(),
    {
        self.nodes.as_slice()
    }

    /// Children of `id`, largest first.
    pub fn children(&self, id: NodeId) -> (r: &[NodeId])
        requires
            (id.0 as int) < self.spec_nodes().len(),
        ensures
            r@ == self.spec_children()[id.0 as int],
    {
        proof {
            use_type_invariant(self);
        }
        self.children[id.0 as usize].as_slice()
    }

    /// Size under the tree's [`SizeMetric`]; zero for duplicate hard links.
    pub fn size(&self, id: NodeId) -> (r: u64)
        requires
            (id.0 as int) < self.spec_nodes().len(),
        ensures
            r == self.spec_size(id.0 as int),
    {
        size_of_node(&self.nodes[id.0 as usize], self.metric)
    }

    /// Full path of `id`. The root node's name is the path that was scanned.
    pub fn path(&self, id: NodeId) -> (r: String)
        requires
            (id.0 as int) < self.spec_nodes().len(),
        ensures
            r@ == path_of(self.spec_nodes(), id.0 as int),
    {
        proof {
            use_type_invariant(self);
        }
        let ghost ns = self.nodes@;
        // Ancestors from `id` up to the root.
        let mut chain: Vec<usize> = Vec::new();
        let mut current = id.0 as usize;
        chain.push(current);
        while self.nodes[current].parent.is_some()
            invariant
                parents_ok(ns),
                ns == self.nodes@,
                current < ns.len(),
                chain@.len() >= 1,
                chain@.last() == current,
                chain@[0] == id.0,
                forall|k: int| 0 <= k < chain@.len() ==> (#[trigger] chain@[k]) < ns.len(),
                ns.len() <= u32::MAX + 1,
                forall|k: int| 0 <= k < chain@.len() - 1 ==> #[trigger] linked(ns, chain@, k),
            decreases current,
        {
            let parent = self.nodes[current].parent.unwrap().index();
            assert(ns[current as int].parent == Some(NodeId(parent as u32)));
            let ghost before = chain@;
            chain.push(parent);
            current = parent;
            assert forall|k: int| 0 <= k < chain@.len() - 1 implies #[trigger] linked(ns, chain@, k) by {
                if k < before.len() - 1 {
                    assert(linked(ns, before, k));
                }
            }
        }
        // The root end first.
        let top = chain.len() - 1;
        assert(ns[chain@[top as int] as int].parent is None);
        let mut out = self.nodes[chain[top]].name.clone();
        assert(out@ == path_of(ns, chain@[top as int] as int));
        let mut k = top;
        while k > 0
            invariant
                ns == self.nodes@,
                k <= top,
                top == chain@.len() - 1,
                forall|j: int| 0 <= j < chain@.len() ==> (#[trigger] chain@[j]) < ns.len(),
                ns.len() <= u32::MAX + 1,
                forall|j: int| 0 <= j < chain@.len() - 1 ==> #[trigger] linked(ns, chain@, j),
                out@ == path_of(ns, chain@[k as int] as int),
            decreases k,
        {
            k = k - 1;
            let ghost a = chain@[k as int] as int;
            let ghost b = chain@[k + 1] as int;
            assert(linked(ns, chain@, k as int));
            assert(ns[a].parent == Some(NodeId(b as u32)) && b < a);
            assert(0 <= a < ns.len());
            assert(path_of(ns, a) == join(path_of(ns, b), ns[a].name@));
            let node = &self.nodes[chain[k]];
            out = push_name(out, &node.name);
        }
        out
    }
}

/// Whether node `d` lies strictly below node `i`: its parent is `i` or
/// lies below `i`.
pub open spec fn below(nodes: Seq<Node>, i: int, d: int) -> bool
    decreases d,
{
    if 0 <= d < nodes.len() {
        match nodes[d].parent {
            Some(p) => if 0 <= p.0 < d {
                p.0 as int == i || below(nodes, i, p.0 as int)
            } else {
                false
            },
            None => false,
        }
    } else {
        false
    }
}

/// The child of `i` on the way down to `d`, for `d` below `i`.
pub open spec fn toward(nodes: Seq<Node>, i: int, d: int) -> int
    decreases d,
{
    if 0 <= d < nodes.len() {
        match nodes[d].parent {
            Some(p) => if 0 <= p.0 < d && p.0 as int != i {
                toward(nodes, i, p.0 as int)
            } else {
                d
            },
            None => d,
        }
    } else {
        d
    }
}

/// The nodes with the duplicate flag of node `d` cleared: that copy of
/// hard-linked data counted too.
pub open spec fn counted_too(nodes: Seq<Node>, d: int) -> Seq<Node> {
    nodes.update(d, Node { duplicate_link: false, ..nodes[d] })
}

/// Whether node `j` has no children.
pub open spec fn childless(nodes: Seq<Node>, j: int) -> bool {
    forall|k: int| !#[trigger] is_child(nodes, j, k)
}

proof fn lemma_below_facts(nodes: Seq<Node>, i: int, d: int)
    requires
        below(nodes, i, d),
    ensures
        0 <= i < d < nodes.len(),
        is_child(nodes, i, toward(nodes, i, d)),
        toward(nodes, i, d) == d || below(nodes, toward(nodes, i, d), d),
    decreases d,
{
    let p = nodes[d].parent->Some_0.0 as int;
    if p != i {
        lemma_below_facts(nodes, i, p);
        let v = toward(nodes, i, p);
        assert(toward(nodes, i, d) == v);
        if v != p {
            lemma_below_trans(nodes, v, p, d);
        }
    }
}

/// Below is transitive: `m` below `x` and `d` below `m` put `d` below `x`.
proof fn lemma_below_trans(nodes: Seq<Node>, x: int, m: int, d: int)
    requires
        below(nodes, x, m),
        below(nodes, m, d),
    ensures
        below(nodes, x, d),
    decreases d,
{
    let p = nodes[d].parent->Some_0.0 as int;
    if p != m {
        lemma_below_trans(nodes, x, m, p);
    }
}

/// The nodes above `d` form one chain: of two of them, the smaller lies
/// above the larger.
proof fn lemma_below_chain(nodes: Seq<Node>, x: int, y: int, d: int)
    requires
        below(nodes, x, d),
        below(nodes, y, d),
        x < y,
    ensures
        below(nodes, x, y),
    decreases d,
{
    let p = nodes[d].parent->Some_0.0 as int;
    if p == y {
    } else if p == x {
        lemma_below_facts(nodes, y, p);
    } else {
        lemma_below_chain(nodes, x, y, p);
    }
}

/// A node with a node below it has a child.
proof fn lemma_below_has_child(nodes: Seq<Node>, j: int, d: int)
    requires
        below(nodes, j, d),
    ensures
        !childless(nodes, j),
{
    lemma_below_facts(nodes, j, d);
}

proof fn lemma_childless_kids(nodes: Seq<Node>, c: Counter, d: int, j: int)
    requires
        childless(nodes, d),
    ensures
        kids_total(nodes, c, d, j) == 0,
    decreases nodes.len() - j,
{
    if 0 <= d < j < nodes.len() {
        assert(!is_child(nodes, d, j));
        lemma_childless_kids(nodes, c, d, j + 1);
    }
}

/// What the children of `i` numbered `j` or more contribute grows by the
/// size of `d` when `d` is counted too and lies below one of them.
proof fn lemma_kids_counted_too(nodes: Seq<Node>, c: Counter, d: int, i: int, j: int)
    requires
        0 <= d < nodes.len(),
        nodes[d].duplicate_link,
        childless(nodes, d),
        forall|k: int| 0 <= k < nodes.len() && (#[trigger] nodes[k]).duplicate_link ==> childless(nodes, k),
        c == Counter::Apparent || c == Counter::Allocated,
        0 <= i < nodes.len(),
        i < j,
    ensures
        kids_total(counted_too(nodes, d), c, i, j) == kids_total(nodes, c, i, j) + if below(nodes, i, d) && toward(
            nodes,
            i,
            d,
        ) >= j {
            own(nodes[d], c)
        } else {
            0
        },
    decreases nodes.len() - i, 0int, nodes.len() - j,
{
    let b = counted_too(nodes, d);
    if j < nodes.len() {
        lemma_kids_counted_too(nodes, c, d, i, j + 1);
        assert(is_child(b, i, j) == is_child(nodes, i, j));
        if below(nodes, i, d) {
            lemma_below_facts(nodes, i, d);
        }
        if is_child(nodes, i, j) {
            if j == d {
                lemma_childless_kids(nodes, c, d, d + 1);
                assert(childless(b, d)) by {
                    assert forall|k: int| !#[trigger] is_child(b, d, k) by {
                        assert(is_child(b, d, k) == is_child(nodes, d, k));
                    }
                }
                lemma_childless_kids(b, c, d, d + 1);
                assert(below(nodes, i, d));
                assert(toward(nodes, i, d) == d);
                assert(total(b, c, d) == own(b[d], c));
                assert(contribution(b[d], c, total(b, c, d)) == own(nodes[d], c));
                assert(contribution(nodes[d], c, total(nodes, c, d)) == 0);
            } else {
                lemma_total_counted_too(nodes, c, d, j);
                assert(b[j] == nodes[j]);
                if below(nodes, j, d) {
                    lemma_below_has_child(nodes, j, d);
                    assert(below(nodes, i, d)) by {
                        lemma_below_trans(nodes, i, j, d);
                    }
                    assert(!nodes[j].duplicate_link);
                    lemma_below_facts(nodes, j, d);
                    let v = toward(nodes, i, d);
                    lemma_below_facts(nodes, i, d);
                    if v != j {
                        if v < j {
                            if v != d {
                                lemma_below_chain(nodes, v, j, d);
                                lemma_below_facts(nodes, v, j);
                                assert(below(nodes, v, i) || v == i);
                                if below(nodes, v, i) {
                                    lemma_below_facts(nodes, v, i);
                                }
                            }
                        } else {
                            if v != d {
                                lemma_below_chain(nodes, j, v, d);
                            } else {
                                assert(below(nodes, j, v));
                            }
                            assert(below(nodes, j, i) || j == i);
                            if below(nodes, j, i) {
                                lemma_below_facts(nodes, j, i);
                            }
                        }
                    }
                    assert(toward(nodes, i, d) == j);
                } else {
                    if below(nodes, i, d) && toward(nodes, i, d) == j {
                        assert(false);
                    }
                    assert(total(b, c, j) == total(nodes, c, j));
                }
                assert(contribution(b[j], c, total(b, c, j)) - contribution(nodes[j], c, total(nodes, c, j)) == (
                if below(nodes, i, d) && toward(nodes, i, d) == j {
                    own(nodes[d], c)
                } else {
                    0
                }));
            }
        } else {
            if below(nodes, i, d) {
                assert(toward(nodes, i, d) != j);
            }
        }
    } else {
        if below(nodes, i, d) {
            lemma_below_facts(nodes, i, d);
        }
    }
}

proof fn lemma_total_counted_too(nodes: Seq<Node>, c: Counter, d: int, i: int)
    requires
        0 <= d < nodes.len(),
        nodes[d].duplicate_link,
        childless(nodes, d),
        forall|k: int| 0 <= k < nodes.len() && (#[trigger] nodes[k]).duplicate_link ==> childless(nodes, k),
        c == Counter::Apparent || c == Counter::Allocated,
        0 <= i < nodes.len(),
    ensures
        total(counted_too(nodes, d), c, i) == total(nodes, c, i) + if below(nodes, i, d) {
            own(nodes[d], c)
        } else {
            0
        },
    decreases nodes.len() - i, 1int, 0int,
{
    lemma_kids_counted_too(nodes, c, d, i, i + 1);
    if below(nodes, i, d) {
        lemma_below_facts(nodes, i, d);
    }
    assert(own(counted_too(nodes, d)[i], c) == own(nodes[i], c));
}

/// Counting one more copy of hard-linked data: clearing the duplicate flag
/// of node `d`, which has no children, adds its own size to the rolled-up
/// size of every node above it, and changes no other node's, provided no
/// duplicate has children (as the scan builds trees: only files are marked
/// duplicates). Applied to each of the `k - 1` duplicate links of one file,
/// the root grows by `k - 1` times the file's size.
pub proof fn counting_a_duplicate_adds_its_size(nodes: Seq<Node>, d: int, c: Counter, i: int)
    requires
        0 <= d < nodes.len(),
        nodes[d].duplicate_link,
        childless(nodes, d),
        forall|k: int| 0 <= k < nodes.len() && (#[trigger] nodes[k]).duplicate_link ==> childless(nodes, k),
        c == Counter::Apparent || c == Counter::Allocated,
        0 <= i < nodes.len(),
    ensures
        total(counted_too(nodes, d), c, i) == total(nodes, c, i) + if below(nodes, i, d) {
            own(nodes[d], c)
        } else {
            0
        },
        parents_ok(nodes) && 0 < d ==> below(nodes, 0, d),
{
    lemma_total_counted_too(nodes, c, d, i);
    if parents_ok(nodes) && 0 < d {
        lemma_below_root(nodes, d);
    }
}

/// In a tree whose parents come first, every node but the root lies below
/// the root.
proof fn lemma_below_root(nodes: Seq<Node>, d: int)
    requires
        parents_ok(nodes),
        0 < d < nodes.len(),
    ensures
        below(nodes, 0, d),
    decreases d,
{
    let p = nodes[d].parent->Some_0.0 as int;
    assert(nodes[d].parent is Some);
    if p != 0 {
        lemma_below_root(nodes, p);
    }
}

} // verus!

