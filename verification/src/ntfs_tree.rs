//! Turning what the master file table says into a [`Tree`]: every file
//! reachable from the root directory by name, each placed once.

use crate::fold::{map_get, map_insert, map_new, set_insert, set_new};
use crate::mft::{
    Name, Record, ROOT_RECORD, REPARSE_TAG_MOUNT_POINT, REPARSE_TAG_SYMLINK, Table, first_of, names_view, or_else,
};
use crate::scan::ScanOptions;
use crate::tree::{Kind, Node, NodeId, Tree, TreeBuilder, finished, totals_fit};
use std::collections::VecDeque;
use vstd::prelude::*;

verus! {

broadcast use vstd::std_specs::hash::group_hash_axioms;

/// What a record is in the tree: symlinks and mount points (junctions)
/// are [`Kind::Symlink`] and never entered.
pub open spec fn kind_of_record(record: Record) -> Kind {
    if record.reparse_tag == Some(REPARSE_TAG_SYMLINK) || record.reparse_tag == Some(REPARSE_TAG_MOUNT_POINT) {
        Kind::Symlink
    } else if record.is_directory {
        Kind::Directory
    } else {
        Kind::File
    }
}

/// Symlinks and mount points (junctions) are [`Kind::Symlink`] and never
/// entered.
pub fn node_kind(record: &Record) -> (r: Kind)
    ensures
        r == kind_of_record(*record),
{
    match record.reparse_tag {
        Some(tag) => {
            if tag == REPARSE_TAG_SYMLINK || tag == REPARSE_TAG_MOUNT_POINT {
                return Kind::Symlink;
            }
        },
        None => {},
    }
    if record.is_directory {
        Kind::Directory
    } else {
        Kind::File
    }
}

/// `FILETIME` ticks (100 ns since 1601) at the Unix epoch.
pub const TICKS_TO_UNIX_EPOCH: u64 = 116_444_736_000_000_000;

/// A `FILETIME` as nanoseconds since the Unix epoch; `None` before 1970.
pub open spec fn filetime_nanos(filetime: u64) -> Option<i128> {
    if filetime >= TICKS_TO_UNIX_EPOCH {
        Some(((filetime - TICKS_TO_UNIX_EPOCH) * 100) as i128)
    } else {
        None
    }
}

/// `FILETIME` counts 100 ns ticks from 1601. `None` before 1970.
pub fn system_time(filetime: u64) -> (r: Option<i128>)
    ensures
        r == filetime_nanos(filetime),
{
    if filetime < TICKS_TO_UNIX_EPOCH {
        return None;
    }
    Some((filetime - TICKS_TO_UNIX_EPOCH) as i128 * 100)
}

/// The node for a file named `name` under `parent`. Directories get no
/// size of their own, only their contents'; an overlay-compressed file's
/// allocation is that of its compressed stream.
pub open spec fn node_for(name: String, parent: Option<NodeId>, record: Record) -> Node {
    let is_directory = kind_of_record(record) == Kind::Directory;
    Node {
        name,
        parent,
        kind: kind_of_record(record),
        apparent_size: if is_directory {
            0
        } else {
            match record.logical_size {
                Some(v) => v,
                None => 0,
            }
        },
        allocated_size: if is_directory {
            0
        } else {
            match or_else(record.wof_physical_size, record.physical_size) {
                Some(v) => v,
                None => 0,
            }
        },
        file_count: if is_directory {
            0
        } else {
            1
        },
        dir_count: 0,
        modified: match record.modified {
            Some(t) => filetime_nanos(t),
            None => None,
        },
        duplicate_link: false,
        error: false,
    }
}

/// A tree node for `record`.
pub fn node(name: String, parent: Option<NodeId>, record: &Record) -> (r: Node)
    ensures
        r == node_for(name, parent, *record),
{
    let kind = node_kind(record);
    let is_directory = kind == Kind::Directory;
    let allocated = match first_of(record.wof_physical_size, record.physical_size) {
        Some(v) => v,
        None => 0,
    };
    Node {
        name,
        parent,
        kind,
        apparent_size: if is_directory {
            0
        } else {
            match record.logical_size {
                Some(v) => v,
                None => 0,
            }
        },
        allocated_size: if is_directory {
            0
        } else {
            allocated
        },
        file_count: if is_directory {
            0
        } else {
            1
        },
        dir_count: 0,
        modified: match record.modified {
            Some(t) => system_time(t),
            None => None,
        },
        duplicate_link: false,
        error: false,
    }
}

/// What `String::from_utf16_lossy` makes of some UTF-16 code units.
pub uninterp spec fn utf16_lossy(units: Seq<u16>) -> Seq<char>;

/// `String::from_utf16_lossy`: the text the code units encode, with each
/// unpaired surrogate replaced by U+FFFD.
#[verifier::external_body]
fn os_string(units: &[u16]) -> (r: String)
    ensures
        r@ == utf16_lossy(units@),
{
    String::from_utf16_lossy(units)
}

/// Sort the names by their parent directory (`sort_unstable_by_key`):
/// the same names, parents ascending; equal parents in no stated order.
#[verifier::external_body]
fn sort_by_parent(names: &mut Vec<Name>)
    ensures
        final(names)@.len() == old(names)@.len(),
        names_view(final(names)@).to_multiset() == names_view(old(names)@).to_multiset(),
        forall|i: int, j: int|
            0 <= i < j < final(names)@.len() ==> (#[trigger] final(names)@[i]).parent <= (
            #[trigger] final(names)@[j]).parent,
{
    names.sort_unstable_by_key(|name| name.parent);
}

/// Whether node `p` is one whose contents are listed: the root, or a directory.
pub open spec fn entered(nodes: Seq<Node>, p: int) -> bool {
    p == 0 || nodes[p].kind == Kind::Directory
}

/// Whether some node before `i` stands for record `record`.
pub open spec fn placed_before(origin: Seq<u64>, i: int, record: u64) -> bool {
    exists|j: int| 0 <= j < i && #[trigger] origin[j] == record
}

/// Node `i` (not the root) is name `src[i]` of `sorted`, placed under an
/// entered node that stands for its parent directory, as a duplicate link
/// when its record was placed before and links are counted once; and a
/// directory is never placed twice.
pub open spec fn node_ok(
    records: Map<u64, Record>,
    sorted: Seq<(u64, u64, Seq<u16>)>,
    count_once: bool,
    nodes: Seq<Node>,
    origin: Seq<u64>,
    src: Seq<int>,
    i: int,
) -> bool {
    let k = src[i];
    let name = sorted[k];
    &&& 0 <= k < sorted.len()
    &&& origin[i] == name.1
    &&& records.contains_key(name.1)
    &&& !(records[name.1].is_directory && placed_before(origin, i, name.1))
    &&& nodes[i].parent matches Some(p) && 0 <= p.0 < i && origin[p.0 as int] == name.0 && entered(
        nodes,
        p.0 as int,
    )
    && nodes[i] == Node {
        duplicate_link: count_once && placed_before(origin, i, name.1),
        ..node_for(nodes[i].name, Some(p), records[name.1])
    }
    &&& nodes[i].name@ == utf16_lossy(name.2)
}

/// Name `k` of `sorted` has been dealt with under node `p`: it is node
/// `i` there, or it names a directory already placed elsewhere.
pub open spec fn name_handled(
    records: Map<u64, Record>,
    sorted: Seq<(u64, u64, Seq<u16>)>,
    nodes: Seq<Node>,
    origin: Seq<u64>,
    src: Seq<int>,
    p: int,
    k: int,
) -> bool {
    ||| exists|i: int| 1 <= i < nodes.len() && #[trigger] src[i] == k && nodes[i].parent == Some(NodeId(p as u32))
    ||| records[sorted[k].1].is_directory && placed_before(origin, nodes.len() as int, sorted[k].1)
}

/// The tree read from the table, before sizes are rolled up: the root
/// first, then every file reachable from it by name, each name of a
/// non-directory once, a directory under one of its names only.
pub open spec fn placement(
    records: Map<u64, Record>,
    names: Seq<(u64, u64, Seq<u16>)>,
    root_name: String,
    count_once: bool,
    nodes: Seq<Node>,
    origin: Seq<u64>,
    src: Seq<int>,
    sorted: Seq<(u64, u64, Seq<u16>)>,
) -> bool {
    &&& sorted.to_multiset() == names.to_multiset()
    &&& nodes.len() >= 1
    &&& origin.len() == nodes.len()
    &&& src.len() == nodes.len()
    &&& records.contains_key(ROOT_RECORD)
    &&& nodes[0] == node_for(root_name, None, records[ROOT_RECORD])
    &&& origin[0] == ROOT_RECORD
    &&& forall|i: int| 1 <= i < nodes.len() ==> #[trigger] node_ok(records, sorted, count_once, nodes, origin, src, i)
    &&& forall|i: int, j: int| 1 <= i < j < nodes.len() ==> #[trigger] src[i] != #[trigger] src[j]
    &&& forall|p: int, k: int|
        0 <= p < nodes.len() && entered(nodes, p) && 0 <= k < sorted.len() && sorted[k].0 == origin[p]
            && records.contains_key(sorted[k].1) ==> #[trigger] name_handled(
            records,
            sorted,
            nodes,
            origin,
            src,
            p,
            k,
        )
}

/// Where each parent's names lie in a list sorted by parent: the names
/// before `upto` with parent `d` are exactly those in `ranges[d]`.
pub open spec fn ranges_ok(sorted: Seq<(u64, u64, Seq<u16>)>, ranges: Map<u64, (usize, usize)>, upto: int) -> bool {
    &&& forall|d: u64| #[trigger]
        ranges.contains_key(d) ==> ranges[d].0 < ranges[d].1 <= upto && forall|k: int|
            0 <= k < upto ==> ((#[trigger] sorted[k]).0 == d <==> ranges[d].0 <= k < ranges[d].1)
    &&& forall|k: int| 0 <= k < upto ==> ranges.contains_key((#[trigger] sorted[k]).0)
}

/// Whether names are sorted by parent.
pub open spec fn sorted_by_parent(sorted: Seq<(u64, u64, Seq<u16>)>) -> bool {
    forall|i: int, j: int| 0 <= i < j < sorted.len() ==> (#[trigger] sorted[i]).0 <= (#[trigger] sorted[j]).0
}

/// For each parent, the range of names (sorted by parent) that lie in it.
fn child_ranges(names: &Vec<Name>) -> (r: foldhash::HashMap<u64, (usize, usize)>)
    requires
        sorted_by_parent(names_view(names@)),
    ensures
        ranges_ok(names_view(names@), r@, names@.len() as int),
{
    let ghost sorted = names_view(names@);
    let mut ranges: foldhash::HashMap<u64, (usize, usize)> = map_new();
    let mut i: usize = 0;
    while i < names.len()
        invariant
            i <= names@.len(),
            sorted == names_view(names@),
            sorted_by_parent(sorted),
            ranges_ok(sorted, ranges@, i as int),
        decreases names@.len() - i,
    {
        let parent = names[i].parent;
        assert(sorted[i as int].0 == parent);
        let ghost old_ranges = ranges@;
        match map_get(&ranges, &parent) {
            None => {
                map_insert(&mut ranges, parent, (i, i + 1));
                assert forall|k: int| 0 <= k < i + 1 implies ranges@.contains_key((#[trigger] sorted[k]).0) by {
                    if k < i {
                        assert(old_ranges.contains_key(sorted[k].0));
                    }
                }
            },
            Some(range) => {
                let start = range.0;
                let end = range.1;
                proof {
                    if end < i {
                        assert(sorted[end as int].0 != parent);
                        assert(sorted[end - 1].0 == parent);
                        assert(sorted[end - 1].0 <= sorted[end as int].0);
                        assert(sorted[end as int].0 <= sorted[i as int].0);
                    }
                }
                map_insert(&mut ranges, parent, (start, i + 1));
                assert forall|k: int| 0 <= k < i + 1 implies ranges@.contains_key((#[trigger] sorted[k]).0) by {
                    if k < i {
                        assert(old_ranges.contains_key(sorted[k].0));
                    }
                }
            },
        }
        i = i + 1;
    }
    ranges
}

/// Whether node `p` waits in the queue.
pub open spec fn queued(queue: Seq<(u64, NodeId)>, p: int) -> bool {
    exists|t: int| 0 <= t < queue.len() && (#[trigger] queue[t]).1.0 == p
}

/// Every name under entered node `p` has been dealt with.
pub open spec fn complete_at(
    records: Map<u64, Record>,
    sorted: Seq<(u64, u64, Seq<u16>)>,
    nodes: Seq<Node>,
    origin: Seq<u64>,
    src: Seq<int>,
    p: int,
) -> bool {
    forall|k: int|
        0 <= k < sorted.len() && sorted[k].0 == origin[p] && records.contains_key(sorted[k].1) ==> #[trigger] name_handled(
            records,
            sorted,
            nodes,
            origin,
            src,
            p,
            k,
        )
}

proof fn lemma_placed_before_push(origin: Seq<u64>, o: u64, i: int, r: u64)
    requires
        0 <= i <= origin.len(),
    ensures
        placed_before(origin.push(o), i, r) == placed_before(origin, i, r),
        i == origin.len() ==> (placed_before(origin.push(o), i + 1, r) == (placed_before(origin, i, r) || r == o)),
{
    if placed_before(origin, i, r) {
        let j = choose|j: int| 0 <= j < i && #[trigger] origin[j] == r;
        assert(origin.push(o)[j] == r);
    }
    if placed_before(origin.push(o), i, r) {
        let j = choose|j: int| 0 <= j < i && #[trigger] origin.push(o)[j] == r;
        assert(origin[j] == r);
    }
    if i == origin.len() {
        if placed_before(origin.push(o), i + 1, r) {
            let j = choose|j: int| 0 <= j < i + 1 && #[trigger] origin.push(o)[j] == r;
            if j < i {
                assert(origin[j] == r);
            }
        }
        if placed_before(origin, i, r) {
            let j = choose|j: int| 0 <= j < i && #[trigger] origin[j] == r;
            assert(origin.push(o)[j] == r);
        }
        if r == o {
            assert(origin.push(o)[i] == r);
        }
    }
}

proof fn lemma_push_keeps(
    records: Map<u64, Record>,
    sorted: Seq<(u64, u64, Seq<u16>)>,
    count_once: bool,
    nodes: Seq<Node>,
    origin: Seq<u64>,
    src: Seq<int>,
    nd: Node,
    o: u64,
    sr: int,
)
    requires
        nodes.len() == origin.len(),
        nodes.len() == src.len(),
    ensures
        forall|i: int|
            1 <= i < nodes.len() && #[trigger] node_ok(records, sorted, count_once, nodes, origin, src, i) ==> node_ok(
                records,
                sorted,
                count_once,
                nodes.push(nd),
                origin.push(o),
                src.push(sr),
                i,
            ),
        forall|p: int, k: int|
            0 <= p < nodes.len() && #[trigger] name_handled(records, sorted, nodes, origin, src, p, k) ==> name_handled(
                records,
                sorted,
                nodes.push(nd),
                origin.push(o),
                src.push(sr),
                p,
                k,
            ),
{
    let nodes2 = nodes.push(nd);
    let origin2 = origin.push(o);
    let src2 = src.push(sr);
    assert forall|i: int|
        1 <= i < nodes.len() && #[trigger] node_ok(records, sorted, count_once, nodes, origin, src, i) implies node_ok(
        records,
        sorted,
        count_once,
        nodes2,
        origin2,
        src2,
        i,
    ) by {
        let k = src[i];
        lemma_placed_before_push(origin, o, i, sorted[k].1);
        assert(nodes2[i] == nodes[i]);
        assert(src2[i] == src[i]);
        assert(origin2[i] == origin[i]);
        let p = nodes[i].parent->Some_0.0 as int;
        assert(nodes2[p] == nodes[p]);
        assert(origin2[p] == origin[p]);
    }
    assert forall|p: int, k: int|
        0 <= p < nodes.len() && #[trigger] name_handled(records, sorted, nodes, origin, src, p, k) implies name_handled(
        records,
        sorted,
        nodes2,
        origin2,
        src2,
        p,
        k,
    ) by {
        lemma_placed_before_push(origin, o, nodes.len() as int, sorted[k].1);
        if exists|i: int| 1 <= i < nodes.len() && #[trigger] src[i] == k && nodes[i].parent == Some(NodeId(p as u32)) {
            let i = choose|i: int| 1 <= i < nodes.len() && #[trigger] src[i] == k && nodes[i].parent == Some(NodeId(p as u32));
            assert(src2[i] == k && nodes2[i].parent == Some(NodeId(p as u32)));
        } else {
            assert(placed_before(origin2, nodes.len() as int + 1, sorted[k].1));
        }
    }
}

/// Everything the walk over the names keeps true between steps.
pub open spec fn walk_ok(
    records: Map<u64, Record>,
    sorted: Seq<(u64, u64, Seq<u16>)>,
    root_name: String,
    count_once: bool,
    nodes: Seq<Node>,
    origin: Seq<u64>,
    src: Seq<int>,
    used: Set<int>,
    placed: Set<u64>,
) -> bool {
    &&& nodes.len() >= 1
    &&& origin.len() == nodes.len()
    &&& src.len() == nodes.len()
    &&& records.contains_key(ROOT_RECORD)
    &&& nodes[0] == node_for(root_name, None, records[ROOT_RECORD])
    &&& origin[0] == ROOT_RECORD
    &&& forall|i: int| 1 <= i < nodes.len() ==> #[trigger] node_ok(records, sorted, count_once, nodes, origin, src, i)
    &&& forall|i: int, j: int| 1 <= i < j < nodes.len() ==> #[trigger] src[i] != #[trigger] src[j]
    &&& forall|r: u64| placed.contains(r) <==> placed_before(origin, nodes.len() as int, r)
    &&& forall|p1: int, p2: int|
        0 <= p1 < p2 < nodes.len() && #[trigger] entered(nodes, p1) && #[trigger] entered(nodes, p2) ==> origin[p1]
            != origin[p2]
    &&& used.subset_of(vstd::set_lib::set_int_range(0, sorted.len() as int))
    &&& used.finite()
    &&& used.len() + 1 == nodes.len()
    &&& forall|i: int| 1 <= i < nodes.len() ==> used.contains(#[trigger] src[i])
    &&& forall|x: int| used.contains(x) ==> exists|i: int| 1 <= i < nodes.len() && #[trigger] src[i] == x
}

proof fn lemma_place(
    records: Map<u64, Record>,
    sorted: Seq<(u64, u64, Seq<u16>)>,
    root_name: String,
    count_once: bool,
    nodes: Seq<Node>,
    origin: Seq<u64>,
    src: Seq<int>,
    used: Set<int>,
    placed: Set<u64>,
    cur: int,
    k: int,
    nd: Node,
)
    requires
        walk_ok(records, sorted, root_name, count_once, nodes, origin, src, used, placed),
        0 <= cur < nodes.len(),
        cur <= u32::MAX,
        entered(nodes, cur),
        0 <= k < sorted.len(),
        origin[cur] == sorted[k].0,
        records.contains_key(sorted[k].1),
        !(records[sorted[k].1].is_directory && placed.contains(sorted[k].1)),
        nd == (Node {
            duplicate_link: count_once && placed.contains(sorted[k].1),
            ..node_for(nd.name, Some(NodeId(cur as u32)), records[sorted[k].1])
        }),
        nd.name@ == utf16_lossy(sorted[k].2),
        forall|i: int|
            1 <= i < nodes.len() && (#[trigger] nodes[i]).parent == Some(NodeId(cur as u32)) ==> src[i] < k,
    ensures
        !used.contains(k),
        walk_ok(
            records,
            sorted,
            root_name,
            count_once,
            nodes.push(nd),
            origin.push(sorted[k].1),
            src.push(k),
            used.insert(k),
            placed.insert(sorted[k].1),
        ),
        name_handled(records, sorted, nodes.push(nd), origin.push(sorted[k].1), src.push(k), cur, k),
{
    let rec_no = sorted[k].1;
    let len = nodes.len() as int;
    let nodes2 = nodes.push(nd);
    let origin2 = origin.push(rec_no);
    let src2 = src.push(k);
    if used.contains(k) {
        let i = choose|i: int| 1 <= i < nodes.len() && #[trigger] src[i] == k;
        assert(node_ok(records, sorted, count_once, nodes, origin, src, i));
        let p = nodes[i].parent->Some_0.0 as int;
        if p != cur {
            if p < cur {
                assert(origin[p] != origin[cur]);
            } else {
                assert(origin[cur] != origin[p]);
            }
        }
        assert(false);
    }
    lemma_push_keeps(records, sorted, count_once, nodes, origin, src, nd, rec_no, k);
    lemma_placed_before_push(origin, rec_no, len, rec_no);
    assert(node_ok(records, sorted, count_once, nodes2, origin2, src2, len)) by {
        assert(nodes2[len] == nd);
        assert(origin2[cur] == origin[cur]);
        assert(nodes2[cur] == nodes[cur]);
        assert(placed_before(origin2, len, rec_no) == placed.contains(rec_no));
    }
    assert forall|i: int| 1 <= i < nodes2.len() implies #[trigger] node_ok(
        records,
        sorted,
        count_once,
        nodes2,
        origin2,
        src2,
        i,
    ) by {
        if i < len {
            assert(node_ok(records, sorted, count_once, nodes, origin, src, i));
        }
    }
    assert forall|i: int, j: int| 1 <= i < j < nodes2.len() implies #[trigger] src2[i] != #[trigger] src2[j] by {
        if j == len {
            assert(used.contains(src[i]));
        } else {
            assert(src[i] != src[j]);
        }
    }
    assert forall|r: u64| placed.insert(rec_no).contains(r) <==> placed_before(origin2, nodes2.len() as int, r) by {
        lemma_placed_before_push(origin, rec_no, len, r);
    }
    assert forall|p1: int, p2: int|
        0 <= p1 < p2 < nodes2.len() && #[trigger] entered(nodes2, p1) && #[trigger] entered(nodes2, p2) implies origin2[p1]
        != origin2[p2] by {
        if p2 == len {
            assert(nodes2[p2].kind == Kind::Directory);
            assert(records[rec_no].is_directory);
            assert(!placed.contains(rec_no));
            assert(!placed_before(origin, len, rec_no));
            assert(origin[p1] == origin2[p1]);
            if origin[p1] == rec_no {
                assert(placed_before(origin, len, rec_no));
            }
        } else {
            assert(nodes2[p1] == nodes[p1] && nodes2[p2] == nodes[p2]);
            assert(entered(nodes, p1) && entered(nodes, p2));
        }
    }
    let used2 = used.insert(k);
    assert(used2.subset_of(vstd::set_lib::set_int_range(0, sorted.len() as int)));
    assert forall|i: int| 1 <= i < nodes2.len() implies used2.contains(#[trigger] src2[i]) by {
        if i < len {
            assert(used.contains(src[i]));
        }
    }
    assert forall|x: int| used2.contains(x) implies exists|i: int| 1 <= i < nodes2.len() && #[trigger] src2[i] == x by {
        if x == k {
            assert(src2[len] == k);
        } else {
            let i = choose|i: int| 1 <= i < nodes.len() && #[trigger] src[i] == x;
            assert(src2[i] == x);
        }
    }
    assert(nodes2[0] == nodes[0]);
    assert(origin2[0] == origin[0]);
    assert(src2[len] == k && nodes2[len].parent == Some(NodeId(cur as u32)));
}

/// The queue and the finished directories agree with the nodes.
pub open spec fn queue_ok(nodes: Seq<Node>, origin: Seq<u64>, queue: Seq<(u64, NodeId)>, done: Set<int>) -> bool {
    &&& forall|t: int|
        0 <= t < queue.len() ==> {
            let id = (#[trigger] queue[t]).1.0 as int;
            &&& 0 <= id < nodes.len()
            &&& origin[id] == queue[t].0
            &&& entered(nodes, id)
            &&& !done.contains(id)
        }
    &&& forall|t1: int, t2: int| 0 <= t1 < t2 < queue.len() ==> (#[trigger] queue[t1]).1 != (#[trigger] queue[t2]).1
    &&& forall|p: int| #[trigger] done.contains(p) ==> 0 <= p < nodes.len() && entered(nodes, p)
}

impl Table {
    /// Build the tree under the volume's root directory, which is named
    /// `root_name`. `None` when the table holds no root, or when the sizes
    /// add up past what a `u64` holds.
    ///
    /// Only files reachable from the root by name are placed. A directory
    /// with several names is placed once; a file's further names become
    /// [`Node::duplicate_link`] entries when
    /// [`ScanOptions::count_hard_links_once`] is set, and count in full
    /// otherwise. Which name of a hard-linked file comes first is not
    /// specified.
    #[verifier::rlimit(60)]
    pub fn into_tree(self, root_name: String, options: &ScanOptions) -> (r: Option<Tree>)
        requires
            self.names@.len() < u32::MAX,
        ensures
            !self.records@.contains_key(ROOT_RECORD) ==> r is None,
            self.records@.contains_key(ROOT_RECORD) ==> exists|
                nodes: Seq<Node>,
                origin: Seq<u64>,
                src: Seq<int>,
                sorted: Seq<(u64, u64, Seq<u16>)>,
            |
                #[trigger] placement(
                    self.records@,
                    names_view(self.names@),
                    root_name,
                    options.count_hard_links_once,
                    nodes,
                    origin,
                    src,
                    sorted,
                ) && match r {
                    None => !totals_fit(nodes),
                    Some(tree) => {
                        &&& tree.spec_metric() == options.size_metric
                        &&& tree.spec_nodes().len() == nodes.len()
                        &&& forall|i: int| 0 <= i < nodes.len() ==> #[trigger] tree.spec_nodes()[i] == finished(nodes, i)
                    },
                },
    {
        let root = match map_get(&self.records, &ROOT_RECORD) {
            Some(r) => r,
            None => return None,
        };
        let ghost root_string = root_name;
        let ghost orig_names = names_view(self.names@);
        let Table { records, mut names } = self;
        let ghost all_records = records@;
        sort_by_parent(&mut names);
        let ghost sorted = names_view(names@);
        assert(sorted_by_parent(sorted)) by {
            assert forall|i: int, j: int| 0 <= i < j < sorted.len() implies (#[trigger] sorted[i]).0 <= (
            #[trigger] sorted[j]).0 by {
                assert(names@[i].parent <= names@[j].parent);
            }
        }
        let ranges = child_ranges(&names);
        let count_once = options.count_hard_links_once;
        let mut builder = TreeBuilder::new();
        let root_id = builder.push(node(root_name, None, &root));
        let mut placed: foldhash::HashSet<u64> = set_new();
        set_insert(&mut placed, ROOT_RECORD);
        let mut queue: VecDeque<(u64, NodeId)> = VecDeque::new();
        queue.push_back((ROOT_RECORD, root_id));
        let ghost mut origin: Seq<u64> = seq![ROOT_RECORD];
        let ghost mut src: Seq<int> = seq![0int];
        let ghost mut used: Set<int> = Set::empty();
        let ghost mut done: Set<int> = Set::empty();
        proof {
            assert forall|r: u64| placed@.contains(r) <==> placed_before(origin, 1, r) by {
                if r == ROOT_RECORD {
                    assert(origin[0] == r);
                }
            }
            assert(queue@[0].1.0 == 0);
        }
        let n = names.len();
        loop
            invariant
                n == names@.len(),
                n < u32::MAX,
                sorted == names_view(names@),
                sorted_by_parent(sorted),
                ranges_ok(sorted, ranges@, n as int),
                records@ == all_records,
                count_once == options.count_hard_links_once,
                walk_ok(records@, sorted, root_string, count_once, builder.spec_nodes(), origin, src, used, placed@),
                queue_ok(builder.spec_nodes(), origin, queue@, done),
                forall|p: int|
                    0 <= p < builder.spec_nodes().len() && #[trigger] entered(builder.spec_nodes(), p) ==> done.contains(p)
                        || queued(queue@, p),
                forall|p: int| #[trigger]
                    done.contains(p) ==> complete_at(records@, sorted, builder.spec_nodes(), origin, src, p),
                forall|i: int|
                    1 <= i < builder.spec_nodes().len() ==> done.contains(
                        (#[trigger] builder.spec_nodes()[i]).parent->Some_0.0 as int,
                    ),
            ensures
                queue@.len() == 0,
                walk_ok(records@, sorted, root_string, count_once, builder.spec_nodes(), origin, src, used, placed@),
                forall|p: int|
                    0 <= p < builder.spec_nodes().len() && #[trigger] entered(builder.spec_nodes(), p) ==> complete_at(
                        records@,
                        sorted,
                        builder.spec_nodes(),
                        origin,
                        src,
                        p,
                    ),
            decreases 2 * (n + 1 - builder.spec_nodes().len()) + queue@.len(),
        {
            proof {
                vstd::set_lib::lemma_int_range(0, n as int);
                vstd::set_lib::lemma_len_subset(used, vstd::set_lib::set_int_range(0, n as int));
            }
            let ghost queue_before = queue@;
            let (directory, parent) = match queue.pop_front() {
                Some(entry) => entry,
                None => {
                    proof {
                        assert forall|p: int|
                            0 <= p < builder.spec_nodes().len() && #[trigger] entered(builder.spec_nodes(), p) implies complete_at(
                            records@,
                            sorted,
                            builder.spec_nodes(),
                            origin,
                            src,
                            p,
                        ) by {
                            assert(!queued(queue@, p));
                            assert(done.contains(p));
                        }
                    }
                    break;
                },
            };
            let ghost cur = parent.0 as int;
            let ghost budget = 2 * (n + 1 - builder.spec_nodes().len()) + queue@.len();
            proof {
                let q0 = queue_before;
                assert(q0 =~= seq![(directory, parent)] + queue@);
                assert(entered(builder.spec_nodes(), cur) && origin[cur] == directory && !done.contains(cur)) by {
                    assert(q0[0] == (directory, parent));
                }
                assert forall|t: int| 0 <= t < queue@.len() implies (#[trigger] queue@[t]).1.0 != cur by {
                    assert(q0[t + 1] == queue@[t]);
                    assert(q0[0].1 != q0[t + 1].1);
                }
                assert forall|p: int|
                    0 <= p < builder.spec_nodes().len() && #[trigger] entered(builder.spec_nodes(), p) implies p == cur
                    || done.contains(p) || queued(queue@, p) by {
                    if !done.contains(p) {
                        assert(queued(q0, p));
                        let t = choose|t: int| 0 <= t < q0.len() && (#[trigger] q0[t]).1.0 == p;
                        if t > 0 {
                            assert(queue@[t - 1] == q0[t]);
                        }
                    }
                }
                assert(queue_ok(builder.spec_nodes(), origin, queue@, done)) by {
                    assert forall|t: int| 0 <= t < queue@.len() implies {
                        let id = (#[trigger] queue@[t]).1.0 as int;
                        &&& 0 <= id < builder.spec_nodes().len()
                        &&& origin[id] == queue@[t].0
                        &&& entered(builder.spec_nodes(), id)
                        &&& !done.contains(id)
                    } by {
                        assert(q0[t + 1] == queue@[t]);
                    }
                    assert forall|t1: int, t2: int| 0 <= t1 < t2 < queue@.len() implies (#[trigger] queue@[t1]).1 != (
                    #[trigger] queue@[t2]).1 by {
                        assert(q0[t1 + 1] == queue@[t1]);
                        assert(q0[t2 + 1] == queue@[t2]);
                    }
                }
            }
            match map_get(&ranges, &directory) {
                None => {},
                Some(range) => {
                    let first_name = range.0;
                    let end = range.1;
                    let mut k = first_name;
                    while k < end
                        invariant
                            n == names@.len(),
                            n < u32::MAX,
                            sorted == names_view(names@),
                            ranges_ok(sorted, ranges@, n as int),
                            ranges@.contains_key(directory),
                            ranges@[directory] == (first_name, end),
                            first_name <= k <= end,
                            records@ == all_records,
                            count_once == options.count_hard_links_once,
                            0 <= cur < builder.spec_nodes().len(),
                            cur == parent.0 as int,
                            entered(builder.spec_nodes(), cur),
                            origin[cur] == directory,
                            !done.contains(cur),
                            walk_ok(records@, sorted, root_string, count_once, builder.spec_nodes(), origin, src, used, placed@),
                            queue_ok(builder.spec_nodes(), origin, queue@, done),
                            forall|t: int| 0 <= t < queue@.len() ==> (#[trigger] queue@[t]).1.0 != cur,
                            forall|p: int|
                                0 <= p < builder.spec_nodes().len() && #[trigger] entered(builder.spec_nodes(), p) ==> p
                                    == cur || done.contains(p) || queued(queue@, p),
                            forall|p: int| #[trigger]
                                done.contains(p) ==> complete_at(records@, sorted, builder.spec_nodes(), origin, src, p),
                            forall|i: int|
                                1 <= i < builder.spec_nodes().len() ==> {
                                    let p = (#[trigger] builder.spec_nodes()[i]).parent->Some_0.0 as int;
                                    done.contains(p) || (p == cur && first_name <= src[i] < k)
                                },
                            forall|j: int|
                                first_name <= j < k && records@.contains_key(sorted[j].1) ==> #[trigger] name_handled(
                                    records@,
                                    sorted,
                                    builder.spec_nodes(),
                                    origin,
                                    src,
                                    cur,
                                    j,
                                ),
                            2 * (n + 1 - builder.spec_nodes().len()) + queue@.len() <= budget,
                        decreases end - k,
                    {
                        let name = &names[k];
                        let record_number = name.record;
                        assert(sorted[k as int].0 == directory);
                        match map_get(&records, &record_number) {
                            None => {},
                            Some(record) => {
                                let ghost nodes0 = builder.spec_nodes();
                                let ghost placed0 = placed@;
                                let first = set_insert(&mut placed, record_number);
                                if record.is_directory && !first {
                                    proof {
                                        assert(placed_before(origin, nodes0.len() as int, record_number));
                                        assert(name_handled(records@, sorted, nodes0, origin, src, cur, k as int));
                                    }
                                } else {
                                    let text = os_string(name.name.as_slice());
                                    let mut nd = node(text, Some(parent), &record);
                                    nd.duplicate_link = !first && count_once;
                                    let kind = node_kind(&record);
                                    proof {
                                        lemma_place(
                                            records@,
                                            sorted,
                                            root_string,
                                            count_once,
                                            nodes0,
                                            origin,
                                            src,
                                            used,
                                            placed0,
                                            cur,
                                            k as int,
                                            nd,
                                        );
                                        vstd::set_lib::lemma_int_range(0, n as int);
                                        vstd::set_lib::lemma_len_subset(
                                            used.insert(k as int),
                                            vstd::set_lib::set_int_range(0, n as int),
                                        );
                                    }
                                    let id = builder.push(nd);
                                    proof {
                                        lemma_push_keeps(records@, sorted, count_once, nodes0, origin, src, nd, record_number, k as int);
                                        assert forall|p: int| #[trigger] done.contains(p) implies complete_at(
                                            records@,
                                            sorted,
                                            nodes0.push(nd),
                                            origin.push(record_number),
                                            src.push(k as int),
                                            p,
                                        ) by {
                                            assert(complete_at(records@, sorted, nodes0, origin, src, p));
                                            assert forall|j: int|
                                                0 <= j < sorted.len() && sorted[j].0 == origin.push(record_number)[p]
                                                    && records@.contains_key(sorted[j].1) implies #[trigger] name_handled(
                                                records@,
                                                sorted,
                                                nodes0.push(nd),
                                                origin.push(record_number),
                                                src.push(k as int),
                                                p,
                                                j,
                                            ) by {
                                                assert(origin.push(record_number)[p] == origin[p]);
                                                assert(name_handled(records@, sorted, nodes0, origin, src, p, j));
                                            }
                                        }
                                        assert forall|j: int|
                                            first_name <= j < k + 1 && records@.contains_key(sorted[j].1) implies #[trigger] name_handled(
                                            records@,
                                            sorted,
                                            nodes0.push(nd),
                                            origin.push(record_number),
                                            src.push(k as int),
                                            cur,
                                            j,
                                        ) by {
                                            if j < k {
                                                assert(name_handled(records@, sorted, nodes0, origin, src, cur, j));
                                            }
                                        }
                                        origin = origin.push(record_number);
                                        src = src.push(k as int);
                                        used = used.insert(k as int);
                                    }
                                    let ghost queue_mid = queue@;
                                    if kind == Kind::Directory {
                                        queue.push_back((record_number, id));
                                    }
                                    proof {
                                        let nodes1 = builder.spec_nodes();
                                        assert forall|p: int|
                                            0 <= p < nodes1.len() && #[trigger] entered(nodes1, p) implies p == cur || done.contains(p)
                                            || queued(queue@, p) by {
                                            if p < nodes0.len() {
                                                assert(nodes1[p] == nodes0[p]);
                                                assert(entered(nodes0, p));
                                                if queued(queue_mid, p) {
                                                    let t = choose|t: int| 0 <= t < queue_mid.len() && (#[trigger] queue_mid[t]).1.0 == p;
                                                    assert(queue@[t] == queue_mid[t]);
                                                }
                                            } else {
                                                assert(queue@[queue@.len() - 1] == (record_number, id));
                                            }
                                        }
                                        assert forall|t: int| 0 <= t < queue@.len() implies {
                                            let qid = (#[trigger] queue@[t]).1.0 as int;
                                            &&& 0 <= qid < nodes1.len()
                                            &&& origin[qid] == queue@[t].0
                                            &&& entered(nodes1, qid)
                                            &&& !done.contains(qid)
                                        } by {
                                            if t < queue_mid.len() {
                                                assert(queue@[t] == queue_mid[t]);
                                                assert(nodes1[queue_mid[t].1.0 as int] == nodes0[queue_mid[t].1.0 as int]);
                                            }
                                        }
                                        assert forall|t1: int, t2: int| 0 <= t1 < t2 < queue@.len() implies (
                                        #[trigger] queue@[t1]).1 != (#[trigger] queue@[t2]).1 by {
                                            assert(queue@[t1] == queue_mid[t1]);
                                            if t2 >= queue_mid.len() {
                                                assert(queue_mid[t1].1.0 < nodes0.len());
                                            } else {
                                                assert(queue@[t2] == queue_mid[t2]);
                                            }
                                        }
                                        assert forall|p: int| #[trigger] done.contains(p) implies 0 <= p < nodes1.len()
                                            && entered(nodes1, p) by {
                                            assert(nodes1[p] == nodes0[p]);
                                        }
                                        assert forall|t: int| 0 <= t < queue@.len() implies (#[trigger] queue@[t]).1.0 != cur by {
                                            if t < queue_mid.len() {
                                                assert(queue@[t] == queue_mid[t]);
                                            }
                                        }
                                        assert forall|i: int| 1 <= i < nodes1.len() implies {
                                            let p = (#[trigger] nodes1[i]).parent->Some_0.0 as int;
                                            done.contains(p) || (p == cur && first_name <= src[i] < k + 1)
                                        } by {
                                            if i < nodes0.len() {
                                                assert(nodes1[i] == nodes0[i]);
                                            }
                                        }
                                    }
                                }
                            },
                        }
                        k = k + 1;
                    }
                },
            }
            proof {
                done = done.insert(cur);
                vstd::set_lib::lemma_int_range(0, n as int);
                vstd::set_lib::lemma_len_subset(used, vstd::set_lib::set_int_range(0, n as int));
                assert(2 * (n + 1 - builder.spec_nodes().len()) + queue@.len() <= budget);
            }
        }
        proof {
            assert(placement(
                all_records,
                orig_names,
                root_string,
                count_once,
                builder.spec_nodes(),
                origin,
                src,
                sorted,
            )) by {
                assert forall|p: int, k: int|
                    0 <= p < builder.spec_nodes().len() && entered(builder.spec_nodes(), p) && 0 <= k < sorted.len()
                        && sorted[k].0 == origin[p] && all_records.contains_key(sorted[k].1) implies #[trigger] name_handled(
                    all_records,
                    sorted,
                    builder.spec_nodes(),
                    origin,
                    src,
                    p,
                    k,
                ) by {
                    assert(complete_at(all_records, sorted, builder.spec_nodes(), origin, src, p));
                }
            }
        }
        if !builder.totals_fit() {
            return None;
        }
        Some(builder.finish(options.size_metric))
    }
}

} // verus!
