//! File types by the space they take: every extension in a tree with its
//! total bytes, largest first. The rank of an extension picks its colour
//! in the treemap and the legend.

use crate::paths::same_chars;
use crate::text::{chars_of, text_le, text_le_exec};
use crate::tree::{node_size, Kind, Node, SizeMetric, Tree};
use crate::treemap::{extension_of, node_extension};
use std::cmp::Ordering;
use vstd::prelude::*;

verus! {

/// An extension as text; `None` is "no extension".
pub open spec fn ext_view(e: Option<String>) -> Option<Seq<char>> {
    match e {
        Some(s) => Some(s@),
        None => None,
    }
}

/// A ranked entry as text and bytes.
pub open spec fn entry_view(p: (Option<String>, u64)) -> (Option<Seq<char>>, u64) {
    (ext_view(p.0), p.1)
}

/// Whether a node's bytes count for its extension: everything but
/// directories.
pub open spec fn counted(node: Node) -> bool {
    node.kind != Kind::Directory
}

/// The bytes of the first `n` nodes that count for extension `e`.
pub open spec fn ext_total(nodes: Seq<Node>, metric: SizeMetric, e: Option<Seq<char>>, n: int) -> int
    decreases n,
{
    if n <= 0 || n > nodes.len() {
        0
    } else {
        ext_total(nodes, metric, e, n - 1) + if counted(nodes[n - 1]) && node_extension(nodes[n - 1].name@) == e {
            node_size(nodes[n - 1], metric) as int
        } else {
            0
        }
    }
}

/// The bytes of the first `n` nodes that count for any extension.
pub open spec fn files_total(nodes: Seq<Node>, metric: SizeMetric, n: int) -> int
    decreases n,
{
    if n <= 0 || n > nodes.len() {
        0
    } else {
        files_total(nodes, metric, n - 1) + if counted(nodes[n - 1]) {
            node_size(nodes[n - 1], metric) as int
        } else {
            0
        }
    }
}

/// Whether one of the first `n` nodes counts for extension `e`.
pub open spec fn has_ext(nodes: Seq<Node>, e: Option<Seq<char>>, n: int) -> bool {
    exists|i: int| 0 <= i < n && i < nodes.len() && counted(nodes[i]) && #[trigger] node_extension(nodes[i].name@) == e
}

/// Extensions in order: no extension first, then by text.
pub open spec fn ext_le(a: Option<Seq<char>>, b: Option<Seq<char>>) -> bool {
    match (a, b) {
        (None, _) => true,
        (Some(_), None) => false,
        (Some(x), Some(y)) => text_le(x, y),
    }
}

/// Whether entry `a` may come before `b`: more bytes first, then by
/// extension.
pub open spec fn ranked_before(a: (Option<Seq<char>>, u64), b: (Option<Seq<char>>, u64)) -> bool {
    a.1 > b.1 || (a.1 == b.1 && ext_le(a.0, b.0))
}

/// What a ranking of the nodes holds: each extension of a counted node
/// once, with its total bytes, largest first and then by extension.
pub open spec fn ranking_ok(nodes: Seq<Node>, metric: SizeMetric, r: Seq<(Option<Seq<char>>, u64)>) -> bool {
    &&& forall|a: int, b: int| 0 <= a < b < r.len() ==> r[a].0 != r[b].0
    &&& forall|k: int|
        0 <= k < r.len() ==> has_ext(nodes, (#[trigger] r[k]).0, nodes.len() as int) && r[k].1 == ext_total(
            nodes,
            metric,
            r[k].0,
            nodes.len() as int,
        )
    &&& forall|i: int|
        0 <= i < nodes.len() && counted(nodes[i]) ==> exists|k: int|
            0 <= k < r.len() && (#[trigger] r[k]).0 == node_extension(nodes[i].name@)
    &&& forall|a: int, b: int| 0 <= a < b < r.len() ==> ranked_before(r[a], r[b])
}

proof fn lemma_ext_le_files(nodes: Seq<Node>, metric: SizeMetric, e: Option<Seq<char>>, n: int)
    ensures
        0 <= ext_total(nodes, metric, e, n) <= files_total(nodes, metric, n),
    decreases n,
{
    if 0 < n <= nodes.len() {
        lemma_ext_le_files(nodes, metric, e, n - 1);
    }
}

proof fn lemma_files_grow(nodes: Seq<Node>, metric: SizeMetric, m: int, n: int)
    requires
        0 <= m <= n <= nodes.len(),
    ensures
        files_total(nodes, metric, m) <= files_total(nodes, metric, n),
    decreases n - m,
{
    if m < n {
        lemma_files_grow(nodes, metric, m, n - 1);
    }
}

/// Whether two extensions are the same text.
fn same_ext(a: &Option<String>, b: &Option<String>) -> (r: bool)
    ensures
        r == (ext_view(*a) == ext_view(*b)),
{
    match (a, b) {
        (None, None) => true,
        (Some(x), Some(y)) => {
            let xs = chars_of(x.as_str());
            let ys = chars_of(y.as_str());
            same_chars(&xs, &ys)
        },
        _ => false,
    }
}

/// Whether extension `a` comes no later than `b` (see [`ext_le`]).
fn ext_le_exec(a: &Option<String>, b: &Option<String>) -> (r: bool)
    ensures
        r == ext_le(ext_view(*a), ext_view(*b)),
{
    match (a, b) {
        (None, _) => true,
        (Some(_), None) => false,
        (Some(x), Some(y)) => {
            let xs = chars_of(x.as_str());
            let ys = chars_of(y.as_str());
            text_le_exec(&xs, &ys)
        },
    }
}

/// The order of the ranking: more bytes first, then by extension.
fn rank_order(a: &(Option<String>, u64), b: &(Option<String>, u64)) -> (r: Ordering)
    ensures
        (r == Ordering::Less || r == Ordering::Equal) == ranked_before(entry_view(*a), entry_view(*b)),
{
    if a.1 > b.1 {
        Ordering::Less
    } else if a.1 < b.1 {
        Ordering::Greater
    } else if ext_le_exec(&a.0, &b.0) {
        if ext_le_exec(&b.0, &a.0) {
            Ordering::Equal
        } else {
            Ordering::Less
        }
    } else {
        Ordering::Greater
    }
}

/// Sort ranked entries (`sort_by` with [`rank_order`]): the same entries,
/// more bytes first and then by extension.
#[verifier::external_body]
fn sort_ranked(list: &mut Vec<(Option<String>, u64)>)
    ensures
        final(list)@.map_values(|p: (Option<String>, u64)| entry_view(p)).to_multiset() == old(list)@.map_values(
            |p: (Option<String>, u64)| entry_view(p),
        ).to_multiset(),
        forall|i: int, j: int|
            0 <= i < j < final(list)@.len() ==> ranked_before(
                entry_view(#[trigger] final(list)@[i]),
                entry_view(#[trigger] final(list)@[j]),
            ),
{
    list.sort_by(|a, b| rank_order(a, b));
}

/// Every extension in a tree with its total bytes, largest first.
#[derive(Debug)]
pub struct ExtensionRanking {
    ranked: Vec<(Option<String>, u64)>,
}

impl ExtensionRanking {
    /// The ranked entries as text and bytes.
    pub closed spec fn spec_entries(&self) -> Seq<(Option<Seq<char>>, u64)> {
        self.ranked@.map_values(|p: (Option<String>, u64)| entry_view(p))
    }

    /// Rank every extension in `tree` by the bytes of the files (and
    /// links and other non-directories) that have it. The bytes of all
    /// of them together must fit a `u64`.
    pub fn rank(tree: &Tree) -> (r: ExtensionRanking)
        requires
            files_total(tree.spec_nodes(), tree.spec_metric(), tree.spec_nodes().len() as int) <= u64::MAX,
        ensures
            ranking_ok(tree.spec_nodes(), tree.spec_metric(), r.spec_entries()),
    {
        proof {
            use_type_invariant(tree);
        }
        let nodes = tree.nodes();
        let ghost ns = tree.spec_nodes();
        let ghost m = tree.spec_metric();
        let n = nodes.len();
        let mut list: Vec<(Option<String>, u64)> = Vec::new();
        let mut i: usize = 0;
        while i < n
            invariant
                nodes@ == ns,
                ns == tree.spec_nodes(),
                n == ns.len(),
                m == tree.spec_metric(),
                i <= n,
                n <= u32::MAX + 1,
                files_total(ns, m, n as int) <= u64::MAX,
                forall|a: int, b: int| 0 <= a < b < list@.len() ==> ext_view(list@[a].0) != ext_view(list@[b].0),
                forall|k: int|
                    0 <= k < list@.len() ==> has_ext(ns, ext_view((#[trigger] list@[k]).0), i as int) && list@[k].1
                        == ext_total(ns, m, ext_view(list@[k].0), i as int),
                forall|j: int|
                    0 <= j < i && counted(ns[j]) ==> exists|k: int|
                        0 <= k < list@.len() && ext_view((#[trigger] list@[k]).0) == node_extension(ns[j].name@),
            decreases n - i,
        {
            let node = &nodes[i];
            let ghost before = list@;
            if node.kind != Kind::Directory {
                let e = extension_of(node);
                let size = tree.size(crate::tree::NodeId(i as u32));
                let ghost ev = node_extension(ns[i as int].name@);
                assert(ext_view(e) == ev);
                proof {
                    lemma_ext_le_files(ns, m, ev, i + 1);
                    lemma_files_grow(ns, m, i + 1, n as int);
                }
                let mut k: usize = 0;
                while k < list.len()
                    invariant
                        k <= list@.len(),
                        list@ == before,
                        forall|c: int| 0 <= c < k ==> ext_view((#[trigger] list@[c]).0) != ext_view(e),
                    ensures
                        k <= list@.len(),
                        list@ == before,
                        forall|c: int| 0 <= c < k ==> ext_view((#[trigger] list@[c]).0) != ext_view(e),
                        k < list@.len() ==> ext_view(list@[k as int].0) == ext_view(e),
                    decreases list@.len() - k,
                {
                    if same_ext(&list[k].0, &e) {
                        break;
                    }
                    k = k + 1;
                }
                if k < list.len() {
                    let total = list[k].1;
                    assert(total == ext_total(ns, m, ev, i as int));
                    assert(ext_total(ns, m, ev, i + 1) == total + size);
                    list.set(k, (e, total + size));
                } else {
                    assert(ext_total(ns, m, ev, i as int) == 0) by {
                        lemma_absent_is_zero(ns, m, ev, i as int);
                    }
                    list.push((e, size));
                }
                proof {
                    assert forall|a: int, b: int| 0 <= a < b < list@.len() implies ext_view(list@[a].0) != ext_view(
                        list@[b].0,
                    ) by {
                        if b == before.len() {
                            assert(list@[a] == before[a]);
                        }
                    }
                    assert forall|c: int| 0 <= c < list@.len() implies has_ext(
                        ns,
                        ext_view((#[trigger] list@[c]).0),
                        i + 1,
                    ) && list@[c].1 == ext_total(ns, m, ext_view(list@[c].0), i + 1) by {
                        if ext_view(list@[c].0) == ev {
                            assert(counted(ns[i as int]) && node_extension(ns[i as int].name@) == ev);
                        } else {
                            assert(list@[c] == before[c]);
                            let w = choose|w: int|
                                0 <= w < i && w < ns.len() && counted(ns[w]) && #[trigger] node_extension(ns[w].name@)
                                    == ext_view(before[c].0);
                            assert(0 <= w < i + 1 && counted(ns[w]) && node_extension(ns[w].name@) == ext_view(list@[c].0));
                        }
                    }
                    assert forall|j: int| 0 <= j < i + 1 && counted(ns[j]) implies exists|c: int|
                        0 <= c < list@.len() && ext_view((#[trigger] list@[c]).0) == node_extension(ns[j].name@) by {
                        if j == i {
                            if k < before.len() {
                                assert(ext_view(list@[k as int].0) == ev);
                            } else {
                                assert(ext_view(list@[before.len() as int].0) == ev);
                            }
                        } else {
                            let c = choose|c: int| 0 <= c < before.len() && ext_view((#[trigger] before[c]).0) == node_extension(ns[j].name@);
                            if c == k as int {
                                assert(ext_view(list@[c].0) == ev);
                            } else {
                                assert(list@[c] == before[c]);
                            }
                        }
                    }
                }
            } else {
                proof {
                    assert forall|c: int| 0 <= c < list@.len() implies has_ext(
                        ns,
                        ext_view((#[trigger] list@[c]).0),
                        i + 1,
                    ) && list@[c].1 == ext_total(ns, m, ext_view(list@[c].0), i + 1) by {
                        let w = choose|w: int|
                            0 <= w < i && w < ns.len() && counted(ns[w]) && #[trigger] node_extension(ns[w].name@)
                                == ext_view(list@[c].0);
                        assert(0 <= w < i + 1);
                    }
                }
            }
            i = i + 1;
        }
        let ghost unsorted = list@;
        let ghost before = list@.map_values(|p: (Option<String>, u64)| entry_view(p));
        sort_ranked(&mut list);
        let ghost after = list@.map_values(|p: (Option<String>, u64)| entry_view(p));
        proof {
            broadcast use vstd::seq_lib::group_to_multiset_ensures;
            assert(before.no_duplicates()) by {
                assert forall|a: int, b: int| 0 <= a < before.len() && 0 <= b < before.len() && a != b implies before[a]
                    != before[b] by {
                    if a < b {
                        assert(before[a].0 != before[b].0);
                    } else {
                        assert(before[b].0 != before[a].0);
                    }
                }
            }
            before.lemma_multiset_has_no_duplicates();
            after.lemma_multiset_has_no_duplicates_conv();
            assert forall|c: int| 0 <= c < after.len() implies before.contains(#[trigger] after[c]) by {
                assert(after.contains(after[c]));
                assert(after.to_multiset().count(after[c]) > 0);
            }
            assert forall|c: int| 0 <= c < before.len() implies after.contains(#[trigger] before[c]) by {
                assert(before.contains(before[c]));
                assert(before.to_multiset().count(before[c]) > 0);
            }
            // Distinct entries that are ranked both ways are equal, so a sorted
            // list without repeated entries has no repeated extension.
            assert forall|a: int, b: int| 0 <= a < b < after.len() implies after[a].0 != after[b].0 by {
                assert(ranked_before(after[a], after[b]));
                assert(after[a] != after[b]);
                if after[a].0 == after[b].0 {
                    assert(before.contains(after[a]));
                    assert(before.contains(after[b]));
                    let x = choose|x: int| 0 <= x < before.len() && before[x] == after[a];
                    let y = choose|y: int| 0 <= y < before.len() && before[y] == after[b];
                    assert(x != y);
                    if x < y {
                        assert(before[x].0 != before[y].0);
                    } else {
                        assert(before[y].0 != before[x].0);
                    }
                }
            }
            assert forall|k: int| 0 <= k < after.len() implies has_ext(ns, (#[trigger] after[k]).0, ns.len() as int)
                && after[k].1 == ext_total(ns, m, after[k].0, ns.len() as int) by {
                let x = choose|x: int| 0 <= x < before.len() && before[x] == after[k];
                assert(before[x] == entry_view(unsorted[x]));
            }
            assert forall|j: int| 0 <= j < ns.len() && counted(ns[j]) implies exists|c: int|
                0 <= c < after.len() && (#[trigger] after[c]).0 == node_extension(ns[j].name@) by {
                let x = choose|x: int| 0 <= x < unsorted.len() && ext_view((#[trigger] unsorted[x]).0) == node_extension(ns[j].name@);
                assert(before[x] == entry_view(unsorted[x]));
                assert(after.contains(before[x]));
                let c = choose|c: int| 0 <= c < after.len() && after[c] == before[x];
                assert(after[c].0 == node_extension(ns[j].name@));
            }
            assert(after == list@.map_values(|p: (Option<String>, u64)| entry_view(p)));
            assert forall|a: int, b: int| 0 <= a < b < after.len() implies ranked_before(after[a], after[b]) by {
                assert(after[a] == entry_view(list@[a]));
                assert(after[b] == entry_view(list@[b]));
            }
        }
        ExtensionRanking { ranked: list }
    }
}

/// Whether the bytes of all files (and links and other non-directories)
/// of `tree` together fit a `u64`, as [`ExtensionRanking::rank`] needs.
pub fn files_fit(tree: &Tree) -> (r: bool)
    ensures
        r == (files_total(tree.spec_nodes(), tree.spec_metric(), tree.spec_nodes().len() as int) <= u64::MAX),
{
    proof {
        use_type_invariant(tree);
    }
    let nodes = tree.nodes();
    let ghost ns = tree.spec_nodes();
    let ghost m = tree.spec_metric();
    let n = nodes.len();
    let mut sum: u64 = 0;
    let mut i: usize = 0;
    while i < n
        invariant
            nodes@ == ns,
            ns == tree.spec_nodes(),
            m == tree.spec_metric(),
            n == ns.len(),
            n <= u32::MAX + 1,
            i <= n,
            sum == files_total(ns, m, i as int),
        decreases n - i,
    {
        if nodes[i].kind != Kind::Directory {
            let size = tree.size(crate::tree::NodeId(i as u32));
            match sum.checked_add(size) {
                Some(s) => sum = s,
                None => {
                    proof {
                        lemma_files_grow(ns, m, i + 1, n as int);
                    }
                    return false;
                },
            }
        }
        i = i + 1;
    }
    true
}

impl ExtensionRanking {
    /// Extensions largest first with their total bytes; `None` is "no
    /// extension".
    pub fn entries(&self) -> (r: &[(Option<String>, u64)])
        ensures
            r@.map_values(|p: (Option<String>, u64)| entry_view(p)) == self.spec_entries(),
    {
        self.ranked.as_slice()
    }

    /// Number of distinct extensions ranked.
    pub fn len(&self) -> (r: usize)
        ensures
            r == self.spec_entries().len(),
    {
        self.ranked.len()
    }

    /// True if the tree had no files, symlinks or other non-directories.
    pub fn is_empty(&self) -> (r: bool)
        ensures
            r == (self.spec_entries().len() == 0),
    {
        self.ranked.len() == 0
    }

    /// The rank of extension `e`, if it is ranked.
    pub fn rank_of(&self, e: &Option<String>) -> (r: Option<usize>)
        ensures
            r == first_rank(self.spec_entries(), ext_view(*e), 0),
    {
        let mut k: usize = 0;
        while k < self.ranked.len()
            invariant
                k <= self.ranked@.len(),
                first_rank(self.spec_entries(), ext_view(*e), k as int) == first_rank(
                    self.spec_entries(),
                    ext_view(*e),
                    0,
                ),
            decreases self.ranked@.len() - k,
        {
            if same_ext(&self.ranked[k].0, e) {
                return Some(k);
            }
            k = k + 1;
        }
        None
    }
}

/// The first position from `k` on of extension `e` in a ranking.
pub open spec fn first_rank(r: Seq<(Option<Seq<char>>, u64)>, e: Option<Seq<char>>, k: int) -> Option<usize>
    decreases r.len() - k,
{
    if k < 0 || k >= r.len() {
        None
    } else if r[k].0 == e {
        Some(k as usize)
    } else {
        first_rank(r, e, k + 1)
    }
}

/// The bytes a tally holds for rank `r`; none when `r` is not in it.
pub open spec fn held(t: Seq<(u32, u64)>, r: u32) -> int
    decreases t.len(),
{
    if t.len() == 0 {
        0
    } else if t.last().0 == r {
        t.last().1 as int
    } else {
        held(t.drop_last(), r)
    }
}

/// A tally lists each rank once, with some bytes.
pub open spec fn tally_ok(t: Seq<(u32, u64)>) -> bool {
    &&& forall|a: int, b: int| 0 <= a < b < t.len() ==> t[a].0 != t[b].0
    &&& forall|k: int| 0 <= k < t.len() ==> t[k].1 > 0
}

proof fn lemma_held_absent(t: Seq<(u32, u64)>, r: u32)
    requires
        forall|k: int| 0 <= k < t.len() ==> t[k].0 != r,
    ensures
        held(t, r) == 0,
    decreases t.len(),
{
    if t.len() > 0 {
        assert(t.last() == t[t.len() - 1]);
        lemma_held_absent(t.drop_last(), r);
    }
}

proof fn lemma_held_at(t: Seq<(u32, u64)>, k: int)
    requires
        tally_ok(t),
        0 <= k < t.len(),
    ensures
        held(t, t[k].0) == t[k].1,
    decreases t.len(),
{
    if k < t.len() - 1 {
        assert(t.last() == t[t.len() - 1]);
        assert(t.drop_last()[k] == t[k]);
        lemma_held_at(t.drop_last(), k);
    }
}

/// A rank with bytes in a tally is listed in it.
proof fn lemma_held_present(t: Seq<(u32, u64)>, r: u32)
    requires
        held(t, r) != 0,
    ensures
        exists|k: int| 0 <= k < t.len() && t[k].0 == r,
{
    if forall|k: int| 0 <= k < t.len() ==> t[k].0 != r {
        lemma_held_absent(t, r);
    }
}

proof fn lemma_held_nonneg(t: Seq<(u32, u64)>, r: u32)
    ensures
        held(t, r) >= 0,
    decreases t.len(),
{
    if t.len() > 0 {
        lemma_held_nonneg(t.drop_last(), r);
    }
}

proof fn lemma_held_update(t: Seq<(u32, u64)>, k: int, b: u64, x: u32)
    requires
        tally_ok(t),
        0 <= k < t.len(),
    ensures
        held(t.update(k, (t[k].0, b)), x) == if x == t[k].0 {
            b as int
        } else {
            held(t, x)
        },
    decreases t.len(),
{
    let u = t.update(k, (t[k].0, b));
    if k == t.len() - 1 {
        assert(u.drop_last() =~= t.drop_last());
        if x != t[k].0 {
            assert(u.last().0 != x);
        } else {
            assert(u.last() == (t[k].0, b));
        }
    } else {
        let d = t.drop_last();
        assert(u.drop_last() =~= d.update(k, (d[k].0, b)));
        assert(u.last() == t.last());
        lemma_held_update(d, k, b, x);
        if t.last().0 == x && x == t[k].0 {
            assert(t[t.len() - 1].0 == t[k].0);
        }
    }
}

/// Add `b` bytes to rank `r`.
fn add_to(list: &mut Vec<(u32, u64)>, r: u32, b: u64)
    requires
        tally_ok(old(list)@),
        b > 0,
        held(old(list)@, r) + b <= u64::MAX,
    ensures
        tally_ok(final(list)@),
        forall|x: u32| #[trigger] held(final(list)@, x) == held(old(list)@, x) + if x == r {
            b as int
        } else {
            0
        },
{
    let ghost start = list@;
    let mut k: usize = 0;
    while k < list.len()
        invariant
            k <= list@.len(),
            list@ == start,
            forall|c: int| 0 <= c < k ==> list@[c].0 != r,
        ensures
            k <= list@.len(),
            list@ == start,
            forall|c: int| 0 <= c < k ==> list@[c].0 != r,
            k < list@.len() ==> list@[k as int].0 == r,
        decreases list@.len() - k,
    {
        if list[k].0 == r {
            break;
        }
        k = k + 1;
    }
    if k < list.len() {
        let old_bytes = list[k].1;
        proof {
            lemma_held_at(start, k as int);
        }
        list.set(k, (r, old_bytes + b));
        proof {
            assert forall|x: u32| #[trigger] held(list@, x) == held(start, x) + if x == r {
                b as int
            } else {
                0
            } by {
                lemma_held_update(start, k as int, (old_bytes + b) as u64, x);
            }
        }
    } else {
        proof {
            lemma_held_absent(start, r);
        }
        list.push((r, b));
        proof {
            assert forall|x: u32| #[trigger] held(list@, x) == held(start, x) + if x == r {
                b as int
            } else {
                0
            } by {
                assert(list@.drop_last() =~= start);
            }
        }
    }
}

/// Bytes of a prefix of a tally never exceed those of the whole.
proof fn lemma_held_prefix(t: Seq<(u32, u64)>, j: int, x: u32)
    requires
        tally_ok(t),
        0 <= j <= t.len(),
    ensures
        0 <= held(t.take(j), x) <= held(t, x),
{
    lemma_held_nonneg(t.take(j), x);
    lemma_held_nonneg(t, x);
    if held(t.take(j), x) != 0 {
        lemma_held_present(t.take(j), x);
        let k = choose|k: int| 0 <= k < t.take(j).len() && t.take(j)[k].0 == x;
        assert(tally_ok(t.take(j)));
        lemma_held_at(t.take(j), k);
        lemma_held_at(t, k);
    }
}

/// Add every rank's bytes of `src` to `dst`.
fn merge_into(dst: &mut Vec<(u32, u64)>, src: &Vec<(u32, u64)>)
    requires
        tally_ok(old(dst)@),
        tally_ok(src@),
        forall|x: u32| #[trigger] held(old(dst)@, x) + held(src@, x) <= u64::MAX,
    ensures
        tally_ok(final(dst)@),
        forall|x: u32| #[trigger] held(final(dst)@, x) == held(old(dst)@, x) + held(src@, x),
{
    let ghost start = dst@;
    let mut i: usize = 0;
    while i < src.len()
        invariant
            i <= src@.len(),
            tally_ok(dst@),
            tally_ok(src@),
            forall|x: u32| #[trigger] held(start, x) + held(src@, x) <= u64::MAX,
            forall|x: u32| #[trigger] held(dst@, x) == held(start, x) + held(src@.take(i as int), x),
        decreases src@.len() - i,
    {
        let (r, b) = src[i];
        proof {
            let t = src@.take(i + 1);
            assert(t.drop_last() =~= src@.take(i as int));
            assert(t.last() == src@[i as int]);
            lemma_held_prefix(src@, i + 1, r);
            assert forall|c: int| 0 <= c < src@.take(i as int).len() implies src@.take(i as int)[c].0 != r by {
                assert(src@.take(i as int)[c] == src@[c]);
            }
            lemma_held_absent(src@.take(i as int), r);
        }
        add_to(dst, r, b);
        proof {
            assert forall|x: u32| #[trigger] held(dst@, x) == held(start, x) + held(src@.take(i + 1), x) by {
                let t = src@.take(i + 1);
                assert(t.drop_last() =~= src@.take(i as int));
                assert(t.last() == src@[i as int]);
            }
        }
        i = i + 1;
    }
    assert(src@.take(src@.len() as int) =~= src@);
}

/// Rank of a node's extension in `ranking`; unranked extensions get the
/// largest rank.
pub open spec fn rank_in(ranking: Seq<(Option<Seq<char>>, u64)>, node: Node) -> u32 {
    match first_rank(ranking, node_extension(node.name@), 0) {
        Some(k) => k as u32,
        None => u32::MAX,
    }
}

/// What node `t` adds itself to rank `r`: its bytes, for a counted node
/// of that rank with any.
pub open spec fn own_amount(
    nodes: Seq<Node>,
    metric: SizeMetric,
    ranking: Seq<(Option<Seq<char>>, u64)>,
    t: int,
    r: u32,
) -> int {
    if counted(nodes[t]) && node_size(nodes[t], metric) > 0 && rank_in(ranking, nodes[t]) == r {
        node_size(nodes[t], metric) as int
    } else {
        0
    }
}

/// The bytes of rank `r` at or below node `t`.
pub open spec fn amount(
    nodes: Seq<Node>,
    metric: SizeMetric,
    ranking: Seq<(Option<Seq<char>>, u64)>,
    t: int,
    r: u32,
) -> int
    decreases nodes.len() - t, 1int, 0int,
{
    if 0 <= t < nodes.len() {
        own_amount(nodes, metric, ranking, t, r) + kids_amount(nodes, metric, ranking, t, t + 1, r)
    } else {
        0
    }
}

/// The bytes of rank `r` below the children of `t` numbered `j` or more.
pub open spec fn kids_amount(
    nodes: Seq<Node>,
    metric: SizeMetric,
    ranking: Seq<(Option<Seq<char>>, u64)>,
    t: int,
    j: int,
    r: u32,
) -> int
    decreases nodes.len() - t, 0int, nodes.len() - j,
{
    if 0 <= t < j < nodes.len() {
        (if crate::tree::is_child(nodes, t, j) {
            amount(nodes, metric, ranking, j, r)
        } else {
            0
        }) + kids_amount(nodes, metric, ranking, t, j + 1, r)
    } else {
        0
    }
}

proof fn lemma_amount_nonneg(
    nodes: Seq<Node>,
    metric: SizeMetric,
    ranking: Seq<(Option<Seq<char>>, u64)>,
    t: int,
    r: u32,
)
    ensures
        amount(nodes, metric, ranking, t, r) >= 0,
    decreases nodes.len() - t, 1int, 0int,
{
    if 0 <= t < nodes.len() {
        lemma_kids_nonneg(nodes, metric, ranking, t, t + 1, r);
    }
}

proof fn lemma_kids_nonneg(
    nodes: Seq<Node>,
    metric: SizeMetric,
    ranking: Seq<(Option<Seq<char>>, u64)>,
    t: int,
    j: int,
    r: u32,
)
    ensures
        kids_amount(nodes, metric, ranking, t, j, r) >= 0,
    decreases nodes.len() - t, 0int, nodes.len() - j,
{
    if 0 <= t < j < nodes.len() {
        lemma_amount_nonneg(nodes, metric, ranking, j, r);
        lemma_kids_nonneg(nodes, metric, ranking, t, j + 1, r);
    }
}

/// Fewer children give fewer bytes.
proof fn lemma_kids_fewer(
    nodes: Seq<Node>,
    metric: SizeMetric,
    ranking: Seq<(Option<Seq<char>>, u64)>,
    t: int,
    i: int,
    j: int,
    r: u32,
)
    requires
        0 <= t < i <= j,
    ensures
        kids_amount(nodes, metric, ranking, t, j, r) <= kids_amount(nodes, metric, ranking, t, i, r),
    decreases j - i,
{
    if i < j {
        lemma_kids_fewer(nodes, metric, ranking, t, i + 1, j, r);
        if i < nodes.len() {
            lemma_amount_nonneg(nodes, metric, ranking, i, r);
        }
    }
}

/// Whether segment `a` may come before `b`: more bytes first, then the
/// smaller rank.
pub open spec fn seg_before(a: (u32, u64), b: (u32, u64)) -> bool {
    a.1 > b.1 || (a.1 == b.1 && a.0 <= b.0)
}

/// `s` is the `keep` largest ranks of node `t` with their bytes, largest
/// first: every rank it lists has those bytes, no rank twice, and a rank
/// with bytes that it leaves out comes after all it lists, which are then
/// `keep` of them.
pub open spec fn top_ok(
    s: Seq<(u32, u64)>,
    nodes: Seq<Node>,
    metric: SizeMetric,
    ranking: Seq<(Option<Seq<char>>, u64)>,
    t: int,
    keep: int,
) -> bool {
    &&& s.len() <= keep
    &&& forall|k: int|
        0 <= k < s.len() ==> (#[trigger] s[k]).1 as int == amount(nodes, metric, ranking, t, s[k].0) && s[k].1 > 0
    &&& forall|a: int, b: int| 0 <= a < b < s.len() ==> s[a].0 != s[b].0
    &&& forall|a: int, b: int| 0 <= a < b < s.len() ==> seg_before(s[a], s[b])
    &&& forall|x: u32|
        #![trigger amount(nodes, metric, ranking, t, x)]
        amount(nodes, metric, ranking, t, x) > 0 && (forall|k: int| 0 <= k < s.len() ==> s[k].0 != x) ==> {
            &&& s.len() == keep
            &&& keep > 0 ==> seg_before(s[keep - 1], (x, amount(nodes, metric, ranking, t, x) as u64))
        }
}

/// The order of segments: more bytes first, then the smaller rank.
fn segment_order(a: &(u32, u64), b: &(u32, u64)) -> (r: Ordering)
    ensures
        (r == Ordering::Less || r == Ordering::Equal) == seg_before(*a, *b),
{
    if a.1 > b.1 {
        Ordering::Less
    } else if a.1 < b.1 {
        Ordering::Greater
    } else if a.0 < b.0 {
        Ordering::Less
    } else if a.0 == b.0 {
        Ordering::Equal
    } else {
        Ordering::Greater
    }
}

/// Sort segments (`sort_by` with [`segment_order`]): the same segments,
/// more bytes first and then the smaller rank.
#[verifier::external_body]
fn sort_segments(list: &mut Vec<(u32, u64)>)
    ensures
        final(list)@.to_multiset() == old(list)@.to_multiset(),
        forall|i: int, j: int|
            0 <= i < j < final(list)@.len() ==> seg_before(#[trigger] final(list)@[i], #[trigger] final(list)@[j]),
{
    list.sort_by(|a, b| segment_order(a, b));
}

/// The `keep` largest ranks of a tally, largest first.
fn top_ranks(tally: &Vec<(u32, u64)>, keep: usize) -> (r: Vec<(u32, u64)>)
    requires
        tally_ok(tally@),
    ensures
        r@.len() <= keep,
        forall|k: int| 0 <= k < r@.len() ==> (#[trigger] r@[k]).1 as int == held(tally@, r@[k].0) && r@[k].1 > 0,
        forall|a: int, b: int| 0 <= a < b < r@.len() ==> r@[a].0 != r@[b].0,
        forall|a: int, b: int| 0 <= a < b < r@.len() ==> seg_before(r@[a], r@[b]),
        forall|x: u32|
            #![trigger held(tally@, x)]
            held(tally@, x) > 0 && (forall|k: int| 0 <= k < r@.len() ==> r@[k].0 != x) ==> {
                &&& r@.len() == keep
                &&& keep > 0 ==> seg_before(r@[keep - 1], (x, held(tally@, x) as u64))
            },
{
    broadcast use vstd::seq_lib::group_to_multiset_ensures;
    let mut sorted: Vec<(u32, u64)> = Vec::new();
    for i in 0..tally.len()
        invariant
            sorted@ == tally@.take(i as int),
    {
        sorted.push(tally[i]);
        assert(tally@.take(i + 1) =~= tally@.take(i as int).push(tally@[i as int]));
    }
    assert(tally@.take(tally@.len() as int) =~= tally@);
    let ghost before = sorted@;
    sort_segments(&mut sorted);
    let ghost after = sorted@;
    proof {
        assert(before.no_duplicates()) by {
            assert forall|a: int, b: int| 0 <= a < before.len() && 0 <= b < before.len() && a != b implies before[a]
                != before[b] by {
                if a < b {
                    assert(before[a].0 != before[b].0);
                } else {
                    assert(before[b].0 != before[a].0);
                }
            }
        }
        before.lemma_multiset_has_no_duplicates();
        after.lemma_multiset_has_no_duplicates_conv();
        assert forall|c: int| 0 <= c < after.len() implies before.contains(#[trigger] after[c]) by {
            assert(after.contains(after[c]));
            assert(after.to_multiset().count(after[c]) > 0);
        }
        assert forall|c: int| 0 <= c < before.len() implies after.contains(#[trigger] before[c]) by {
            assert(before.contains(before[c]));
            assert(before.to_multiset().count(before[c]) > 0);
        }
    }
    let mut r: Vec<(u32, u64)> = Vec::new();
    let mut k: usize = 0;
    while k < sorted.len() && k < keep
        invariant
            sorted@ == after,
            k <= after.len(),
            k <= keep,
            r@ == after.take(k as int),
        decreases after.len() - k,
    {
        r.push(sorted[k]);
        assert(after.take(k + 1) =~= after.take(k as int).push(after[k as int]));
        k = k + 1;
    }
    proof {
        assert forall|c: int| 0 <= c < after.len() implies (#[trigger] after[c]).1 as int == held(tally@, after[c].0)
            && after[c].1 > 0 by {
            let x = choose|x: int| 0 <= x < before.len() && before[x] == after[c];
            lemma_held_at(tally@, x);
        }
        assert forall|a: int, b: int| 0 <= a < b < after.len() implies after[a].0 != after[b].0 by {
            if after[a].0 == after[b].0 {
                let x = choose|x: int| 0 <= x < before.len() && before[x] == after[a];
                let y = choose|y: int| 0 <= y < before.len() && before[y] == after[b];
                assert(after[a] != after[b]);
                if x < y {
                    assert(before[x].0 != before[y].0);
                } else if y < x {
                    assert(before[y].0 != before[x].0);
                }
            }
        }
        assert forall|x: u32|
            #![trigger held(tally@, x)]
            held(tally@, x) > 0 && (forall|c: int| 0 <= c < r@.len() ==> r@[c].0 != x) implies {
            &&& r@.len() == keep
            &&& keep > 0 ==> seg_before(r@[keep - 1], (x, held(tally@, x) as u64))
        } by {
            lemma_held_present(tally@, x);
            let w = choose|w: int| 0 <= w < tally@.len() && tally@[w].0 == x;
            lemma_held_at(tally@, w);
            assert(after.contains(before[w]));
            let c = choose|c: int| 0 <= c < after.len() && after[c] == before[w];
            if c < k {
                assert(r@[c] == after[c]);
            }
            assert(c >= k);
            assert(k == keep);
            if keep > 0 {
                assert(r@[keep - 1] == after[keep - 1]);
                if keep - 1 < c {
                    assert(seg_before(after[keep - 1], after[c]));
                }
            }
        }
    }
    r
}

/// Two lists that are each the largest ranks of node `t` agree on the
/// first `i` entries.
proof fn lemma_tops_agree(
    s1: Seq<(u32, u64)>,
    s2: Seq<(u32, u64)>,
    nodes: Seq<Node>,
    metric: SizeMetric,
    ranking: Seq<(Option<Seq<char>>, u64)>,
    t: int,
    k: int,
    keep: int,
    i: int,
)
    requires
        top_ok(s1, nodes, metric, ranking, t, k),
        top_ok(s2, nodes, metric, ranking, t, keep),
        0 <= k <= keep,
        0 <= i <= s1.len(),
        i <= s2.len(),
    ensures
        forall|j: int| 0 <= j < i ==> s1[j] == s2[j],
    decreases i,
{
    if i > 0 {
        lemma_tops_agree(s1, s2, nodes, metric, ranking, t, k, keep, i - 1);
        let j = i - 1;
        let a = s1[j];
        let b = s2[j];
        assert(a.1 as int == amount(nodes, metric, ranking, t, a.0) && a.1 > 0);
        assert(b.1 as int == amount(nodes, metric, ranking, t, b.0) && b.1 > 0);
        if a.0 != b.0 {
            // `b` comes no earlier than `a` in the first list.
            assert(seg_before(a, b)) by {
                if exists|p: int| 0 <= p < s1.len() && s1[p].0 == b.0 {
                    let p = choose|p: int| 0 <= p < s1.len() && s1[p].0 == b.0;
                    if p < j {
                        assert(s2[p] == s1[p]);
                        assert(s2[p].0 != s2[j].0);
                    }
                    assert(p != j);
                    assert(s1[p] == b) by {
                        assert(s1[p].1 as int == amount(nodes, metric, ranking, t, s1[p].0));
                    }
                    assert(seg_before(s1[j], s1[p]));
                } else {
                    assert(amount(nodes, metric, ranking, t, b.0) > 0);
                    assert(s1.len() == k);
                    if j < k - 1 {
                        assert(seg_before(s1[j], s1[k - 1]));
                    }
                    assert(seg_before(s1[k - 1], (b.0, amount(nodes, metric, ranking, t, b.0) as u64)));
                }
            }
            // and `a` no earlier than `b` in the second.
            assert(seg_before(b, a)) by {
                if exists|p: int| 0 <= p < s2.len() && s2[p].0 == a.0 {
                    let p = choose|p: int| 0 <= p < s2.len() && s2[p].0 == a.0;
                    if p < j {
                        assert(s2[p] == s1[p]);
                        assert(s1[p].0 != s1[j].0);
                    }
                    assert(p != j);
                    assert(s2[p] == a) by {
                        assert(s2[p].1 as int == amount(nodes, metric, ranking, t, s2[p].0));
                    }
                    assert(seg_before(s2[j], s2[p]));
                } else {
                    assert(amount(nodes, metric, ranking, t, a.0) > 0);
                    assert(s2.len() == keep);
                    if j < keep - 1 {
                        assert(seg_before(s2[j], s2[keep - 1]));
                    }
                    assert(seg_before(s2[keep - 1], (a.0, amount(nodes, metric, ranking, t, a.0) as u64)));
                }
            }
        }
    }
}

/// Keeping fewer ranks keeps a prefix: for every node, the `k` largest
/// ranks of a breakdown made with `k` are the first ones (as many as
/// there are, up to `k`) of a breakdown of the same tree made with a
/// larger `keep` ([`ExtensionRanking::mix`] gives such breakdowns).
pub proof fn fewer_ranks_keep_a_prefix(
    small: crate::treemap::ExtensionMix,
    large: crate::treemap::ExtensionMix,
    nodes: Seq<Node>,
    metric: SizeMetric,
    ranking: Seq<(Option<Seq<char>>, u64)>,
    k: int,
    keep: int,
)
    requires
        0 <= k <= keep,
        small.spec_segments().len() == nodes.len(),
        large.spec_segments().len() == nodes.len(),
        forall|t: int|
            0 <= t < nodes.len() ==> top_ok(#[trigger] small.spec_segments()[t], nodes, metric, ranking, t, k),
        forall|t: int|
            0 <= t < nodes.len() ==> top_ok(#[trigger] large.spec_segments()[t], nodes, metric, ranking, t, keep),
    ensures
        forall|t: int|
            0 <= t < nodes.len() ==> #[trigger] small.spec_segments()[t] == large.spec_segments()[t].take(
                if k < large.spec_segments()[t].len() {
                    k
                } else {
                    large.spec_segments()[t].len() as int
                },
            ),
{
    assert forall|t: int| 0 <= t < nodes.len() implies #[trigger] small.spec_segments()[t]
        == large.spec_segments()[t].take(
        if k < large.spec_segments()[t].len() {
            k
        } else {
            large.spec_segments()[t].len() as int
        },
    ) by {
        let s1 = small.spec_segments()[t];
        let s2 = large.spec_segments()[t];
        let m = if s1.len() < s2.len() {
            s1.len() as int
        } else {
            s2.len() as int
        };
        lemma_tops_agree(s1, s2, nodes, metric, ranking, t, k, keep, m);
        // The first list is no longer than the second.
        if s1.len() > s2.len() {
            let x = s1[m];
            assert(amount(nodes, metric, ranking, t, x.0) > 0);
            assert forall|p: int| 0 <= p < s2.len() implies s2[p].0 != x.0 by {
                assert(s2[p] == s1[p]);
                assert(s1[p].0 != s1[m].0);
            }
            assert(s2.len() == keep);
        }
        // Shorter than `k` only when the second list has nothing more.
        if s1.len() < k && s2.len() > s1.len() {
            let y = s2[m];
            assert(amount(nodes, metric, ranking, t, y.0) > 0);
            assert forall|p: int| 0 <= p < s1.len() implies s1[p].0 != y.0 by {
                assert(s2[p] == s1[p]);
                assert(s2[p].0 != s2[m].0);
            }
            assert(s1.len() == k);
        }
        assert(s1 =~= s2.take(
            if k < s2.len() {
                k
            } else {
                s2.len() as int
            },
        ));
    }
}

impl ExtensionRanking {
    /// Per-node breakdown of bytes by extension rank, for drawing size
    /// bars as stacked colour segments: for every node, the `keep` ranks
    /// with the most bytes at or below it. Unranked extensions count under
    /// the largest rank. One bottom-up pass: every node's full tally is
    /// merged into its parent's, so totals stay exact, and only the copy
    /// kept for the node is cut to its largest ranks. The tallies must fit
    /// a `u64`.
    pub fn mix(&self, tree: &Tree, keep: usize) -> (r: crate::treemap::ExtensionMix)
        requires
            self.spec_entries().len() < u32::MAX,
            forall|t: int, x: u32|
                0 <= t < tree.spec_nodes().len() ==> #[trigger] amount(
                    tree.spec_nodes(),
                    tree.spec_metric(),
                    self.spec_entries(),
                    t,
                    x,
                ) <= u64::MAX,
        ensures
            r.spec_segments().len() == tree.spec_nodes().len(),
            forall|t: int|
                0 <= t < tree.spec_nodes().len() ==> top_ok(
                    #[trigger] r.spec_segments()[t],
                    tree.spec_nodes(),
                    tree.spec_metric(),
                    self.spec_entries(),
                    t,
                    keep as int,
                ),
    {
        proof {
            use_type_invariant(tree);
        }
        let nodes = tree.nodes();
        let ghost ns = tree.spec_nodes();
        let ghost m = tree.spec_metric();
        let ghost ranking = self.spec_entries();
        let n = nodes.len();
        let mut pending: Vec<Vec<(u32, u64)>> = Vec::new();
        let mut segments: Vec<Vec<(u32, u64)>> = Vec::new();
        for c in 0..n
            invariant
                pending@.len() == c,
                segments@.len() == c,
                forall|p: int| 0 <= p < c ==> (#[trigger] pending@[p])@.len() == 0,
        {
            pending.push(Vec::new());
            segments.push(Vec::new());
        }
        let mut i: usize = n;
        while i > 0
            invariant
                nodes@ == ns,
                ns == tree.spec_nodes(),
                m == tree.spec_metric(),
                ranking == self.spec_entries(),
                ranking.len() < u32::MAX,
                n == ns.len(),
                n <= u32::MAX + 1,
                crate::tree::parents_ok(ns),
                i <= n,
                pending@.len() == n,
                segments@.len() == n,
                forall|t: int, x: u32|
                    0 <= t < ns.len() ==> #[trigger] amount(ns, m, ranking, t, x) <= u64::MAX,
                forall|p: int| 0 <= p < i ==> tally_ok(#[trigger] pending@[p]@),
                forall|p: int, x: u32|
                    0 <= p < i ==> #[trigger] held(pending@[p]@, x) == kids_amount(ns, m, ranking, p, i as int, x),
                forall|u: int| i <= u < n ==> top_ok(#[trigger] segments@[u]@, ns, m, ranking, u, keep as int),
            decreases i,
        {
            let t = i - 1;
            let mut tally: Vec<(u32, u64)> = Vec::new();
            pending.set_and_swap(t, &mut tally);
            let ghost kids = tally@;
            let node = &nodes[t];
            let size = tree.size(crate::tree::NodeId(t as u32));
            if node.kind != Kind::Directory && size > 0 {
                let e = extension_of(node);
                let rank: u32 = match self.rank_of(&e) {
                    Some(k) => k as u32,
                    None => u32::MAX,
                };
                proof {
                    assert(rank == rank_in(ranking, ns[t as int]));
                    assert(held(kids, rank) + size == amount(ns, m, ranking, t as int, rank));
                }
                add_to(&mut tally, rank, size);
            }
            proof {
                assert forall|x: u32| #[trigger] held(tally@, x) == amount(ns, m, ranking, t as int, x) by {
                    assert(held(kids, x) == kids_amount(ns, m, ranking, t as int, i as int, x));
                }
            }
            let kept = top_ranks(&tally, keep);
            segments.set(t, kept);
            proof {
                assert forall|x: u32| #![trigger amount(ns, m, ranking, t as int, x)]
                    amount(ns, m, ranking, t as int, x) == held(tally@, x) by {}
                assert(top_ok(segments@[t as int]@, ns, m, ranking, t as int, keep as int));
            }
            let parent = node.parent;
            match parent {
                Some(q) => {
                    let qi = q.0 as usize;
                    let ghost waiting = pending@;
                    let mut into: Vec<(u32, u64)> = Vec::new();
                    pending.set_and_swap(qi, &mut into);
                    proof {
                        assert(qi < t);
                        assert(into@ == waiting[qi as int]@);
                        assert(crate::tree::is_child(ns, qi as int, t as int));
                        assert forall|x: u32| #[trigger] held(into@, x) + held(tally@, x) <= u64::MAX by {
                            assert(held(into@, x) == kids_amount(ns, m, ranking, qi as int, i as int, x));
                            assert(amount(ns, m, ranking, qi as int, x) <= u64::MAX);
                            lemma_kids_fewer(ns, m, ranking, qi as int, qi + 1, t as int, x);
                            assert(kids_amount(ns, m, ranking, qi as int, t as int, x) == amount(ns, m, ranking, t as int, x)
                                + kids_amount(ns, m, ranking, qi as int, i as int, x));
                            assert(own_amount(ns, m, ranking, qi as int, x) >= 0);
                        }
                    }
                    merge_into(&mut into, &tally);
                    pending.set_and_swap(qi, &mut into);
                },
                None => {},
            }
            proof {
                assert forall|p: int| 0 <= p < t implies tally_ok(#[trigger] pending@[p]@) by {}
                assert forall|p: int, x: u32| 0 <= p < t implies #[trigger] held(pending@[p]@, x) == kids_amount(
                    ns,
                    m,
                    ranking,
                    p,
                    t as int,
                    x,
                ) by {
                    assert(kids_amount(ns, m, ranking, p, t as int, x) == (if crate::tree::is_child(ns, p, t as int) {
                        amount(ns, m, ranking, t as int, x)
                    } else {
                        0
                    }) + kids_amount(ns, m, ranking, p, i as int, x));
                }
                assert forall|u: int| t <= u < n implies top_ok(#[trigger] segments@[u]@, ns, m, ranking, u, keep as int) by {}
            }
            i = t;
        }
        crate::treemap::ExtensionMix::new(segments)
    }
}

proof fn lemma_absent_is_zero(nodes: Seq<Node>, metric: SizeMetric, e: Option<Seq<char>>, n: int)
    requires
        !has_ext(nodes, e, n),
    ensures
        ext_total(nodes, metric, e, n) == 0,
    decreases n,
{
    if 0 < n <= nodes.len() {
        assert(!has_ext(nodes, e, n - 1)) by {
            if has_ext(nodes, e, n - 1) {
                let w = choose|w: int| 0 <= w < n - 1 && w < nodes.len() && counted(nodes[w]) && #[trigger] node_extension(
                    nodes[w].name@,
                ) == e;
                assert(0 <= w < n);
            }
        }
        lemma_absent_is_zero(nodes, metric, e, n - 1);
        if counted(nodes[n - 1]) && node_extension(nodes[n - 1].name@) == e {
            assert(0 <= n - 1 < n);
        }
    }
}

/// How the legend names an extension: with its dot, or `(none)` for files
/// without one.
pub open spec fn legend_label_spec(ext: Option<Seq<char>>) -> Seq<char> {
    match ext {
        Some(e) => seq!['.'] + e,
        None => "(none)"@,
    }
}

/// The legend's name for `ext` (see [`legend_label_spec`]).
pub fn legend_label(ext: Option<&str>) -> (r: String)
    ensures
        r@ == legend_label_spec(
            match ext {
                Some(e) => Some(e@),
                None => None,
            },
        ),
{
    match ext {
        Some(e) => {
            let mut text = String::new();
            crate::text::push_char(&mut text, '.');
            text.append(e);
            proof {
                assert(text@ =~= seq!['.'] + e@);
            }
            text
        },
        None => "(none)".to_owned(),
    }
}

} // verus!
