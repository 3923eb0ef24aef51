//! The boxes of a rendered treemap and the lookups over them: which node
//! is under a pixel, where a node's box is, and the run of boxes below a
//! node. The pixels themselves are the renderer's.

use crate::fold::{map_get, map_insert, map_new};
use crate::paths::same_chars;
use crate::text::chars_of;
use crate::tree::{Node, NodeId, Tree};
use crate::treemap::{extension_of, node_extension};
use crate::treemap::Rect;
use vstd::prelude::*;

verus! {

broadcast use vstd::std_specs::hash::group_hash_axioms;

/// Size of a hit-test grid cell in pixels.
pub const GRID_CELL: i32 = 16;

/// A node that got a box in a rendered treemap.
#[derive(Clone, Copy, Debug, PartialEq, Eq, Structural)]
pub struct ItemBox {
    /// The node this box shows.
    pub node: NodeId,
    /// The node's box in image pixels, grid line included.
    pub rect: Rect,
    /// Levels below the rendered root, which is 0.
    pub depth: u32,
    /// No visible descendants, so hit tests land here.
    pub leaf: bool,
}

/// Boxes as the renderer records them: the rendered root first, then
/// each box before the boxes inside it, one level deeper at most from one
/// box to the next.
pub open spec fn depths_ok(items: Seq<ItemBox>) -> bool {
    &&& items.len() > 0 ==> items[0].depth == 0
    &&& forall|i: int| 0 < i < items.len() ==> #[trigger] items[i].depth <= items[i - 1].depth + 1
}

/// Whether a box lies within a `width` × `height` image.
pub open spec fn inside(r: Rect, width: int, height: int) -> bool {
    0 <= r.left <= r.right <= width && 0 <= r.top <= r.bottom <= height
}

/// Whether box `k` has boxes inside it: the next box is deeper.
pub open spec fn has_inner(items: Seq<ItemBox>, k: int) -> bool {
    k + 1 < items.len() && items[k + 1].depth > items[k].depth
}

/// Box `k` with its leaf flag cleared when it has boxes inside it.
pub open spec fn settled(items: Seq<ItemBox>, k: int) -> ItemBox {
    ItemBox { leaf: items[k].leaf && !has_inner(items, k), ..items[k] }
}

/// Whether box `k` takes part in hit tests: a leaf that covers a pixel.
pub open spec fn hittable(items: Seq<ItemBox>, k: int) -> bool {
    &&& settled(items, k).leaf
    &&& items[k].rect.right - items[k].rect.left > 0
    &&& items[k].rect.bottom - items[k].rect.top > 0
}

/// Whether box `r` reaches into grid cell (`row`, `col`).
pub open spec fn covers(r: Rect, row: int, col: int) -> bool {
    &&& r.left / 16 <= col <= (r.right - 1) / 16
    &&& r.top / 16 <= row <= (r.bottom - 1) / 16
}

/// The boxes among the first `n` that take part in hit tests and reach
/// into cell (`row`, `col`), in order.
pub open spec fn cell_boxes(items: Seq<ItemBox>, row: int, col: int, n: int) -> Seq<u32>
    decreases n,
{
    if n <= 0 || n > items.len() {
        seq![]
    } else {
        cell_boxes(items, row, col, n - 1) + if hittable(items, n - 1) && covers(items[n - 1].rect, row, col) {
            seq![(n - 1) as u32]
        } else {
            seq![]
        }
    }
}

/// The deepest box among the first `n` that takes part in hit tests and
/// holds pixel (`x`, `y`); the last of them when several are as deep.
pub open spec fn deepest(items: Seq<ItemBox>, x: int, y: int, n: int) -> Option<int>
    decreases n,
{
    if n <= 0 || n > items.len() {
        None
    } else {
        let k = n - 1;
        let before = deepest(items, x, y, n - 1);
        if hittable(items, k) && items[k].rect.left <= x < items[k].rect.right && items[k].rect.top <= y
            < items[k].rect.bottom {
            match before {
                Some(b) => if items[k].depth >= items[b].depth {
                    Some(k)
                } else {
                    before
                },
                None => Some(k),
            }
        } else {
            before
        }
    }
}

/// The last of the first `n` boxes that shows node `id`.
pub open spec fn last_box(items: Seq<ItemBox>, id: u32, n: int) -> Option<int>
    decreases n,
{
    if n <= 0 || n > items.len() {
        None
    } else if items[n - 1].node.0 == id {
        Some(n - 1)
    } else {
        last_box(items, id, n - 1)
    }
}

/// Grid cells per row for an image `width` pixels wide.
pub open spec fn grid_span(width: int) -> int {
    if (width + 15) / 16 >= 1 {
        (width + 15) / 16
    } else {
        1
    }
}

/// The boxes of a rendered treemap with a grid of the leaves for hit tests
/// and a map from nodes to their boxes.
#[derive(Debug)]
pub struct Treemap {
    width: u32,
    height: u32,
    /// Parents precede their descendants.
    items: Vec<ItemBox>,
    /// Leaf box indices per cell, row-major.
    grid: Vec<Vec<u32>>,
    /// Cells per row of `grid`.
    columns: usize,
    /// Node to the index of its box.
    index: foldhash::HashMap<u32, u32>,
}

impl Treemap {
    /// Image width in pixels.
    pub closed spec fn spec_width(&self) -> u32 {
        self.width
    }

    /// Image height in pixels.
    pub closed spec fn spec_height(&self) -> u32 {
        self.height
    }

    /// The boxes, parents first.
    pub closed spec fn spec_items(&self) -> Seq<ItemBox> {
        self.items@
    }

    /// The grid and the node map agree with the boxes.
    #[verifier::type_invariant]
    spec fn inv(self) -> bool {
        let items = self.items@;
        let columns = grid_span(self.width as int);
        let rows = grid_span(self.height as int);
        &&& self.width <= i32::MAX
        &&& self.height <= i32::MAX
        &&& items.len() <= u32::MAX
        &&& self.columns == columns
        &&& columns * rows <= usize::MAX
        &&& self.grid@.len() == columns * rows
        &&& forall|k: int| 0 <= k < items.len() ==> inside(#[trigger] items[k].rect, self.width as int, self.height as int)
        &&& forall|k: int| 0 <= k < items.len() ==> !has_inner(items, k) || !(#[trigger] items[k]).leaf
        &&& forall|c: int|
            0 <= c < self.grid@.len() ==> (#[trigger] self.grid@[c])@ == cell_boxes(
                items,
                c / columns,
                c % columns,
                items.len() as int,
            )
        &&& forall|id: u32|
            #[trigger] self.index@.contains_key(id) <==> last_box(items, id, items.len() as int) is Some
        &&& forall|id: u32|
            self.index@.contains_key(id) ==> #[trigger] self.index@[id] as int == last_box(
                items,
                id,
                items.len() as int,
            )->0
    }
}

/// Clear the leaf flag of every box with boxes inside it, as one pass
/// that keeps the last box seen at each depth: the box before a deeper
/// one is its parent.
fn settle(items: &mut Vec<ItemBox>)
    requires
        depths_ok(old(items)@),
    ensures
        final(items)@.len() == old(items)@.len(),
        forall|k: int| 0 <= k < old(items)@.len() ==> #[trigger] final(items)@[k] == settled(old(items)@, k),
{
    let ghost start = items@;
    let n = items.len();
    // The last box seen at each depth, from the top down.
    let mut last_at_depth: Vec<usize> = Vec::new();
    let mut i: usize = 0;
    while i < n
        invariant
            n == start.len(),
            items@.len() == n,
            depths_ok(start),
            i <= n,
            i == 0 ==> last_at_depth@.len() == 0,
            i > 0 ==> last_at_depth@.len() == start[i - 1].depth + 1,
            forall|d: int| #![trigger last_at_depth@[d]]
                0 <= d < last_at_depth@.len() ==> {
                    let p = last_at_depth@[d] as int;
                    &&& 0 <= p < i
                    &&& start[p].depth == d
                    &&& forall|j: int| p < j < i ==> #[trigger] start[j].depth > d
                },
            forall|k: int|
                0 <= k < i ==> #[trigger] items@[k] == (ItemBox {
                    leaf: start[k].leaf && !(k + 1 < i && start[k + 1].depth > start[k].depth),
                    ..start[k]
                }),
            forall|k: int| i <= k < n ==> #[trigger] items@[k] == start[k],
        decreases n - i,
    {
        let depth = items[i].depth as usize;
        proof {
            if i > 0 {
                assert(start[i as int].depth <= start[i - 1].depth + 1);
            }
        }
        last_at_depth.truncate(depth);
        if depth > 0 {
            let parent = last_at_depth[depth - 1];
            let mut entry = items[parent];
            proof {
                let p = parent as int;
                assert(start[p].depth == depth - 1);
                if p + 1 < i {
                    assert(start[p + 1].depth > start[p].depth);
                }
            }
            entry.leaf = false;
            items.set(parent, entry);
        }
        last_at_depth.push(i);
        proof {
            assert forall|k: int| 0 <= k < i + 1 implies #[trigger] items@[k] == (ItemBox {
                leaf: start[k].leaf && !(k + 1 < i + 1 && start[k + 1].depth > start[k].depth),
                ..start[k]
            }) by {
                if k == i - 1 && depth > 0 && last_at_depth@[depth - 1] as int != k {
                    // The parent lies further back: this box is not deeper than the next.
                    let p = last_at_depth@[depth - 1] as int;
                    assert(p < k);
                    assert(start[k].depth > depth - 1);
                }
            }
            assert forall|d: int| #![trigger last_at_depth@[d]]
                0 <= d < last_at_depth@.len() implies {
                    let p = last_at_depth@[d] as int;
                    &&& 0 <= p < i + 1
                    &&& start[p].depth == d
                    &&& forall|j: int| p < j < i + 1 ==> #[trigger] start[j].depth > d
                } by {
                if d < depth {
                    let p = last_at_depth@[d] as int;
                    assert forall|j: int| p < j < i + 1 implies #[trigger] start[j].depth > d by {
                        if j == i {
                            assert(start[j].depth == depth);
                        }
                    }
                }
            }
        }
        i = i + 1;
    }
    proof {
        assert forall|k: int| 0 <= k < n implies #[trigger] items@[k] == settled(start, k) by {}
    }
}

/// The node map: each node to the index of its last box.
fn index_of(items: &Vec<ItemBox>) -> (r: foldhash::HashMap<u32, u32>)
    requires
        items@.len() <= u32::MAX,
    ensures
        forall|id: u32| #[trigger] r@.contains_key(id) <==> last_box(items@, id, items@.len() as int) is Some,
        forall|id: u32|
            r@.contains_key(id) ==> #[trigger] r@[id] as int == last_box(items@, id, items@.len() as int)->0,
{
    let mut m: foldhash::HashMap<u32, u32> = map_new();
    let mut k: usize = 0;
    while k < items.len()
        invariant
            k <= items@.len(),
            items@.len() <= u32::MAX,
            forall|id: u32| #[trigger] m@.contains_key(id) <==> last_box(items@, id, k as int) is Some,
            forall|id: u32| m@.contains_key(id) ==> #[trigger] m@[id] as int == last_box(items@, id, k as int)->0,
        decreases items@.len() - k,
    {
        map_insert(&mut m, items[k].node.0, k as u32);
        k = k + 1;
    }
    m
}

proof fn lemma_cell(columns: int, row: int, col: int)
    requires
        columns > 0,
        row >= 0,
        0 <= col < columns,
    ensures
        (row * columns + col) / columns == row,
        (row * columns + col) % columns == col,
{
    vstd::arithmetic::div_mod::lemma_fundamental_div_mod_converse(row * columns + col, columns, row, col);
}

proof fn lemma_cell_bound(columns: int, rows: int, row: int, col: int)
    requires
        columns > 0,
        0 <= row < rows,
        0 <= col < columns,
    ensures
        0 <= row * columns + col < rows * columns,
        rows * columns == columns * rows,
{
    assert(row * columns + col < rows * columns) by (nonlinear_arith)
        requires
            columns > 0,
            0 <= row < rows,
            0 <= col < columns,
    ;
    assert(row * columns >= 0) by (nonlinear_arith)
        requires
            columns > 0,
            0 <= row,
    ;
    assert(rows * columns == columns * rows) by (nonlinear_arith);
}

/// The hit-test grid of settled boxes in a `width` × `height` image, and
/// its cells per row.
fn grid_of(items: &Vec<ItemBox>, width: u32, height: u32) -> (r: (Vec<Vec<u32>>, usize))
    requires
        width <= i32::MAX,
        height <= i32::MAX,
        items@.len() <= u32::MAX,
        grid_span(width as int) * grid_span(height as int) <= usize::MAX,
        forall|k: int| 0 <= k < items@.len() ==> inside(#[trigger] items@[k].rect, width as int, height as int),
        forall|k: int| 0 <= k < items@.len() ==> !has_inner(items@, k) || !(#[trigger] items@[k]).leaf,
    ensures
        r.1 == grid_span(width as int),
        r.0@.len() == grid_span(width as int) * grid_span(height as int),
        forall|c: int|
            0 <= c < r.0@.len() ==> (#[trigger] r.0@[c])@ == cell_boxes(
                items@,
                c / grid_span(width as int),
                c % grid_span(width as int),
                items@.len() as int,
            ),
{
    let ghost its = items@;
    let span_w = (width as u64 + 15) / 16;
    let columns: usize = if span_w >= 1 { span_w as usize } else { 1 };
    let span_h = (height as u64 + 15) / 16;
    let rows: usize = if span_h >= 1 { span_h as usize } else { 1 };
    let ghost cols = columns as int;
    assert(columns as int == grid_span(width as int));
    assert(rows as int == grid_span(height as int));
    let cells = columns * rows;
    let mut grid: Vec<Vec<u32>> = Vec::new();
    let mut c: usize = 0;
    while c < cells
        invariant
            c <= cells,
            grid@.len() == c,
            forall|e: int| 0 <= e < c ==> (#[trigger] grid@[e])@ == Seq::<u32>::empty(),
        decreases cells - c,
    {
        grid.push(Vec::new());
        c = c + 1;
    }
    proof {
        assert forall|e: int| 0 <= e < grid@.len() implies (#[trigger] grid@[e])@ == cell_boxes(
            its,
            e / cols,
            e % cols,
            0,
        ) by {}
    }
    let n = items.len();
    let mut k: usize = 0;
    while k < n
        invariant
            its == items@,
            n == its.len(),
            k <= n,
            columns as int == cols,
            cols == grid_span(width as int),
            rows as int == grid_span(height as int),
            cells == columns * rows,
            grid@.len() == cells,
            width <= i32::MAX,
            height <= i32::MAX,
            n <= u32::MAX,
            forall|j: int| 0 <= j < its.len() ==> inside(#[trigger] its[j].rect, width as int, height as int),
            forall|j: int| 0 <= j < its.len() ==> !has_inner(its, j) || !(#[trigger] its[j]).leaf,
            forall|e: int| 0 <= e < grid@.len() ==> (#[trigger] grid@[e])@ == cell_boxes(its, e / cols, e % cols, k as int),
        decreases n - k,
    {
        let item = items[k];
        let r = item.rect;
        proof {
            assert(inside(its[k as int].rect, width as int, height as int));
        }
        if item.leaf && r.right - r.left > 0 && r.bottom - r.top > 0 {
            let c0 = (r.left / 16) as usize;
            let c1 = ((r.right - 1) / 16) as usize;
            let r0 = (r.top / 16) as usize;
            let r1 = ((r.bottom - 1) / 16) as usize;
            proof {
                assert(hittable(its, k as int));
                assert(c1 < columns);
                assert(r1 < rows);
            }
            let ghost before = grid@;
            let mut row = r0;
            while row <= r1
                invariant
                    its == items@,
                    n == its.len(),
                    k < n,
                    n <= u32::MAX,
                    r == its[k as int].rect,
                    hittable(its, k as int),
                    columns as int == cols,
                    cols > 0,
                    rows as int == grid_span(height as int),
                    cells == columns * rows,
                    grid@.len() == cells,
                    before.len() == cells,
                    c0 as int == r.left / 16,
                    c1 as int == (r.right - 1) / 16,
                    r0 as int == r.top / 16,
                    r1 as int == (r.bottom - 1) / 16,
                    c1 < columns,
                    r1 < rows,
                    r0 <= row <= r1 + 1,
                    forall|e: int| 0 <= e < before.len() ==> (#[trigger] before[e])@ == cell_boxes(its, e / cols, e % cols, k as int),
                    forall|e: int|
                        0 <= e < grid@.len() ==> (#[trigger] grid@[e])@ == before[e]@ + if e / cols < row && covers(
                            r,
                            e / cols,
                            e % cols,
                        ) {
                            seq![k as u32]
                        } else {
                            seq![]
                        },
                decreases r1 + 1 - row,
            {
                let mut col = c0;
                while col <= c1
                    invariant
                        columns as int == cols,
                        cols > 0,
                        rows as int == grid_span(height as int),
                        cells == columns * rows,
                        grid@.len() == cells,
                        before.len() == cells,
                        c0 as int == r.left / 16,
                        c1 as int == (r.right - 1) / 16,
                        r0 as int == r.top / 16,
                        r1 as int == (r.bottom - 1) / 16,
                        c1 < columns,
                        r1 < rows,
                        r0 <= row <= r1,
                        c0 <= col <= c1 + 1,
                        forall|e: int|
                            0 <= e < grid@.len() ==> (#[trigger] grid@[e])@ == before[e]@ + if (e / cols < row || (e / cols
                                == row && e % cols < col)) && covers(r, e / cols, e % cols) {
                                seq![k as u32]
                            } else {
                                seq![]
                            },
                    decreases c1 + 1 - col,
                {
                    proof {
                        lemma_cell(cols, row as int, col as int);
                        lemma_cell_bound(cols, rows as int, row as int, col as int);
                    }
                    let cell = row * columns + col;
                    let mut list: Vec<u32> = Vec::new();
                    grid.set_and_swap(cell, &mut list);
                    list.push(k as u32);
                    grid.set_and_swap(cell, &mut list);
                    proof {
                        assert forall|e: int| 0 <= e < grid@.len() implies (#[trigger] grid@[e])@ == before[e]@ + if (e
                            / cols < row || (e / cols == row && e % cols < col + 1)) && covers(r, e / cols, e % cols) {
                            seq![k as u32]
                        } else {
                            seq![]
                        } by {
                            if e != cell as int {
                                if e / cols == row && e % cols == col {
                                    vstd::arithmetic::div_mod::lemma_fundamental_div_mod(e, cols);
                                    assert(cols * (e / cols) == (row as int) * cols) by (nonlinear_arith)
                                        requires
                                            e / cols == row,
                                    ;
                                    assert(e == row * cols + col);
                                }
                            }
                        }
                    }
                    col = col + 1;
                }
                row = row + 1;
            }
            proof {
                assert forall|e: int| 0 <= e < grid@.len() implies (#[trigger] grid@[e])@ == cell_boxes(
                    its,
                    e / cols,
                    e % cols,
                    k + 1,
                ) by {
                    assert(before[e]@ == cell_boxes(its, e / cols, e % cols, k as int));
                }
            }
        } else {
            proof {
                assert(!hittable(its, k as int));
                assert forall|e: int| 0 <= e < grid@.len() implies (#[trigger] grid@[e])@ == cell_boxes(
                    its,
                    e / cols,
                    e % cols,
                    k + 1,
                ) by {}
            }
        }
        k = k + 1;
    }
    (grid, columns)
}

/// What picking the deepest box holding pixel (`x`, `y`) among the boxes
/// listed in `list`, in order, gives: the last of the deepest.
pub open spec fn pick(items: Seq<ItemBox>, list: Seq<u32>, x: int, y: int) -> Option<int>
    decreases list.len(),
{
    if list.len() == 0 {
        None
    } else {
        let k = list.last() as int;
        let before = pick(items, list.drop_last(), x, y);
        if 0 <= k < items.len() && items[k].rect.left <= x < items[k].rect.right && items[k].rect.top <= y
            < items[k].rect.bottom {
            match before {
                Some(b) => if items[k].depth >= items[b].depth {
                    Some(k)
                } else {
                    before
                },
                None => Some(k),
            }
        } else {
            before
        }
    }
}

/// Every box holding a pixel reaches into the pixel's cell, so picking
/// among the boxes of that cell finds the deepest box at the pixel.
proof fn lemma_pick_cell(items: Seq<ItemBox>, x: int, y: int, m: int)
    requires
        items.len() <= u32::MAX,
        0 <= x,
        0 <= y,
        0 <= m <= items.len(),
        forall|k: int| 0 <= k < items.len() ==> 0 <= (#[trigger] items[k].rect).left && 0 <= items[k].rect.top,
    ensures
        pick(items, cell_boxes(items, y / 16, x / 16, m), x, y) == deepest(items, x, y, m),
        forall|j: int| 0 <= j < cell_boxes(items, y / 16, x / 16, m).len() ==> (#[trigger] cell_boxes(items, y / 16, x / 16, m)[j]) < m,
    decreases m,
{
    if m > 0 {
        lemma_pick_cell(items, x, y, m - 1);
        let k = m - 1;
        let prev = cell_boxes(items, y / 16, x / 16, m - 1);
        let r = items[k].rect;
        if hittable(items, k) && r.left <= x < r.right && r.top <= y < r.bottom {
            assert(r.left / 16 <= x / 16 <= (r.right - 1) / 16) by (nonlinear_arith)
                requires
                    0 <= r.left <= x < r.right,
            ;
            assert(r.top / 16 <= y / 16 <= (r.bottom - 1) / 16) by (nonlinear_arith)
                requires
                    0 <= r.top <= y < r.bottom,
            ;
            assert(covers(r, y / 16, x / 16));
        }
        let now = cell_boxes(items, y / 16, x / 16, m);
        if hittable(items, k) && covers(r, y / 16, x / 16) {
            assert(now == prev.push(k as u32));
            assert(now.drop_last() =~= prev);
            assert(now.last() == k as u32);
        } else {
            assert(now =~= prev);
        }
    }
}

proof fn lemma_pick_range(items: Seq<ItemBox>, list: Seq<u32>, x: int, y: int)
    ensures
        pick(items, list, x, y) matches Some(k) ==> 0 <= k < items.len(),
    decreases list.len(),
{
    if list.len() > 0 {
        lemma_pick_range(items, list.drop_last(), x, y);
    }
}

/// The index just past the run of boxes inside box `start`, looking from
/// `j` on: the first box no deeper than it, or the end.
pub open spec fn run_end(items: Seq<ItemBox>, start: int, j: int) -> int
    decreases items.len() - j,
{
    if j < 0 || j >= items.len() {
        items.len() as int
    } else if items[j].depth <= items[start].depth {
        j
    } else {
        run_end(items, start, j + 1)
    }
}

impl Treemap {
    /// The boxes of a `width` × `height` treemap, as the renderer recorded
    /// them, with the leaf flag of every box that has boxes inside it
    /// cleared, a hit-test grid of `GRID_CELL`-pixel cells and the node
    /// map. The grid must fit in memory.
    pub fn new(width: u32, height: u32, items: Vec<ItemBox>) -> (r: Treemap)
        requires
            width <= i32::MAX,
            height <= i32::MAX,
            items@.len() <= u32::MAX,
            grid_span(width as int) * grid_span(height as int) <= usize::MAX,
            depths_ok(items@),
            forall|k: int| 0 <= k < items@.len() ==> inside(#[trigger] items@[k].rect, width as int, height as int),
        ensures
            r.spec_width() == width,
            r.spec_height() == height,
            r.spec_items().len() == items@.len(),
            forall|k: int| 0 <= k < items@.len() ==> #[trigger] r.spec_items()[k] == settled(items@, k),
    {
        let ghost start = items@;
        let mut items = items;
        settle(&mut items);
        proof {
            assert forall|k: int| 0 <= k < items@.len() implies !has_inner(items@, k) || !(#[trigger] items@[k]).leaf by {
                assert(items@[k] == settled(start, k));
                if k + 1 < items@.len() {
                    assert(items@[k + 1] == settled(start, k + 1));
                }
            }
            assert forall|k: int| 0 <= k < items@.len() implies inside(#[trigger] items@[k].rect, width as int, height as int) by {
                assert(items@[k] == settled(start, k));
            }
        }
        let (grid, columns) = grid_of(&items, width, height);
        let index = index_of(&items);
        Treemap { width, height, items, grid, columns, index }
    }

    /// Image width in pixels.
    pub fn width(&self) -> (r: u32)
        ensures
            r == self.spec_width(),
    {
        self.width
    }

    /// Image height in pixels.
    pub fn height(&self) -> (r: u32)
        ensures
            r == self.spec_height(),
    {
        self.height
    }

    /// The boxes, parents first.
    pub fn items(&self) -> (r: &[ItemBox])
        ensures
            r@ == self.spec_items(),
    {
        self.items.as_slice()
    }

    /// Deepest visible node at a pixel, found through the grid; `None`
    /// outside the image or where no leaf box is.
    pub fn hit_test(&self, x: i32, y: i32) -> (r: Option<NodeId>)
        ensures
            r == (if 0 <= x < self.spec_width() && 0 <= y < self.spec_height() {
                match deepest(self.spec_items(), x as int, y as int, self.spec_items().len() as int) {
                    Some(k) => Some(self.spec_items()[k].node),
                    None => None,
                }
            } else {
                None
            }),
    {
        proof {
            use_type_invariant(self);
        }
        if x < 0 || y < 0 || x >= self.width as i32 || y >= self.height as i32 {
            return None;
        }
        let ghost items = self.items@;
        let ghost cols = self.columns as int;
        let ghost rows = grid_span(self.height as int);
        let row = (y / 16) as usize;
        let col = (x / 16) as usize;
        proof {
            assert(y / 16 < rows) by (nonlinear_arith)
                requires
                    0 <= y < self.height,
                    rows == grid_span(self.height as int),
            ;
            assert(x / 16 < cols) by (nonlinear_arith)
                requires
                    0 <= x < self.width,
                    cols == grid_span(self.width as int),
            ;
            lemma_cell(cols, row as int, col as int);
            lemma_cell_bound(cols, rows, row as int, col as int);
        }
        let cell = row * self.columns + col;
        let list = &self.grid[cell];
        proof {
            assert(list@ == cell_boxes(items, row as int, col as int, items.len() as int));
            assert forall|k: int| 0 <= k < items.len() implies 0 <= (#[trigger] items[k].rect).left && 0
                <= items[k].rect.top by {
                assert(inside(items[k].rect, self.width as int, self.height as int));
            }
            lemma_pick_cell(items, x as int, y as int, items.len() as int);
        }
        let mut best: Option<usize> = None;
        let mut j: usize = 0;
        while j < list.len()
            invariant
                j <= list@.len(),
                items == self.items@,
                items.len() <= u32::MAX,
                list@ == cell_boxes(items, y / 16, x / 16, items.len() as int),
                forall|e: int| 0 <= e < list@.len() ==> (#[trigger] list@[e]) < items.len(),
                best matches Some(b) ==> b < items.len(),
                match pick(items, list@.take(j as int), x as int, y as int) {
                    Some(b) => best == Some(b as usize),
                    None => best is None,
                },
            decreases list@.len() - j,
        {
            let i = list[j] as usize;
            let item = &self.items[i];
            let ghost t = list@.take(j + 1);
            let ghost before = pick(items, list@.take(j as int), x as int, y as int);
            proof {
                assert(t.drop_last() =~= list@.take(j as int));
                assert(t.last() == list@[j as int]);
                assert(i as int == list@[j as int] as int);
                lemma_pick_range(items, list@.take(j as int), x as int, y as int);
            }
            if item.rect.contains(x, y) {
                match best {
                    Some(b) => {
                        assert(before == Some(b as int));
                        if item.depth >= self.items[b].depth {
                            best = Some(i);
                            assert(pick(items, t, x as int, y as int) == Some(i as int));
                        } else {
                            assert(pick(items, t, x as int, y as int) == Some(b as int));
                        }
                    },
                    None => {
                        best = Some(i);
                        assert(pick(items, t, x as int, y as int) == Some(i as int));
                    },
                }
            } else {
                assert(pick(items, t, x as int, y as int) == before);
            }
            j = j + 1;
        }
        assert(list@.take(list@.len() as int) =~= list@);
        assert(pick(items, list@, x as int, y as int) == deepest(items, x as int, y as int, items.len() as int));
        proof {
            lemma_pick_range(items, list@, x as int, y as int);
        }
        match best {
            Some(b) => {
                assert(deepest(items, x as int, y as int, items.len() as int) == Some(b as int));
                Some(self.items[b].node)
            },
            None => None,
        }
    }

    /// Index into [`Treemap::items`] of `node`'s box, if it is on screen.
    pub fn item_index(&self, node: NodeId) -> (r: Option<usize>)
        ensures
            r == match last_box(self.spec_items(), node.0, self.spec_items().len() as int) {
                Some(k) => Some(k as usize),
                None => None,
            },
    {
        proof {
            use_type_invariant(self);
        }
        match map_get(&self.index, &node.0) {
            Some(i) => Some(i as usize),
            None => None,
        }
    }

    /// `node`'s box, if it is on screen.
    pub fn item(&self, node: NodeId) -> (r: Option<&ItemBox>)
        ensures
            match last_box(self.spec_items(), node.0, self.spec_items().len() as int) {
                Some(k) => r == Some(&self.spec_items()[k]),
                None => r is None,
            },
    {
        proof {
            use_type_invariant(self);
        }
        match self.item_index(node) {
            Some(i) => {
                proof {
                    lemma_last_box(self.items@, node.0, self.items@.len() as int);
                }
                Some(&self.items[i])
            },
            None => None,
        }
    }

    /// Boxes under `node` on screen, `node`'s first, in drawing order:
    /// boxes are stored parents first, so a subtree is one run.
    pub fn subtree(&self, node: NodeId) -> (r: &[ItemBox])
        ensures
            r@ == match last_box(self.spec_items(), node.0, self.spec_items().len() as int) {
                Some(k) => self.spec_items().subrange(k, run_end(self.spec_items(), k, k + 1)),
                None => Seq::<ItemBox>::empty(),
            },
    {
        proof {
            use_type_invariant(self);
        }
        let start = match self.item_index(node) {
            Some(i) => i,
            None => {
                let empty: &[ItemBox] = &[];
                assert(empty@ =~= Seq::<ItemBox>::empty());
                return empty;
            },
        };
        proof {
            lemma_last_box(self.items@, node.0, self.items@.len() as int);
        }
        let depth = self.items[start].depth;
        let mut end = start + 1;
        while end < self.items.len() && self.items[end].depth > depth
            invariant
                start < self.items@.len(),
                depth == self.items@[start as int].depth,
                start < end <= self.items@.len(),
                run_end(self.items@, start as int, end as int) == run_end(self.items@, start as int, start + 1),
            decreases self.items@.len() - end,
        {
            end = end + 1;
        }
        vstd::slice::slice_subrange(self.items.as_slice(), start, end)
    }
}

/// The leaf boxes among boxes `from` up to `to`, by index, in order.
pub open spec fn leaves_between(items: Seq<ItemBox>, from: int, to: int) -> Seq<usize>
    decreases to - from,
{
    if to <= from {
        seq![]
    } else {
        leaves_between(items, from, to - 1) + if items[to - 1].leaf {
            seq![(to - 1) as usize]
        } else {
            seq![]
        }
    }
}

/// The leaf boxes among the first `n` whose node, one of `nodes`, has the
/// extension `ext`, by index, in order.
pub open spec fn extension_leaves_spec(items: Seq<ItemBox>, nodes: Seq<Node>, ext: Option<Seq<char>>, n: int) -> Seq<
    usize,
>
    decreases n,
{
    if n <= 0 {
        seq![]
    } else {
        let item = items[n - 1];
        extension_leaves_spec(items, nodes, ext, n - 1) + if item.leaf && (item.node.0 as int) < nodes.len()
            && node_extension(nodes[item.node.0 as int].name@) == ext {
            seq![(n - 1) as usize]
        } else {
            seq![]
        }
    }
}

/// The smallest rectangle holding both `a` and `b`.
pub open spec fn union_spec(a: Rect, b: Rect) -> Rect {
    Rect {
        left: if a.left <= b.left { a.left } else { b.left },
        top: if a.top <= b.top { a.top } else { b.top },
        right: if a.right >= b.right { a.right } else { b.right },
        bottom: if a.bottom >= b.bottom { a.bottom } else { b.bottom },
    }
}

/// The region covering `start` and the boxes `leaves` that cover a pixel.
pub open spec fn cover(items: Seq<ItemBox>, leaves: Seq<usize>, start: Option<Rect>) -> Option<Rect>
    decreases leaves.len(),
{
    if leaves.len() == 0 {
        start
    } else {
        let before = cover(items, leaves.drop_last(), start);
        let r = items[leaves.last() as int].rect;
        if r.right - r.left <= 0 || r.bottom - r.top <= 0 {
            before
        } else {
            match before {
                Some(b) => Some(union_spec(b, r)),
                None => Some(r),
            }
        }
    }
}

/// The smallest rectangle holding both `a` and `b`.
pub fn union(a: Rect, b: Rect) -> (r: Rect)
    ensures
        r == union_spec(a, b),
{
    Rect {
        left: if a.left <= b.left {
            a.left
        } else {
            b.left
        },
        top: if a.top <= b.top {
            a.top
        } else {
            b.top
        },
        right: if a.right >= b.right {
            a.right
        } else {
            b.right
        },
        bottom: if a.bottom >= b.bottom {
            a.bottom
        } else {
            b.bottom
        },
    }
}

impl Treemap {
    /// The leaf boxes under `node`, by index: those of [`Treemap::subtree`]
    /// that are leaves. Highlighting a folder lights these.
    pub fn subtree_leaves(&self, node: NodeId) -> (r: Vec<usize>)
        ensures
            r@ == match last_box(self.spec_items(), node.0, self.spec_items().len() as int) {
                Some(k) => leaves_between(self.spec_items(), k, run_end(self.spec_items(), k, k + 1)),
                None => Seq::<usize>::empty(),
            },
    {
        let mut out: Vec<usize> = Vec::new();
        let start = match self.item_index(node) {
            Some(i) => i,
            None => return out,
        };
        let run = self.subtree(node);
        proof {
            use_type_invariant(self);
            let items = self.spec_items();
            lemma_last_box(items, node.0, items.len() as int);
            let k = last_box(items, node.0, items.len() as int)->0;
            assert(k == start as int);
            lemma_run_end_bound(items, k, k + 1);
        }
        let mut j: usize = 0;
        while j < run.len()
            invariant
                start < self.spec_items().len(),
                run@ == self.spec_items().subrange(start as int, run_end(self.spec_items(), start as int, start + 1)),
                start + 1 <= run_end(self.spec_items(), start as int, start + 1) <= self.spec_items().len(),
                self.spec_items().len() <= u32::MAX,
                start + run@.len() <= self.spec_items().len(),
                j <= run@.len(),
                out@ == leaves_between(self.spec_items(), start as int, start + j),
            decreases run@.len() - j,
        {
            proof {
                assert(run@[j as int] == self.spec_items()[start + j]);
            }
            if run[j].leaf {
                out.push(start + j);
            }
            j = j + 1;
        }
        out
    }

    /// The leaf boxes whose node in `tree` has the extension `ext` (`None`
    /// for files without one), by index. Highlighting a file type lights
    /// these.
    pub fn extension_leaves(&self, tree: &Tree, ext: Option<&str>) -> (r: Vec<usize>)
        ensures
            r@ == extension_leaves_spec(
                self.spec_items(),
                tree.spec_nodes(),
                match ext {
                    Some(e) => Some(e@),
                    None => None,
                },
                self.spec_items().len() as int,
            ),
    {
        let ghost want = match ext {
            Some(e) => Some(e@),
            None => None::<Seq<char>>,
        };
        let wanted: Option<Vec<char>> = match ext {
            Some(e) => Some(chars_of(e)),
            None => None,
        };
        let count = tree.len();
        let mut out: Vec<usize> = Vec::new();
        let mut k: usize = 0;
        while k < self.items.len()
            invariant
                k <= self.spec_items().len(),
                count == tree.spec_nodes().len(),
                match wanted {
                    Some(w) => want == Some(w@),
                    None => want is None,
                },
                out@ == extension_leaves_spec(self.spec_items(), tree.spec_nodes(), want, k as int),
            decreases self.spec_items().len() - k,
        {
            let item = self.items[k];
            if item.leaf && (item.node.0 as usize) < count {
                let found = extension_of(tree.node(item.node));
                let same = match (&found, &wanted) {
                    (Some(f), Some(w)) => same_chars(&chars_of(f.as_str()), w),
                    (None, None) => true,
                    _ => false,
                };
                if same {
                    out.push(k);
                }
            }
            k = k + 1;
        }
        out
    }

    /// The region of the image that `leaves` and `start` cover (see
    /// [`cover`]): what must be drawn again when those boxes light up.
    pub fn highlight_bounds(&self, leaves: &[usize], start: Option<Rect>) -> (r: Option<Rect>)
        requires
            forall|i: int| 0 <= i < leaves@.len() ==> (#[trigger] leaves@[i] as int) < self.spec_items().len(),
        ensures
            r == cover(self.spec_items(), leaves@, start),
    {
        proof {
            use_type_invariant(self);
        }
        let mut bounds = start;
        let mut j: usize = 0;
        while j < leaves.len()
            invariant
                j <= leaves@.len(),
                forall|i: int| 0 <= i < leaves@.len() ==> (#[trigger] leaves@[i] as int) < self.spec_items().len(),
                forall|k: int|
                    0 <= k < self.spec_items().len() ==> inside(
                        #[trigger] self.spec_items()[k].rect,
                        self.spec_width() as int,
                        self.spec_height() as int,
                    ),
                self.spec_width() <= i32::MAX,
                self.spec_height() <= i32::MAX,
                bounds == cover(self.spec_items(), leaves@.take(j as int), start),
            decreases leaves@.len() - j,
        {
            let r = self.items[leaves[j]].rect;
            proof {
                assert(leaves@.take(j + 1).drop_last() =~= leaves@.take(j as int));
                assert(leaves@.take(j + 1).last() == leaves@[j as int]);
                assert(inside(self.spec_items()[leaves@[j as int] as int].rect, self.spec_width() as int, self.spec_height() as int));
            }
            if !r.is_empty() {
                bounds = match bounds {
                    Some(b) => Some(union(b, r)),
                    None => Some(r),
                };
            }
            j = j + 1;
        }
        proof {
            assert(leaves@.take(leaves@.len() as int) =~= leaves@);
        }
        bounds
    }
}

/// The run of boxes inside a box ends between where the search starts and
/// the end of the boxes.
proof fn lemma_run_end_bound(items: Seq<ItemBox>, start: int, j: int)
    requires
        0 <= j <= items.len(),
    ensures
        j <= run_end(items, start, j) <= items.len(),
    decreases items.len() - j,
{
    if j < items.len() && items[j].depth > items[start].depth {
        lemma_run_end_bound(items, start, j + 1);
    }
}

proof fn lemma_last_box(items: Seq<ItemBox>, id: u32, n: int)
    requires
        0 <= n <= items.len(),
    ensures
        last_box(items, id, n) matches Some(k) ==> 0 <= k < n && items[k].node.0 == id,
    decreases n,
{
    if n > 0 {
        lemma_last_box(items, id, n - 1);
    }
}

} // verus!
