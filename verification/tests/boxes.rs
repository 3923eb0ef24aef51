use dirstats::boxes::{union, ItemBox, Treemap};
use dirstats::scan::{Metadata, ScanBuilder, ScanOptions, Stat, Walked};
use dirstats::tree::{Kind, SizeMetric};
use dirstats::tree::NodeId;
use dirstats::treemap::Rect;

fn item(node: u32, rect: Rect, depth: u32) -> ItemBox {
    ItemBox { node: NodeId(node), rect, depth, leaf: true }
}

/// A 64 × 48 map: the root, a folder on the left holding two files, and
/// a file on the right.
fn map() -> Treemap {
    Treemap::new(
        64,
        48,
        vec![
            item(0, Rect::new(0, 0, 64, 48), 0),
            item(1, Rect::new(0, 0, 40, 48), 1),
            item(3, Rect::new(0, 0, 40, 30), 2),
            item(4, Rect::new(0, 30, 40, 48), 2),
            item(2, Rect::new(40, 0, 64, 48), 1),
        ],
    )
}

#[test]
fn boxes_with_boxes_inside_are_not_leaves() {
    let map = map();
    let leaves: Vec<bool> = map.items().iter().map(|i| i.leaf).collect();
    assert_eq!(leaves, vec![false, false, true, true, true]);
    assert_eq!((map.width(), map.height()), (64, 48));
}

#[test]
fn hit_tests_find_the_deepest_leaf() {
    let map = map();
    assert_eq!(map.hit_test(1, 1), Some(NodeId(3)));
    assert_eq!(map.hit_test(39, 47), Some(NodeId(4)));
    assert_eq!(map.hit_test(40, 0), Some(NodeId(2)));
    assert_eq!(map.hit_test(63, 47), Some(NodeId(2)));
    assert_eq!(map.hit_test(64, 0), None, "outside the image");
    assert_eq!(map.hit_test(-1, 5), None);
}

#[test]
fn renders_scanned_tree() {
    let map = map();
    let root = NodeId(0);
    let hit = map.hit_test(1, 1).unwrap();
    assert_ne!(hit, root);
    assert_eq!(map.item_index(root), Some(0));
    assert_eq!(map.item(hit).map(|i| i.node), Some(hit));
    assert!(map.item(hit).unwrap().leaf && !map.items()[0].leaf);
    assert_eq!(map.subtree(root).len(), 5, "root's run covers every item");
    assert_eq!(map.subtree(hit).len(), 1, "a leaf's run is itself");
    assert_eq!(map.subtree(NodeId(1)).len(), 3);
    assert!(map.subtree(NodeId(9)).is_empty());
    assert_eq!(map.item_index(NodeId(9)), None);
}

#[test]
fn empty_boxes_are_never_hit() {
    let map = Treemap::new(
        32,
        32,
        vec![item(0, Rect::new(0, 0, 32, 32), 0), item(1, Rect::new(5, 5, 5, 20), 1), item(2, Rect::new(0, 0, 32, 32), 1)],
    );
    assert_eq!(map.hit_test(5, 10), Some(NodeId(2)));
}

#[test]
fn a_folder_lights_its_leaves() {
    let map = map();
    assert_eq!(map.subtree_leaves(NodeId(1)), vec![2, 3]);
    assert_eq!(map.subtree_leaves(NodeId(0)), vec![2, 3, 4]);
    assert_eq!(map.subtree_leaves(NodeId(2)), vec![4]);
    assert!(map.subtree_leaves(NodeId(9)).is_empty());
}

#[test]
fn the_lit_region_covers_the_lit_boxes() {
    let map = map();
    assert_eq!(map.highlight_bounds(&[2, 3], None), Some(Rect::new(0, 0, 40, 48)));
    assert_eq!(map.highlight_bounds(&[3], Some(Rect::new(40, 0, 64, 10))), Some(Rect::new(0, 0, 64, 48)));
    assert_eq!(map.highlight_bounds(&[], None), None);
    assert_eq!(union(Rect::new(1, 2, 3, 4), Rect::new(0, 5, 2, 9)), Rect::new(0, 2, 3, 9));
}

#[test]
fn a_file_type_lights_its_files() {
    let read = |n| Metadata::Read(Stat { apparent_size: n, allocated_size: n, modified: None, link: None });
    let mut builder = ScanBuilder::new("/d".to_string(), &ScanOptions::with_threads(1));
    let walked = |parent, directory, name: &str, kind, metadata| Walked { parent, directory, name: name.to_string(), kind, metadata };
    builder.accept(walked(None, Some(0), "d", Kind::Directory, read(0)));
    builder.accept(walked(Some(0), Some(1), "a", Kind::Directory, read(0)));
    builder.accept(walked(Some(0), None, "b.TXT", Kind::File, read(5)));
    builder.accept(walked(Some(1), None, "c.txt", Kind::File, read(30)));
    builder.accept(walked(Some(1), None, "d", Kind::File, read(20)));
    let tree = builder.finish(false, SizeMetric::Allocated).unwrap();
    let items = vec![
        item(0, Rect::new(0, 0, 64, 48), 0),
        item(1, Rect::new(0, 0, 40, 48), 1),
        item(3, Rect::new(0, 0, 40, 30), 2),
        item(4, Rect::new(0, 30, 40, 48), 2),
        item(2, Rect::new(40, 0, 64, 48), 1),
    ];
    let map = Treemap::new(64, 48, items);
    assert_eq!(map.extension_leaves(&tree, Some("txt")), vec![2, 4], "extensions are compared lower-cased");
    assert_eq!(map.extension_leaves(&tree, None), vec![3]);
    assert!(map.extension_leaves(&tree, Some("jpg")).is_empty());
}
