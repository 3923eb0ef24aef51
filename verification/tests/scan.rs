use dirstats::backup::volume_level;
use dirstats::scan::{descends, ErrorKind, IoError, Metadata, ScanBuilder, ScanOptions, Stat, Walked};
use dirstats::tree::{Kind, NodeId, SizeMetric, Tree};

fn stat(size: u64, modified: i128, link: Option<((u64, u64), Option<u64>)>) -> Metadata {
    Metadata::Read(Stat { apparent_size: size, allocated_size: size, modified: Some(modified), link })
}

fn entry(parent: Option<usize>, directory: Option<usize>, name: &str, kind: Kind, metadata: Metadata) -> Walked {
    Walked { parent, directory, name: name.to_string(), kind, metadata }
}

fn apparent(count_once: bool) -> ScanOptions {
    let mut options = ScanOptions::with_threads(1);
    options.size_metric = SizeMetric::Apparent;
    options.count_hard_links_once = count_once;
    options
}

fn find(tree: &Tree, name: &str) -> NodeId {
    (0..tree.len() as u32).map(NodeId).find(|&id| tree.node(id).name == name).unwrap()
}

#[test]
fn a_walk_sums_sizes_and_sorts_children() {
    let options = apparent(true);
    let mut builder = ScanBuilder::new("/d".to_string(), &options);
    builder.accept(entry(None, Some(0), "d", Kind::Directory, stat(0, 10, None)));
    builder.accept(entry(Some(0), None, "small", Kind::File, stat(10, 20, None)));
    builder.accept(entry(Some(0), Some(1), "sub", Kind::Directory, stat(0, 15, None)));
    builder.accept(entry(Some(1), None, "big", Kind::File, stat(100_000, 30, None)));
    let tree = builder.finish(false, options.size_metric).unwrap();
    let root = tree.root();
    assert_eq!(tree.node(root).file_count, 2);
    assert_eq!(tree.node(root).dir_count, 1, "one subdirectory below the root");
    assert_eq!(tree.node(root).modified, Some(30), "root carries the newest change below it");
    let children = tree.children(root);
    assert_eq!(children.len(), 2);
    assert_eq!(tree.node(children[0]).name, "sub", "the bigger child comes first");
    assert_eq!(tree.size(root), 100_010);
    assert_eq!(tree.path(children[1]), "/d/small");
    assert_eq!(tree.path(find(&tree, "big")), "/d/sub/big");
}

/// `/d` holding `a/notes.txt` and `a/b/the_link`, two links to the same data.
fn linked(options: &ScanOptions) -> Tree {
    let shared = Some(((7, 42), Some(2)));
    let mut builder = ScanBuilder::new("/d".to_string(), options);
    builder.accept(entry(None, Some(0), "d", Kind::Directory, stat(0, 0, None)));
    builder.accept(entry(Some(0), Some(1), "a", Kind::Directory, stat(0, 0, None)));
    builder.accept(entry(Some(1), Some(2), "b", Kind::Directory, stat(0, 0, None)));
    builder.accept(entry(Some(1), None, "notes.txt", Kind::File, stat(50_000, 0, shared)));
    builder.accept(entry(Some(2), None, "the_link", Kind::File, stat(50_000, 0, shared)));
    builder.finish(false, options.size_metric).unwrap()
}

#[test]
fn hard_linked_data_counts_once_across_directories() {
    let once = linked(&apparent(true));
    let duplicates = once.nodes().iter().filter(|n| n.duplicate_link).count();
    assert_eq!(duplicates, 1);
    assert_eq!(once.size(once.root()), 50_000);
    assert!(once.node(find(&once, "the_link")).duplicate_link, "the later link is the duplicate");

    let twice = linked(&apparent(false));
    assert_eq!(twice.nodes().iter().filter(|n| n.duplicate_link).count(), 0);
    assert_eq!(twice.size(twice.root()) - once.size(once.root()), 50_000, "exactly one more copy");
}

#[test]
fn a_link_seen_once_is_not_a_duplicate() {
    let options = apparent(true);
    let mut builder = ScanBuilder::new("/d".to_string(), &options);
    builder.accept(entry(None, Some(0), "d", Kind::Directory, stat(0, 0, None)));
    builder.accept(entry(Some(0), None, "a", Kind::File, stat(100, 0, Some(((1, 1), Some(2))))));
    builder.accept(entry(Some(0), None, "b", Kind::File, stat(100, 0, Some(((1, 2), Some(2))))));
    let tree = builder.finish(false, options.size_metric).unwrap();
    assert!(tree.nodes().iter().all(|n| !n.duplicate_link), "different data, no duplicate");
    assert_eq!(tree.size(tree.root()), 200);
}

#[test]
fn a_link_is_a_leaf_of_its_own_size() {
    let options = apparent(true);
    let mut builder = ScanBuilder::new("/d".to_string(), &options);
    builder.accept(entry(None, Some(0), "d", Kind::Directory, stat(0, 0, None)));
    builder.accept(entry(Some(0), None, "notes.txt", Kind::File, stat(10_000, 0, None)));
    builder.accept(entry(Some(0), None, "the_link", Kind::Symlink, stat(9, 0, None)));
    let tree = builder.finish(false, options.size_metric).unwrap();
    let link = find(&tree, "the_link");
    assert_eq!(tree.node(link).kind, Kind::Symlink);
    assert_eq!(tree.size(link), 9);
    assert!(tree.children(link).is_empty());
    assert_eq!(tree.node(tree.root()).file_count, 2);
    assert_eq!(tree.size(tree.root()), 10_009);
}

#[test]
fn a_root_that_cannot_be_listed_fails_the_scan() {
    let options = ScanOptions::with_threads(1);
    let mut builder = ScanBuilder::new("/locked".to_string(), &options);
    builder.accept(entry(None, Some(0), "locked", Kind::Directory, stat(0, 0, None)));
    let denied = IoError { kind: ErrorKind::PermissionDenied, message: "permission denied".to_string() };
    assert!(builder.fail(denied).is_none(), "after the root, errors are counted");
    let err = builder.finish(false, options.size_metric).unwrap_err();
    assert_eq!(err.kind, ErrorKind::PermissionDenied);
    assert_eq!(err.message, "cannot read /locked: permission denied");
}

#[test]
fn an_error_before_the_root_is_fatal() {
    let options = ScanOptions::with_threads(1);
    let mut builder = ScanBuilder::new("/gone".to_string(), &options);
    let missing = IoError { kind: ErrorKind::NotFound, message: "no such file".to_string() };
    let fatal = builder.fail(missing).unwrap();
    assert_eq!(fatal.kind, ErrorKind::NotFound);
    assert_eq!(builder.finish(false, options.size_metric).unwrap_err().kind, ErrorKind::NotFound);
}

#[test]
fn entries_under_an_unplaced_directory_are_dropped() {
    let options = ScanOptions::with_threads(1);
    let mut builder = ScanBuilder::new("/d".to_string(), &options);
    builder.accept(entry(None, Some(0), "d", Kind::Directory, stat(0, 0, None)));
    assert!(builder.accept(entry(Some(5), None, "stray", Kind::File, stat(1, 0, None))).is_none());
    assert_eq!(builder.len(), 1);
    let unreadable = builder.accept(entry(Some(0), None, "odd", Kind::File, Metadata::Failed)).unwrap();
    assert_eq!(builder.progress().errors, 1);
    let tree = builder.finish(false, options.size_metric).unwrap();
    assert!(tree.node(unreadable).error);
    assert_eq!(tree.len(), 2);
}

#[test]
fn the_volume_top_is_the_last_level_on_the_same_device() {
    assert_eq!(volume_level(&[Some(7), Some(7), Some(3), Some(3)]), Some(1));
    assert_eq!(volume_level(&[Some(7), Some(7), Some(7)]), Some(2), "the filesystem root");
    assert_eq!(volume_level(&[Some(7), Some(2)]), Some(0), "a mount point is its own top");
    assert_eq!(volume_level(&[Some(7), None, Some(7)]), None, "an unreadable ancestor");
    assert_eq!(volume_level(&[None, Some(7)]), None);
    assert_eq!(volume_level(&[]), None);
}

#[test]
fn walks_skip_repeated_folders_and_other_devices() {
    let repeated = vec!["/System/Volumes/Data/Users".to_string()];
    assert!(!descends(true, "/System/Volumes/Data/Users/", &repeated, false, None, None));
    assert!(descends(false, "/System/Volumes/Data/Users", &repeated, false, None, None), "only directories are skipped");
    assert!(descends(true, "/System/Volumes/Data/Other", &repeated, true, Some(1), Some(1)));
    assert!(!descends(true, "/mnt", &[], true, Some(1), Some(2)), "another device");
    assert!(descends(true, "/mnt", &[], false, Some(1), Some(2)), "crossing filesystems when asked");
    assert!(descends(true, "/mnt", &[], true, Some(1), None), "an unknown device is entered");
}
