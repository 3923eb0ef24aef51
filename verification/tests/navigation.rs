use dirstats::app::App;
use dirstats::keys::Nav;
use dirstats::menu::zoom_label;
use dirstats::scan::{Metadata, ScanBuilder, ScanOptions, Stat, Walked};
use dirstats::tree::{Kind, NodeId, SizeMetric, Tree};

fn walked(parent: Option<usize>, directory: Option<usize>, name: &str, kind: Kind, size: u64) -> Walked {
    Walked {
        parent,
        directory,
        name: name.to_string(),
        kind,
        metadata: Metadata::Read(Stat { apparent_size: size, allocated_size: size, modified: None, link: None }),
    }
}

fn options() -> ScanOptions {
    let mut options = ScanOptions::with_threads(1);
    options.size_metric = SizeMetric::Apparent;
    options
}

/// A scan of `/tmp/sample` holding `sub/big` (5000 bytes) and `small` (10 bytes).
fn sample_tree() -> Tree {
    let mut builder = ScanBuilder::new("/tmp/sample".to_string(), &options());
    builder.accept(walked(None, Some(0), "sample", Kind::Directory, 0));
    builder.accept(walked(Some(0), Some(1), "sub", Kind::Directory, 0));
    builder.accept(walked(Some(0), None, "small", Kind::File, 10));
    builder.accept(walked(Some(1), None, "big", Kind::File, 5000));
    builder.finish(false, SizeMetric::Apparent).unwrap()
}

fn app_with_scan() -> App {
    let mut app = App::new(options());
    app.start_scan("/tmp/sample".to_string());
    app.set_tree(sample_tree(), false);
    app
}

#[test]
fn navigates_in_and_out() {
    let mut app = app_with_scan();
    assert_eq!(app.entries().len(), 2);
    assert!(app.enter(), "first entry is the larger directory");
    assert_eq!(app.breadcrumbs().len(), 2);
    assert_eq!(app.entries().len(), 1);
    assert!(!app.enter(), "files have no children");
    assert!(app.back());
    assert_eq!(app.cursor().unwrap().selected, 0);
    app.move_selection(5);
    assert_eq!(app.cursor().unwrap().selected, 1);
    assert!(!app.back());
}

#[test]
fn tree_rows_follow_expansion() {
    let mut app = app_with_scan();
    assert_eq!(app.tree_rows().len(), 2, "two top-level entries");
    let sub = app.entries()[0];
    assert!(app.toggle_expanded(sub));
    let rows = app.tree_rows();
    assert_eq!(rows.len(), 3);
    assert_eq!(rows[1].1, 1, "child of sub is one level deeper");
    assert!(!app.toggle_expanded(sub));
    assert_eq!(app.tree_rows().len(), 2);
}

#[test]
fn zooms_and_reveals_deep_nodes() {
    let mut app = app_with_scan();
    let tree = app.tree().unwrap();
    let sub = tree.children(tree.root())[0];
    let big = tree.children(sub)[0];
    assert!(app.reveal_node(big));
    assert_eq!(app.dir(), Some(sub));
    assert_eq!(app.selected(), Some(big));
    assert!(app.back());
    assert_eq!(app.dir(), Some(app.tree().unwrap().root()));
}

#[test]
fn trashed_state_covers_descendants_and_clears_on_rescan() {
    let mut app = app_with_scan();
    let sub = app.entries()[0];
    let big = app.tree().unwrap().children(sub)[0];
    app.mark_trashed(sub, None);
    assert!(app.is_trashed(sub) && app.is_trashed(big));
    assert!(!app.is_trashed(app.entries()[1]));
    let tree = app.tree().unwrap().clone();
    app.set_tree(tree, false);
    assert!(!app.is_trashed(sub));
}

#[test]
fn refuses_to_remove_the_scan_root_and_home() {
    let app = app_with_scan();
    let root = app.tree().unwrap().root();
    assert!(app.check_removable(root, None).is_err());
    assert!(app.check_removable(app.entries()[0], None).is_ok());
    assert!(app.check_removable(app.entries()[0], Some("/tmp/sample/sub")).is_err());
    assert!(app.is_gone(app.entries()[0]) == false);
}

#[test]
fn folder_zooms_into_itself() {
    let tree = sample_tree();
    let sub = tree.children(tree.root())[0];
    assert_eq!(zoom_label(&tree, Some(tree.root()), sub), Some("Zoom in"));
    assert_eq!(zoom_label(&tree, Some(sub), sub), Some("Zoom in"));
}

#[test]
fn file_zooms_into_its_folder_unless_already_there() {
    let tree = sample_tree();
    let sub = tree.children(tree.root())[0];
    let inner = tree.children(sub)[0];
    let top = tree.children(tree.root())[1];
    assert_eq!(zoom_label(&tree, Some(tree.root()), inner), Some("Zoom in to containing folder"));
    assert_eq!(zoom_label(&tree, Some(sub), inner), None);
    assert_eq!(zoom_label(&tree, Some(tree.root()), top), None);
    assert_eq!(zoom_label(&tree, None, top), Some("Zoom in to containing folder"));
}

#[test]
fn keys_move_through_rows_and_open_folders() {
    let mut app = app_with_scan();
    let sub = app.entries()[0];
    let small = app.entries()[1];
    let big = app.tree().unwrap().children(sub)[0];
    // Nothing selected: down and right pick the first row.
    assert_eq!(app.navigate(None, Nav::Down, 1), Some(sub));
    assert_eq!(app.navigate(None, Nav::Right, 1), Some(sub));
    assert!(!app.is_expanded(sub), "right with nothing selected opens nothing");
    // Down stops at the last row, up at the first.
    assert_eq!(app.navigate(Some(sub), Nav::Down, 1), Some(small));
    assert_eq!(app.navigate(Some(small), Nav::Down, 1), Some(small));
    assert_eq!(app.navigate(Some(sub), Nav::Up, 1), Some(sub));
    assert_eq!(app.navigate(Some(sub), Nav::Last, 1), Some(small));
    assert_eq!(app.navigate(Some(small), Nav::First, 1), Some(sub));
    assert_eq!(app.navigate(Some(sub), Nav::PageDown, 10), Some(small));
    assert_eq!(app.navigate(Some(small), Nav::PageUp, 10), Some(sub));
    // Right opens a closed folder and keeps it selected, then steps in.
    assert_eq!(app.navigate(Some(sub), Nav::Right, 1), Some(sub));
    assert!(app.is_expanded(sub));
    assert_eq!(app.navigate(Some(sub), Nav::Right, 1), Some(big));
    // Left from a child goes to its folder, then closes it.
    assert_eq!(app.navigate(Some(big), Nav::Left, 1), Some(sub));
    assert_eq!(app.navigate(Some(sub), Nav::Left, 1), Some(sub));
    assert!(!app.is_expanded(sub));
    // Right on a file does nothing; left on a top-level file has no visible parent.
    assert_eq!(app.navigate(Some(small), Nav::Right, 1), None);
    assert_eq!(app.navigate(Some(small), Nav::Left, 1), None);
}

#[test]
fn back_restores_what_enter_left() {
    let mut app = app_with_scan();
    app.move_selection(1);
    let before = (app.dir(), app.cursor().unwrap().selected);
    app.move_selection(-1);
    assert!(app.enter());
    assert!(app.back());
    assert_eq!(app.dir(), before.0);
    assert_eq!(app.cursor().unwrap().selected, 0);
    assert!(!app.can_back());
}

#[test]
fn node_ids_index_the_tree() {
    assert_eq!(NodeId(3).index(), 3);
    let tree = sample_tree();
    assert_eq!(tree.len(), 4);
    assert_eq!(tree.size(tree.root()), 5010);
    assert_eq!(tree.path(tree.children(tree.root())[0]), "/tmp/sample/sub");
}

#[test]
fn zoom_action_goes_into_folders_and_files_folders() {
    let mut app = app_with_scan();
    let sub = app.entries()[0];
    let small = app.entries()[1];
    let big = app.tree().unwrap().children(sub)[0];
    assert!(!app.zoom_into(small), "a top-level file's folder is already shown");
    assert!(app.zoom_into(big), "a file zooms into its folder");
    assert_eq!(app.dir(), Some(sub));
    assert!(!app.zoom_into(sub), "already there");
    assert!(app.back());
    assert!(app.zoom_into(sub));
    assert_eq!(app.dir(), Some(sub));
}
