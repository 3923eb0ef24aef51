use dirstats::app::App;
use dirstats::cli::{falls_back_to_terminal, front_end, Cli, FrontEnd, LayoutStyle, Metric, ShadingStyle};
use dirstats::delete::{
    collect, delete_message, delete_status, removal_order, DeleteOutcome, DeleteStatus, Deletion, Receipt, RunningDelete,
};
use dirstats::scan::{ErrorKind, IoError, Metadata, ScanBuilder, ScanOptions, Stat, Walked};
use dirstats::trash::{check_put_back, trash_name};
use dirstats::tree::{Kind, SizeMetric, Tree};
use dirstats::treemap::{Shading, Style};
use dirstats::walker::{LinuxWalker, Options};

fn walked(parent: Option<usize>, directory: Option<usize>, name: &str, kind: Kind, size: u64) -> Walked {
    Walked {
        parent,
        directory,
        name: name.to_string(),
        kind,
        metadata: Metadata::Read(Stat { apparent_size: size, allocated_size: size, modified: None, link: None }),
    }
}

/// `/d` holding `a/b/deep`, `a/top` and `keep`.
fn nested_tree() -> Tree {
    let mut builder = ScanBuilder::new("/d".to_string(), &ScanOptions::with_threads(1));
    builder.accept(walked(None, Some(0), "d", Kind::Directory, 0));
    builder.accept(walked(Some(0), Some(1), "a", Kind::Directory, 0));
    builder.accept(walked(Some(0), None, "keep", Kind::File, 1));
    builder.accept(walked(Some(1), Some(2), "b", Kind::Directory, 0));
    builder.accept(walked(Some(1), None, "top", Kind::File, 1));
    builder.accept(walked(Some(2), None, "deep", Kind::File, 1));
    builder.finish(false, SizeMetric::Allocated).unwrap()
}

fn named(tree: &Tree, name: &str) -> dirstats::tree::NodeId {
    (0..tree.len() as u32).map(dirstats::tree::NodeId).find(|&id| tree.node(id).name == name).unwrap()
}

#[test]
fn removes_a_tree_bottom_up_and_reports_counts() {
    let tree = nested_tree();
    let a = named(&tree, "a");
    let (files, dirs) = collect(&tree, a);
    assert_eq!(files.len() + dirs.len(), 4);
    assert!(files.contains(&"/d/a/top".to_string()) && files.contains(&"/d/a/b/deep".to_string()));
    assert_eq!(dirs, vec!["/d/a/b".to_string(), "/d/a".to_string()], "deepest directory first");
    assert!(!files.iter().chain(&dirs).any(|p| p.ends_with("keep")), "siblings are untouched");

    let mut deletion = Deletion::new(files, dirs);
    assert_eq!(deletion.total(), 4);
    let mut handed = Vec::new();
    while let Some((path, is_dir)) = deletion.next_path(false) {
        handed.push((path.clone(), is_dir));
        deletion.record(path, Ok(()));
    }
    assert_eq!(handed.iter().filter(|(_, d)| *d).count(), 2);
    assert!(handed[..2].iter().all(|(_, d)| !d), "files go before directories");
    assert_eq!(deletion.done(), 4);
    let outcome = deletion.finish();
    assert!(outcome.failures.is_empty());
    assert_eq!(outcome.removed, 4);
    assert!(!outcome.cancelled);
}

#[test]
fn failures_are_collected_not_fatal() {
    let tree = nested_tree();
    let b = named(&tree, "b");
    let (files, dirs) = collect(&tree, b);
    let mut deletion = Deletion::new(files, dirs);
    let (first, _) = deletion.next_path(false).unwrap();
    deletion.record(first.clone(), Err(IoError { kind: ErrorKind::NotFound, message: "gone".to_string() }));
    let (second, is_dir) = deletion.next_path(false).unwrap();
    assert!(is_dir);
    deletion.record(second, Ok(()));
    assert!(deletion.next_path(false).is_none());
    let outcome = deletion.finish();
    assert_eq!(outcome.failures.len(), 1);
    assert!(outcome.failures[0].path.ends_with("deep"));
    assert_eq!(outcome.removed, 1, "the directory still goes");
}

#[test]
fn cancelling_stops_before_the_next_path() {
    let tree = nested_tree();
    let (files, dirs) = collect(&tree, tree.root());
    let mut deletion = Deletion::new(files, dirs);
    let (path, _) = deletion.next_path(false).unwrap();
    deletion.record(path, Ok(()));
    assert!(deletion.next_path(true).is_none());
    assert!(deletion.next_path(false).is_none(), "a cancelled deletion stays stopped");
    let outcome = deletion.finish();
    assert!(outcome.cancelled);
    assert_eq!(outcome.removed, 1);
    assert_eq!(delete_message(&outcome, "/d", 6), "delete cancelled after 1 items: /d");
}

#[test]
fn removal_order_covers_the_whole_subtree() {
    let tree = nested_tree();
    let (files, dirs) = removal_order(&tree, tree.root());
    assert_eq!(files.len(), 3);
    assert_eq!(dirs.len(), 3);
    assert_eq!(dirs[2], tree.root(), "the top goes last");
}

#[test]
fn delete_messages_report_the_outcome() {
    let mut outcome = DeleteOutcome::default();
    outcome.removed = 12;
    assert_eq!(delete_message(&outcome, "/x", 12), "deleted 12 items: /x");
    outcome.failures.push(dirstats::delete::DeleteFailure {
        path: "/x/y".to_string(),
        error: IoError { kind: ErrorKind::PermissionDenied, message: "denied".to_string() },
    });
    assert_eq!(delete_message(&outcome, "/x", 13), "delete failed for 1 of 13 items: /x");
}

#[test]
fn a_vanished_deletion_counts_as_one_failure() {
    match delete_status(Receipt::Disconnected, "/x") {
        DeleteStatus::Done(outcome) => {
            assert_eq!(outcome.failures.len(), 1);
            assert_eq!(outcome.failures[0].path, "/x");
            assert_eq!(outcome.failures[0].error.kind, ErrorKind::Other);
        }
        DeleteStatus::Running => panic!("a disconnected deletion is done"),
    }
    assert!(matches!(delete_status(Receipt::Empty, "/x"), DeleteStatus::Running));
}

#[test]
fn a_running_deletion_plans_its_work_and_can_be_stopped() {
    let tree = nested_tree();
    let a = named(&tree, "a");
    let (mut handle, mut work) = RunningDelete::new(&tree, a);
    assert_eq!(handle.node, a);
    assert_eq!(handle.path, "/d/a");
    assert_eq!(handle.total, 4);
    assert_eq!(work.total(), 4);
    assert!(!handle.is_cancelled());
    let (path, is_dir) = work.next_path(handle.is_cancelled()).unwrap();
    assert!(!is_dir);
    work.record(path, Ok(()));
    handle.cancel();
    assert!(handle.is_cancelled());
    assert_eq!((handle.node, handle.path.as_str(), handle.total), (a, "/d/a", 4));
    assert!(work.next_path(handle.is_cancelled()).is_none());
    assert!(matches!(handle.try_finish(Receipt::Empty), DeleteStatus::Running));
    match handle.try_finish(Receipt::Finished(work.finish())) {
        DeleteStatus::Done(outcome) => {
            assert!(outcome.cancelled);
            assert_eq!(outcome.removed, 1);
        }
        DeleteStatus::Running => panic!("a finished deletion is done"),
    }
    match handle.try_finish(Receipt::Disconnected) {
        DeleteStatus::Done(outcome) => assert_eq!(outcome.failures[0].path, "/d/a"),
        DeleteStatus::Running => panic!("a disconnected deletion is done"),
    }
}

fn app_with(tree: Tree) -> App {
    let mut app = App::new(ScanOptions::with_threads(1));
    app.set_tree(tree, false);
    app
}

#[test]
fn permanent_delete_needs_unlocking_and_one_at_a_time() {
    let tree = nested_tree();
    let a = named(&tree, "a");
    let mut app = app_with(tree);
    assert_eq!(app.check_delete(a, false, None).unwrap_err().kind, ErrorKind::PermissionDenied);
    app.enable_permanent_delete();
    assert!(app.check_delete(a, false, None).is_ok());
    assert_eq!(app.check_delete(a, true, None).unwrap_err().kind, ErrorKind::ResourceBusy);
    assert_eq!(app.check_delete(dirstats::tree::NodeId(0), false, None).unwrap_err().kind, ErrorKind::PermissionDenied);
    let mut outcome = DeleteOutcome::default();
    outcome.removed = 4;
    app.finish_delete(a, "/d/a", false, &outcome, 4);
    assert!(app.is_deleted(a) && app.is_gone(a));
    assert_eq!(app.message().unwrap(), "deleted 4 items: /d/a");
    assert_eq!(app.check_delete(a, false, None).unwrap_err().kind, ErrorKind::NotFound);
}

#[test]
fn a_path_still_there_is_not_marked_deleted() {
    let tree = nested_tree();
    let a = named(&tree, "a");
    let mut app = app_with(tree);
    app.finish_delete(a, "/d/a", true, &DeleteOutcome::default(), 4);
    assert!(!app.is_deleted(a));
}

#[test]
fn unknown_location_is_trashed_but_not_put_back() {
    let tree = nested_tree();
    let keep = named(&tree, "keep");
    let mut app = app_with(tree);
    let path = app.trash_target(keep, None).unwrap();
    assert_eq!(path, "/d/keep");
    app.trashed_to(keep, None, &path, trash_name(false));
    assert!(app.is_trashed(keep));
    assert!(!app.can_put_back(keep));
    assert_eq!(app.put_back_target(keep).unwrap_err().kind, ErrorKind::Unsupported);
    assert_eq!(app.message().unwrap(), "moved to Trash: /d/keep");
}

#[test]
fn never_trashed_is_not_put_back() {
    let tree = nested_tree();
    let keep = named(&tree, "keep");
    let app = app_with(tree);
    assert!(!app.can_put_back(keep));
    assert_eq!(app.put_back_target(keep).unwrap_err().kind, ErrorKind::Unsupported);
}

#[test]
fn trashes_and_puts_back_a_folder_with_its_contents() {
    let tree = nested_tree();
    let a = named(&tree, "a");
    let deep = named(&tree, "deep");
    let mut app = app_with(tree);
    app.trashed_to(a, Some("/trash/1-a".to_string()), "/d/a", trash_name(true));
    assert!(app.is_trashed(deep), "descendants count as trashed");
    assert!(!app.can_put_back(deep), "only the trashed node itself goes back");
    let (location, original) = app.put_back_target(a).unwrap();
    assert_eq!((location.as_str(), original.as_str()), ("/trash/1-a", "/d/a"));
    assert!(check_put_back(false).is_ok());
    app.put_back_done(a, &original);
    assert!(!app.is_trashed(a) && !app.is_trashed(deep));
    assert_eq!(app.message().unwrap(), "put back: /d/a");
}

#[test]
fn refuses_when_the_original_path_is_taken() {
    assert_eq!(check_put_back(true).unwrap_err().kind, ErrorKind::AlreadyExists);
}

#[test]
fn refuses_to_trash_the_scan_root() {
    let tree = nested_tree();
    let root = tree.root();
    let app = app_with(tree);
    assert_eq!(app.trash_target(root, None).unwrap_err().kind, ErrorKind::PermissionDenied);
    assert!(!app.is_trashed(root));
    let empty = App::new(ScanOptions::with_threads(1));
    assert_eq!(empty.trash_target(root, None).unwrap_err().kind, ErrorKind::NotFound);
}

#[test]
fn normalize_cleans_dot_and_dotdot() {
    let cwd = "/home/me/work";
    let cli = |p: &str| Cli { path: Some(p.to_string()), ..Cli::new() };
    assert_eq!(cli(".").scan_root(cwd).unwrap(), cwd);
    assert_eq!(cli("./sub/").scan_root(cwd).unwrap(), "/home/me/work/sub");
    assert_eq!(cli("..").scan_root(cwd).unwrap(), "/home/me");
    assert_eq!(cli("a/../b").scan_root(cwd).unwrap(), "/home/me/work/b");
    assert_eq!(dirstats::paths::normalize("/../x"), "/x");
    assert!(cli("/tmp").scan_root(cwd).unwrap().starts_with('/'));
    assert_eq!(Cli::new().scan_root(cwd).unwrap(), cwd, "no path means the current directory");
    assert_eq!(cli("").scan_root(cwd).unwrap_err().kind, ErrorKind::InvalidInput);
}

#[test]
fn scan_options_follow_the_flags() {
    let options = Cli::new().scan_options(8);
    assert_eq!(options.threads, 8);
    assert!(options.same_filesystem && options.count_hard_links_once);
    assert_eq!(options.size_metric, SizeMetric::Allocated);
    let cli = Cli {
        threads: Some(0),
        cross_filesystems: true,
        count_hard_links: true,
        metric: Metric::Apparent,
        ..Cli::new()
    };
    let options = cli.scan_options(8);
    assert_eq!(options.threads, 1, "--threads 0 counts as 1");
    assert!(!options.same_filesystem && !options.count_hard_links_once);
    assert_eq!(options.size_metric, SizeMetric::Apparent);
    assert_eq!(SizeMetric::from(Metric::Apparent), SizeMetric::Apparent);
    assert_eq!(LayoutStyle::Rows.style(), Style::Rows);
    assert_eq!(LayoutStyle::default().style(), Style::Squarified);
    assert_eq!(ShadingStyle::default().shading(), Shading::Glow);
    assert_eq!(ShadingStyle::Flat.shading(), Shading::Flat);
}

#[test]
fn picks_the_front_end() {
    let plain = Cli::new();
    assert_eq!(front_end(&plain, true, true, true, true), FrontEnd::Window);
    assert_eq!(front_end(&plain, true, true, false, true), FrontEnd::Terminal);
    assert_eq!(front_end(&plain, true, true, false, false), FrontEnd::SummaryFallback);
    assert_eq!(front_end(&Cli { gui: true, ..Cli::new() }, true, true, false, true), FrontEnd::Window);
    assert_eq!(front_end(&Cli { tui: true, ..Cli::new() }, true, true, true, true), FrontEnd::Terminal);
    assert_eq!(front_end(&Cli { summary: true, ..Cli::new() }, true, true, true, true), FrontEnd::Summary);
    assert_eq!(
        front_end(&Cli { summary: true, png: Some("x.png".to_string()), ..Cli::new() }, true, true, true, true),
        FrontEnd::Png
    );
    assert_eq!(front_end(&plain, false, false, true, true), FrontEnd::Summary);
    assert!(falls_back_to_terminal(&plain, true, false));
    assert!(!falls_back_to_terminal(&plain, true, true), "never on Windows");
    assert!(!falls_back_to_terminal(&Cli { gui: true, ..Cli::new() }, true, false));
}

#[test]
fn walker_variants_are_named() {
    let variants = LinuxWalker::variants();
    assert_eq!(variants.len(), 9);
    assert_eq!(variants[1], ("queue", LinuxWalker::default()));
    assert!(variants[2].1.work_stealing && !variants[2].1.inode_order);
    assert_eq!(variants[8].0, "stealing + xfs bulkstat");
    assert!(variants[8].1.xfs_bulkstat && variants[8].1.work_stealing);
    let options = Options::from_scan(&ScanOptions::with_threads(3));
    assert_eq!(options.threads, 3);
    assert_eq!(options.walker, LinuxWalker::default());
    assert_eq!(options.scan_options().threads, 3);
}

#[test]
fn cancelled_scan_errors() {
    let mut builder = ScanBuilder::new("/d".to_string(), &ScanOptions::with_threads(1));
    builder.accept(walked(None, Some(0), "d", Kind::Directory, 0));
    let result = builder.finish(true, SizeMetric::Allocated);
    assert_eq!(result.unwrap_err().kind, ErrorKind::Interrupted);
}

#[test]
fn places_show_their_free_space_when_known() {
    let mut place = dirstats::locations::Location {
        name: "Data".to_string(),
        path: "/mnt/data".to_string(),
        kind: dirstats::locations::Kind::Volume,
        total: Some(2048),
        free: Some(512),
    };
    assert_eq!(place.capacity().unwrap(), "512 B free of 2.0 KiB");
    place.free = None;
    assert!(place.capacity().is_none());
}

#[test]
fn the_place_list_offers_home_mounts_and_root() {
    let table = "/dev/sda1 / ext4 rw 0 0\n/dev/sdb1 /mnt/data ext4 rw 0 0\nproc /proc proc rw 0 0\n";
    let places = dirstats::locations::list(Some("/home/me".to_string()), table);
    let names: Vec<&str> = places.iter().map(|p| p.name.as_str()).collect();
    assert_eq!(names[0], "Home");
    assert!(places.iter().any(|p| p.path == "/mnt/data"));
    assert!(places.iter().all(|p| p.path != "/proc"), "virtual filesystems are left out");
    assert_eq!(places.iter().filter(|p| p.path == "/").count(), 1, "the root once");
    assert_eq!(places.last().unwrap().name, "Root");
}

#[test]
fn a_home_folder_that_is_a_mount_is_listed_once() {
    let table = "/dev/sdb1 /home/me ext4 rw 0 0\n/dev/sdc1 /mnt/b ext4 rw 0 0\n/dev/sdd1 /mnt/a/b ext4 rw 0 0\n";
    let places = dirstats::locations::list(Some("/home/me/".to_string()), table);
    let paths: Vec<&str> = places.iter().map(|p| p.path.as_str()).collect();
    assert_eq!(paths, vec!["/home/me/", "/mnt/b", "/mnt/a/b", "/"], "equal names keep mount-table order");
    assert_eq!(places[0].name, "Home");
}

#[test]
fn a_mount_point_without_escapes_comes_back_unchanged() {
    assert_eq!(dirstats::locations::unescape_mount("/mnt/plain dir"), "/mnt/plain dir");
}
