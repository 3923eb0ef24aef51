use dirstats::app::App;
use dirstats::scan::{Metadata, ScanBuilder, ScanOptions, Stat, Walked};
use dirstats::terminal::{command_for, footer_keys, header_line, row_label, Command, Key};
use dirstats::tree::{Kind, NodeId, SizeMetric, Tree};
use dirstats::rows::crumb_label;

fn tree() -> Tree {
    let read = |n| Metadata::Read(Stat { apparent_size: n, allocated_size: n, modified: None, link: None });
    let mut builder = ScanBuilder::new("/data".to_string(), &ScanOptions::with_threads(1));
    builder.accept(Walked { parent: None, directory: Some(0), name: "data".into(), kind: Kind::Directory, metadata: read(0) });
    builder.accept(Walked { parent: Some(0), directory: Some(1), name: "videos".into(), kind: Kind::Directory, metadata: read(0) });
    builder.accept(Walked { parent: Some(0), directory: None, name: "notes.txt".into(), kind: Kind::File, metadata: read(300) });
    builder.accept(Walked { parent: Some(1), directory: None, name: "a.mkv".into(), kind: Kind::File, metadata: read(3 << 20) });
    builder.accept(Walked { parent: Some(0), directory: None, name: "broken".into(), kind: Kind::File, metadata: Metadata::Failed });
    builder.finish(false, SizeMetric::Allocated).unwrap()
}

#[test]
fn keys_follow_the_readme_table() {
    assert_eq!(command_for(Key::Down, false, true, true), Some(Command::Move(1)));
    assert_eq!(command_for(Key::Char('j'), false, true, true), Some(Command::Move(1)));
    assert_eq!(command_for(Key::Char('k'), false, true, true), Some(Command::Move(-1)));
    assert_eq!(command_for(Key::PageDown, false, true, true), Some(Command::Move(10)));
    assert_eq!(command_for(Key::Char('u'), false, true, true), Some(Command::Move(-10)));
    assert_eq!(command_for(Key::Char('g'), false, true, true), Some(Command::First));
    assert_eq!(command_for(Key::Char('G'), false, true, true), Some(Command::Last));
    assert_eq!(command_for(Key::Enter, false, true, true), Some(Command::Enter));
    assert_eq!(command_for(Key::Char('l'), false, true, true), Some(Command::Enter));
    assert_eq!(command_for(Key::Backspace, false, true, true), Some(Command::Back));
    assert_eq!(command_for(Key::Left, false, true, true), Some(Command::Back));
    assert_eq!(command_for(Key::Char('o'), false, true, true), Some(Command::Open));
    assert_eq!(command_for(Key::Char('o'), false, false, true), None, "no open in this build");
    assert_eq!(command_for(Key::Char('x'), true, true, true), Some(Command::Trash));
    assert_eq!(command_for(Key::Char('x'), false, true, true), None, "plain x does nothing");
    assert_eq!(command_for(Key::Char('q'), false, true, true), Some(Command::Quit));
    assert_eq!(command_for(Key::Esc, false, true, true), Some(Command::Quit));
    assert_eq!(command_for(Key::Char('c'), true, true, true), Some(Command::Quit));
    assert_eq!(command_for(Key::Char('c'), false, true, true), None);
    assert_eq!(command_for(Key::Other, false, true, true), None);
}

#[test]
fn footer_lists_the_keys_the_build_has() {
    assert_eq!(footer_keys(false, false), " ↑↓/jk move  ⏎/l enter  ⌫/h back  g/G ends  q quit");
    assert_eq!(footer_keys(true, true), " ↑↓/jk move  ⏎/l enter  ⌫/h back  g/G ends  o open  ^x trash  q quit");
}

#[test]
fn header_shows_the_crumbs_size_and_files() {
    let mut app = App::new(ScanOptions::with_threads(1));
    assert_eq!(header_line(&app), " dirstats");
    app.set_tree(tree(), false);
    assert_eq!(header_line(&app), " /data   3.0 MiB  ·  3 files");
    assert!(app.enter());
    assert_eq!(header_line(&app), " /data › videos   3.0 MiB  ·  1 files");
}

#[test]
fn rows_mark_folders_and_errors() {
    let tree = tree();
    let root = tree.root();
    let videos = tree.children(root)[0];
    let broken = (0..tree.len() as u32).map(NodeId).find(|&id| tree.node(id).name == "broken").unwrap();
    assert_eq!(row_label(&tree, videos, 40), "videos/");
    assert_eq!(row_label(&tree, videos, 3), "vid");
    assert_eq!(row_label(&tree, videos, 6), "videos");
    assert_eq!(row_label(&tree, broken, 40), "broken !");
}

#[test]
fn window_rows_blank_counts_for_files() {
    let tree = tree();
    let root = tree.root();
    let videos = tree.children(root)[0];
    let clip = tree.children(videos)[0];
    let broken = (0..tree.len() as u32).map(NodeId).find(|&id| tree.node(id).name == "broken").unwrap();
    assert_eq!(dirstats::rows::row_name(&tree, videos), "videos/");
    assert_eq!(dirstats::rows::row_name(&tree, broken), "broken  !");
    assert_eq!(dirstats::rows::row_counts(&tree, videos), ("1".to_string(), "1".to_string(), "0".to_string()));
    assert_eq!(dirstats::rows::row_counts(&tree, root), ("4".to_string(), "3".to_string(), "1".to_string()));
    assert_eq!(dirstats::rows::row_counts(&tree, clip), (String::new(), String::new(), String::new()));
}

#[test]
fn crumbs_end_in_a_slash_and_ancestors_are_marked() {
    assert_eq!(crumb_label("/", false), ("/".to_string(), false), "a root that is a slash needs no marker");
    assert_eq!(crumb_label("home", false), ("home".to_string(), true));
    assert_eq!(crumb_label("docs", true), ("docs/".to_string(), false));
    assert_eq!(crumb_label("/", true), ("/".to_string(), false));
    assert_eq!(crumb_label("", true), ("/".to_string(), false));
}

#[test]
fn the_toolbar_shows_size_and_files() {
    assert_eq!(dirstats::rows::totals_text(1536, 12), "1.5 KiB   12 files");
}
