use dirstats::app::App;
use dirstats::delete::{DeleteFailure, DeleteOutcome};
use dirstats::dialogs::{
    confirm_detail, confirm_heading, progress_text, report_heading, report_summary, step, wants_report, Choice, Dialog,
    Effect,
};
use dirstats::scan::{ErrorKind, IoError, Metadata, ScanBuilder, ScanOptions, Stat, Walked};
use dirstats::tree::{Kind, NodeId, SizeMetric};

fn walked(parent: Option<usize>, directory: Option<usize>, name: &str, kind: Kind, size: u64) -> Walked {
    Walked {
        parent,
        directory,
        name: name.to_string(),
        kind,
        metadata: Metadata::Read(Stat { apparent_size: size, allocated_size: size, modified: None, link: None }),
    }
}

/// A scan of `/data/photos` holding `2024/a.jpg` and `b.jpg`.
fn app() -> App {
    let options = ScanOptions::with_threads(1);
    let mut builder = ScanBuilder::new("/data/photos".to_string(), &options);
    builder.accept(walked(None, Some(0), "photos", Kind::Directory, 0));
    builder.accept(walked(Some(0), Some(1), "2024", Kind::Directory, 0));
    builder.accept(walked(Some(0), None, "b.jpg", Kind::File, 10));
    builder.accept(walked(Some(1), None, "a.jpg", Kind::File, 3000));
    let tree = builder.finish(false, SizeMetric::Allocated).unwrap();
    let mut app = App::new(options);
    app.start_scan("/data/photos".to_string());
    app.set_tree(tree, false);
    app
}

fn node_named(app: &App, name: &str) -> NodeId {
    let tree = app.tree().unwrap();
    (0..tree.len() as u32).map(NodeId).find(|&id| tree.node(id).name == name).unwrap()
}

#[test]
fn unlocking_goes_on_to_confirm_the_asked_node() {
    let (next, effect) = step(Dialog::EnablePermanent { then: Some(NodeId(3)) }, Choice::Accept, false);
    assert!(matches!(next, Some(Dialog::ConfirmDelete(NodeId(3)))));
    assert_eq!(effect, Effect::EnablePermanent);
    let (next, effect) = step(Dialog::EnablePermanent { then: None }, Choice::Accept, false);
    assert!(next.is_none());
    assert_eq!(effect, Effect::EnablePermanent);
}

#[test]
fn confirming_deletes_and_cancelling_does_nothing() {
    let (next, effect) = step(Dialog::ConfirmDelete(NodeId(2)), Choice::Accept, true);
    assert!(next.is_none());
    assert_eq!(effect, Effect::Delete(NodeId(2)));
    for choice in [Choice::Cancel, Choice::Dismiss] {
        let (next, effect) = step(Dialog::ConfirmDelete(NodeId(2)), choice, true);
        assert!(next.is_none());
        assert_eq!(effect, Effect::Nothing);
    }
    let (next, effect) = step(Dialog::ConfirmDelete(NodeId(2)), Choice::Nothing, true);
    assert!(matches!(next, Some(Dialog::ConfirmDelete(NodeId(2)))), "the dialog stays until a choice");
    assert_eq!(effect, Effect::Nothing);
}

#[test]
fn a_refused_trash_leads_to_the_unlock_or_the_confirmation() {
    let refused = || Dialog::TrashFailed { node: NodeId(4), error: "no trash folder".to_string() };
    let (next, effect) = step(refused(), Choice::Accept, false);
    assert!(matches!(next, Some(Dialog::EnablePermanent { then: Some(NodeId(4)) })));
    assert_eq!(effect, Effect::Nothing);
    let (next, _) = step(refused(), Choice::Accept, true);
    assert!(matches!(next, Some(Dialog::ConfirmDelete(NodeId(4)))));
}

#[test]
fn a_report_closes_on_ok() {
    let report = Dialog::Report { path: "/x".to_string(), outcome: DeleteOutcome::default() };
    let (next, effect) = step(report, Choice::Accept, true);
    assert!(next.is_none());
    assert_eq!(effect, Effect::Nothing);
}

#[test]
fn only_unclean_deletions_are_reported() {
    let mut outcome = DeleteOutcome::default();
    outcome.removed = 3;
    assert!(!wants_report(&outcome));
    assert_eq!(report_summary(&outcome), "3 removed, 0 failed.");
    outcome.failures.push(DeleteFailure {
        path: "/x/y".to_string(),
        error: IoError { kind: ErrorKind::PermissionDenied, message: "denied".to_string() },
    });
    assert!(wants_report(&outcome));
    assert_eq!(report_summary(&outcome), "3 removed, 1 failed.");
    assert_eq!(report_heading(false), "Some items were not deleted");
    let cancelled = DeleteOutcome { removed: 0, failures: Vec::new(), cancelled: true };
    assert!(wants_report(&cancelled));
    assert_eq!(report_heading(true), "Deletion cancelled");
}

#[test]
fn dialog_texts() {
    assert_eq!(confirm_heading(true), "Delete this folder permanently?");
    assert_eq!(confirm_heading(false), "Delete this file permanently?");
    assert_eq!(confirm_detail(1536, 7, true), "1.5 KiB, 7 files");
    assert_eq!(confirm_detail(1536, 1, false), "1.5 KiB");
    assert_eq!(progress_text(3, 9), "3 of 9 items");
    assert_eq!(progress_text(0, 0), "0 of 1 items", "an empty deletion still has a width");
}

#[test]
fn asking_to_delete_checks_the_node_first() {
    let mut app = app();
    let folder = node_named(&app, "2024");
    assert!(matches!(app.ask_delete(folder, false, None), Some(Dialog::ConfirmDelete(id)) if id == folder));
    assert!(app.message().is_none());

    assert!(app.ask_delete(folder, true, None).is_none());
    assert_eq!(app.message().unwrap(), "delete failed: a deletion is already running");

    let root = app.tree().unwrap().root();
    assert!(app.ask_delete(root, false, None).is_none());
    assert!(app.message().unwrap().starts_with("delete failed: "));
    assert!(app.message().unwrap().contains("scan its parent"));

    assert!(app.ask_delete(folder, false, Some("/data/photos/2024")).is_none(), "the home folder is kept");
}

#[test]
fn unlocking_is_offered_for_removable_nodes_only() {
    let mut app = app();
    let file = node_named(&app, "b.jpg");
    assert!(matches!(app.ask_enable_permanent(file, None), Some(Dialog::EnablePermanent { then: Some(id) }) if id == file));
    let root = app.tree().unwrap().root();
    assert!(app.ask_enable_permanent(root, None).is_none());
    assert!(app.message().unwrap().starts_with("delete failed: "));
}

#[test]
fn a_refused_trash_says_so_and_offers_permanent_deletion() {
    let mut app = app();
    let file = node_named(&app, "b.jpg");
    let error = IoError { kind: ErrorKind::Other, message: "no trash folder".to_string() };
    match app.trash_refused(file, &error, "Trash", None) {
        Some(Dialog::TrashFailed { node, error }) => {
            assert_eq!(node, file);
            assert_eq!(error, "no trash folder");
        }
        other => panic!("expected the offer, got {other:?}"),
    }
    assert_eq!(app.message().unwrap(), "move to Trash failed: no trash folder");
    let root = app.tree().unwrap().root();
    assert!(app.trash_refused(root, &error, "Trash", None).is_none());
}

#[test]
fn copying_a_path_says_what_was_copied() {
    let mut app = app();
    let file = node_named(&app, "a.jpg");
    assert_eq!(app.copy_path(file).unwrap(), "/data/photos/2024/a.jpg");
    assert_eq!(app.message().unwrap(), "copied /data/photos/2024/a.jpg");
    let mut empty = App::new(ScanOptions::with_threads(1));
    assert!(empty.copy_path(NodeId(0)).is_none());
    assert!(empty.message().is_none());
}

#[test]
fn failed_actions_name_the_action_and_the_reason() {
    let mut app = app();
    app.action_failed("put back", &IoError { kind: ErrorKind::AlreadyExists, message: "something else is there".to_string() });
    assert_eq!(app.message().unwrap(), "put back failed: something else is there");
}

#[test]
fn the_status_line_prefers_failures_and_fresh_messages() {
    let mut app = app();
    assert_eq!(app.status_line(false), (" ".to_string(), false), "nothing to say");
    let file = node_named(&app, "a.jpg");
    app.set_hovered(Some(file));
    assert_eq!(app.status_line(false), ("   2.9 KiB  /data/photos/2024/a.jpg".to_string(), false));
    app.set_message(Some("copied /data".to_string()));
    assert_eq!(app.status_line(true), ("copied /data".to_string(), false), "a fresh message outranks the hover");
    assert_eq!(app.status_line(false).0, "   2.9 KiB  /data/photos/2024/a.jpg", "a stale one does not");
    app.set_message(Some("put back failed: gone".to_string()));
    assert_eq!(app.status_line(false), ("put back failed: gone".to_string(), true), "a failure stays");
    app.set_hovered(None);
    app.set_message(Some("moved".to_string()));
    assert_eq!(app.status_line(false), ("moved".to_string(), false));
}

#[test]
fn text_search_finds_substrings() {
    assert!(dirstats::status::contains_text("delete failed: x", "failed"));
    assert!(!dirstats::status::contains_text("fail", "failed"));
    assert!(dirstats::status::contains_text("abc", ""));
    assert!(!dirstats::status::contains_text("", "a"));
}
