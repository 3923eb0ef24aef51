use dirstats::cloud::CloudStatus;
use dirstats::glyphs::Glyph;
use dirstats::menu::{menu_rows, MenuFeatures, MenuRow, NodeAction, Permanent, TrashState};

const ALL: MenuFeatures = MenuFeatures { open: true, trash: true, cloud: true, delete: true, blocks_trash: false };
const NONE: MenuFeatures = MenuFeatures { open: false, trash: false, cloud: false, delete: false, blocks_trash: false };

fn labels(rows: &[MenuRow]) -> Vec<String> {
    rows.iter().map(|r| r.label.clone()).collect()
}

fn action(rows: &[MenuRow], label: &str) -> Option<NodeAction> {
    rows.iter().find(|r| r.label == label).unwrap_or_else(|| panic!("no row {label:?}")).action
}

fn rows(zoom: Option<&str>, trashed: TrashState, permanent: Permanent, cloud: CloudStatus, f: MenuFeatures) -> Vec<MenuRow> {
    menu_rows(zoom, trashed, permanent, cloud, f, "Trash")
}

#[test]
fn zoom_row_follows_its_label() {
    let with = rows(Some("Zoom in to containing folder"), TrashState::Present, Permanent::Unavailable, CloudStatus::Local, NONE);
    assert!(labels(&with).iter().any(|t| t == "Zoom in to containing folder"));
    let without = rows(None, TrashState::Present, Permanent::Unavailable, CloudStatus::Local, NONE);
    assert!(!labels(&without).iter().any(|t| t.starts_with("Zoom")));
    assert!(labels(&without).iter().any(|t| t == "Copy path"));
}

#[test]
fn clicking_zoom_reports_zoom() {
    let r = rows(Some("Zoom in"), TrashState::Present, Permanent::Unavailable, CloudStatus::Local, NONE);
    assert_eq!(action(&r, "Zoom in"), Some(NodeAction::Zoom));
}

#[test]
fn clicking_copy_path_reports_copy_path() {
    let r = rows(Some("Zoom in"), TrashState::Present, Permanent::Unavailable, CloudStatus::Local, NONE);
    assert_eq!(action(&r, "Copy path"), Some(NodeAction::CopyPath));
    assert_eq!(r[1].glyph, Some(Glyph::ContentCopy));
}

#[test]
fn clicking_open_reports_open() {
    let r = rows(None, TrashState::Present, Permanent::Unavailable, CloudStatus::Local, ALL);
    assert_eq!(action(&r, "Open"), Some(NodeAction::Open));
}

#[test]
fn no_trash_rows_without_the_feature() {
    for trashed in [TrashState::Present, TrashState::CanPutBack, TrashState::Trashed] {
        let text = labels(&rows(None, trashed, Permanent::Unavailable, CloudStatus::Local, NONE));
        assert!(!text.iter().any(|t| t.contains("Trash") || t == "Put Back" || t == "Deleted"));
    }
}

#[test]
fn present_item_offers_the_trash() {
    let r = rows(None, TrashState::Present, Permanent::Unavailable, CloudStatus::Local, ALL);
    assert!(labels(&r).contains(&"Move to Trash".to_string()));
    assert_eq!(action(&r, "Move to Trash"), Some(NodeAction::Trash));
    let bin = menu_rows(None, TrashState::Present, Permanent::Unavailable, CloudStatus::Local, ALL, "Recycle Bin");
    assert_eq!(action(&bin, "Move to Recycle Bin"), Some(NodeAction::Trash));
}

#[test]
fn trashed_item_with_known_location_offers_put_back() {
    let r = rows(None, TrashState::CanPutBack, Permanent::Unavailable, CloudStatus::Local, ALL);
    assert!(!labels(&r).iter().any(|t| t.starts_with("Move to")));
    assert_eq!(action(&r, "Put Back"), Some(NodeAction::PutBack));
}

#[test]
fn trashed_item_shows_a_disabled_row() {
    let r = rows(None, TrashState::Trashed, Permanent::Unavailable, CloudStatus::Local, ALL);
    assert!(labels(&r).contains(&"In Trash".to_string()));
    assert_eq!(action(&r, "In Trash"), None);
}

#[test]
fn deleted_item_shows_a_disabled_row() {
    let r = rows(None, TrashState::Deleted, Permanent::Unavailable, CloudStatus::Local, ALL);
    assert!(labels(&r).iter().any(|t| t == "Deleted"));
    assert_eq!(action(&r, "Deleted"), None);
}

#[test]
fn no_permanent_delete_on_macos() {
    // Where the platform offers no permanent delete the build has the feature off.
    let mac = MenuFeatures { delete: false, blocks_trash: true, ..ALL };
    for permanent in [Permanent::Locked, Permanent::Enabled] {
        let text = labels(&rows(None, TrashState::Present, permanent, CloudStatus::Local, mac));
        assert!(!text.iter().any(|t| t.contains("Permanent")), "{permanent:?}");
    }
}

#[test]
fn locked_permanent_delete_opens_the_gate() {
    let r = rows(None, TrashState::Present, Permanent::Locked, CloudStatus::Local, ALL);
    assert!(!labels(&r).iter().any(|t| t == "Delete Permanently"));
    assert_eq!(action(&r, "Enable Permanent Delete\u{2026}"), Some(NodeAction::EnablePermanentDelete));
}

#[test]
fn enabled_permanent_delete_deletes() {
    let r = rows(None, TrashState::Present, Permanent::Enabled, CloudStatus::Local, ALL);
    assert!(!labels(&r).iter().any(|t| t == "Enable Permanent Delete\u{2026}"));
    assert_eq!(action(&r, "Delete Permanently"), Some(NodeAction::DeletePermanently));
    assert!(r.iter().find(|x| x.label == "Delete Permanently").unwrap().destructive);
}

#[test]
fn permanent_delete_only_for_present_items() {
    let r = rows(None, TrashState::Deleted, Permanent::Enabled, CloudStatus::Local, ALL);
    assert!(!labels(&r).iter().any(|t| t == "Delete Permanently"));
}

#[test]
fn offered_without_the_trash() {
    let f = MenuFeatures { trash: false, ..ALL };
    let text = labels(&rows(None, TrashState::Present, Permanent::Enabled, CloudStatus::Local, f));
    assert!(text.iter().any(|t| t == "Delete Permanently"));
    assert!(!text.iter().any(|t| t.contains("Trash")));
}

#[test]
fn local_item_has_no_cloud_row() {
    let text = labels(&rows(None, TrashState::Present, Permanent::Unavailable, CloudStatus::Local, ALL));
    assert!(!text.iter().any(|t| t == "Remove Download" || t == "Not Downloaded"));
}

#[test]
fn downloaded_item_can_be_evicted() {
    let r = rows(None, TrashState::Present, Permanent::Unavailable, CloudStatus::Downloaded, ALL);
    assert_eq!(action(&r, "Remove Download"), Some(NodeAction::Evict));
}

#[test]
fn evicted_item_shows_a_disabled_row() {
    let r = rows(None, TrashState::Present, Permanent::Unavailable, CloudStatus::Evicted, ALL);
    assert_eq!(action(&r, "Not Downloaded"), None);
}

#[test]
fn time_machine_backup_offers_no_trash() {
    let mac = MenuFeatures { delete: false, blocks_trash: true, ..ALL };
    let r = rows(None, TrashState::TimeMachine, Permanent::Unavailable, CloudStatus::Local, mac);
    assert_eq!(action(&r, "Move to Trash"), None, "trash item disabled where backups refuse it");
    let elsewhere = rows(None, TrashState::TimeMachine, Permanent::Unavailable, CloudStatus::Local, ALL);
    assert_eq!(action(&elsewhere, "Move to Trash"), Some(NodeAction::Trash));
}

#[test]
fn rows_come_in_menu_order() {
    let r = rows(Some("Zoom in"), TrashState::Present, Permanent::Enabled, CloudStatus::Downloaded, ALL);
    assert_eq!(
        labels(&r),
        vec!["Zoom in", "Copy path", "Open", "Remove Download", "Move to Trash", "Delete Permanently"]
    );
}
