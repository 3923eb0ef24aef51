//! The context menu shared by the tree and the treemap: which rows it
//! shows for a node and what each does. Drawing the rows is the
//! interface's.

use crate::app::App;
use crate::cloud::CloudStatus;
use crate::glyphs::Glyph;
use crate::tree::{NodeId, Tree};
use vstd::prelude::*;
use vstd::string::*;

verus! {

/// What a node's context menu asked for; applied after the menu closes.
#[derive(Clone, Copy, Debug, PartialEq, Eq, Structural)]
pub enum NodeAction {
    /// Zoom into the node, or into its folder when it is a file.
    Zoom,
    /// Put the node's full path on the clipboard.
    CopyPath,
    /// Open with the desktop's default handler.
    Open,
    /// Move to the trash.
    Trash,
    /// Move back from the trash to where it was scanned.
    PutBack,
    /// Drop the local copy of a cloud item.
    Evict,
    /// Delete without the trash, once unlocked and confirmed.
    DeletePermanently,
    /// Ask to unlock permanent deletion, then delete if the user agrees.
    EnablePermanentDelete,
}

/// Whether the permanent-delete item is offered and how it reads.
#[derive(Clone, Copy, Debug, PartialEq, Eq, Structural)]
pub enum Permanent {
    /// Not on this platform: only the trash is offered.
    Unavailable,
    /// Offered as "Enable Permanent Delete…", which asks to unlock it.
    Locked,
    /// Unlocked: offered as "Delete Permanently".
    Enabled,
}

/// Trash state of the node a menu is for.
#[derive(Clone, Copy, Debug, PartialEq, Eq, Structural)]
pub enum TrashState {
    /// On disk as scanned.
    Present,
    /// Trashed, and the app knows where it went.
    CanPutBack,
    /// Trashed, location unknown.
    Trashed,
    /// Deleted permanently, or under something that was.
    Deleted,
    /// Part of a Time Machine backup: noted in the menu, and where the
    /// trash cannot take backups the trash row is shown disabled.
    TimeMachine,
}

/// Which optional parts of the menu this build offers.
#[derive(Clone, Copy, Debug, PartialEq, Eq, Structural)]
pub struct MenuFeatures {
    /// "Open" with the desktop's handler.
    pub open: bool,
    /// Moving to the trash and putting back.
    pub trash: bool,
    /// Cloud downloads.
    pub cloud: bool,
    /// Permanent deletion.
    pub delete: bool,
    /// The trash refuses Time Machine backups.
    pub blocks_trash: bool,
}

/// One row of the menu.
#[derive(Clone, Debug)]
pub struct MenuRow {
    /// Icon in the leading slot, if any.
    pub glyph: Option<Glyph>,
    pub label: String,
    /// Shown in the error colour.
    pub destructive: bool,
    /// What clicking it does; `None` for a row shown disabled.
    pub action: Option<NodeAction>,
}

/// A row as glyph, label, colour and action.
pub open spec fn row_view(r: MenuRow) -> (Option<Glyph>, Seq<char>, bool, Option<NodeAction>) {
    (r.glyph, r.label@, r.destructive, r.action)
}

/// Label of the zoom item for `node`: a folder zooms into itself, a file
/// into the folder holding it, and nothing is offered when that is where
/// the view already is.
pub fn zoom_label(tree: &Tree, current: Option<NodeId>, node: NodeId) -> (r: Option<&'static str>)
    requires
        (node.0 as int) < tree.spec_nodes().len(),
    ensures
        tree.spec_children()[node.0 as int].len() > 0 ==> (r matches Some(s) && s@ == "Zoom in"@),
        tree.spec_children()[node.0 as int].len() == 0 ==> match tree.spec_nodes()[node.0 as int].parent {
            Some(p) => if Some(p) != current {
                r matches Some(s) && s@ == "Zoom in to containing folder"@
            } else {
                r is None
            },
            None => r is None,
        },
{
    if tree.children(node).len() > 0 {
        return Some("Zoom in");
    }
    match tree.node(node).parent {
        Some(p) => if Some(p) != current {
            Some("Zoom in to containing folder")
        } else {
            None
        },
        None => None,
    }
}

/// Trash state of `node` for its menu; `time_machine` says whether it is
/// part of a Time Machine backup.
pub fn trash_state(app: &App, node: NodeId, time_machine: bool) -> (r: TrashState)
    requires
        app.valid_id(node),
    ensures
        r == (if app.spec_trashed().contains_key(node.0) && app.spec_trashed()[node.0] is Some {
            TrashState::CanPutBack
        } else if app.spec_tree() is Some && crate::app::marked(
            app.spec_nodes(),
            node.0 as int,
            app.spec_trashed().dom(),
        ) {
            TrashState::Trashed
        } else if app.spec_tree() is Some && crate::app::marked(app.spec_nodes(), node.0 as int, app.spec_deleted()) {
            TrashState::Deleted
        } else if time_machine {
            TrashState::TimeMachine
        } else {
            TrashState::Present
        }),
{
    if app.can_put_back(node) {
        TrashState::CanPutBack
    } else if app.is_trashed(node) {
        TrashState::Trashed
    } else if app.is_deleted(node) {
        TrashState::Deleted
    } else if time_machine {
        TrashState::TimeMachine
    } else {
        TrashState::Present
    }
}

impl App {
    /// The Zoom action: zoom into `id`, or into its folder when it is a
    /// file; true when the view moved.
    pub fn zoom_into(&mut self, id: NodeId) -> (r: bool)
        requires
            old(self).valid_id(id),
        ensures
            final(self).same_but_cursor(old(self)),
            final(self).spec_has_cursor() == old(self).spec_has_cursor(),
            ({
                let target = match old(self).spec_tree() {
                    Some(t) => if t.spec_children()[id.0 as int].len() > 0 {
                        Some(id)
                    } else {
                        t.spec_nodes()[id.0 as int].parent
                    },
                    None => None,
                };
                match target {
                    Some(d) => {
                        &&& r == (old(self).spec_has_cursor() && old(self).spec_tree()->Some_0.spec_children()[d.0 as int].len()
                            > 0 && old(self).spec_dir() != d)
                        &&& r ==> final(self).spec_dir() == d && final(self).spec_selected() == 0
                            && final(self).spec_history() == old(self).spec_history().push(
                            (old(self).spec_dir(), old(self).spec_selected()),
                        )
                        &&& !r ==> final(self).spec_dir() == old(self).spec_dir() && final(self).spec_selected()
                            == old(self).spec_selected() && final(self).spec_history() == old(self).spec_history()
                    },
                    None => !r && final(self).spec_dir() == old(self).spec_dir() && final(self).spec_selected()
                        == old(self).spec_selected() && final(self).spec_history() == old(self).spec_history(),
                }
            }),
    {
        let target = match self.tree() {
            Some(tree) => {
                proof {
                    use_type_invariant(tree);
                }
                if tree.children(id).len() > 0 {
                    Some(id)
                } else {
                    tree.node(id).parent
                }
            },
            None => None,
        };
        match target {
            Some(d) => self.zoom_to(d),
            None => false,
        }
    }
}

/// Whether and how permanent deletion is offered: only where the build
/// offers it, and unlocked once the user has agreed.
pub fn permanent(app: &App, available: bool) -> (r: Permanent)
    ensures
        r == (if !available {
            Permanent::Unavailable
        } else if app.spec_permanent_delete() {
            Permanent::Enabled
        } else {
            Permanent::Locked
        }),
{
    if !available {
        Permanent::Unavailable
    } else if app.permanent_delete() {
        Permanent::Enabled
    } else {
        Permanent::Locked
    }
}

/// A menu row as the spec sees it: glyph, label, colour and action.
pub type RowView = (Option<Glyph>, Seq<char>, bool, Option<NodeAction>);

/// The rows as the spec sees them.
pub open spec fn views(rows: Seq<MenuRow>) -> Seq<RowView> {
    rows.map_values(|x: MenuRow| row_view(x))
}

/// The cloud row: offered for a downloaded item, shown disabled for one
/// that is not downloaded.
pub open spec fn cloud_rows(cloud: CloudStatus, f: MenuFeatures) -> Seq<RowView> {
    if !f.cloud {
        seq![]
    } else {
        match cloud {
            CloudStatus::Local => seq![],
            CloudStatus::Downloaded => seq![(Some(Glyph::CloudOff), "Remove Download"@, false, Some(NodeAction::Evict))],
            CloudStatus::Evicted => seq![(Some(Glyph::CloudOff), "Not Downloaded"@, false, None)],
        }
    }
}

/// The trash section: move to the trash and delete permanently for a node
/// on disk, put back or a disabled note for one already gone.
pub open spec fn trash_rows(trashed: TrashState, permanent: Permanent, f: MenuFeatures, name: Seq<char>) -> Seq<RowView> {
    if !(f.trash || f.delete) {
        seq![]
    } else {
        match trashed {
            TrashState::Present | TrashState::TimeMachine => {
                let backup = trashed == TrashState::TimeMachine;
                if backup && f.blocks_trash {
                    if f.trash {
                        seq![(Some(Glyph::Delete), "Move to "@ + name, false, None)]
                    } else {
                        seq![]
                    }
                } else {
                    let trash_row = if f.trash {
                        seq![(Some(Glyph::Delete), "Move to "@ + name, true, Some(NodeAction::Trash))]
                    } else {
                        seq![]
                    };
                    let delete_row = if !f.delete {
                        seq![]
                    } else {
                        match permanent {
                            Permanent::Unavailable => seq![],
                            Permanent::Locked => seq![
                                (None, "Enable Permanent Delete\u{2026}"@, false, Some(NodeAction::EnablePermanentDelete)),
                            ],
                            Permanent::Enabled => seq![
                                (None, "Delete Permanently"@, true, Some(NodeAction::DeletePermanently)),
                            ],
                        }
                    };
                    trash_row + delete_row
                }
            },
            TrashState::CanPutBack => if f.trash {
                seq![(Some(Glyph::Undo), "Put Back"@, false, Some(NodeAction::PutBack))]
            } else {
                seq![]
            },
            TrashState::Trashed => if f.trash {
                seq![(Some(Glyph::Delete), "In "@ + name, false, None)]
            } else {
                seq![]
            },
            TrashState::Deleted => seq![(Some(Glyph::Delete), "Deleted"@, false, None)],
        }
    }
}

/// The rows of a node's menu, top to bottom: the zoom item when offered,
/// "Copy path", "Open", the cloud row, then the trash section.
pub open spec fn rows_spec(
    zoom: Option<Seq<char>>,
    trashed: TrashState,
    permanent: Permanent,
    cloud: CloudStatus,
    f: MenuFeatures,
    name: Seq<char>,
) -> Seq<RowView> {
    let zoom_rows = match zoom {
        Some(label) => seq![(None, label, false, Some(NodeAction::Zoom))],
        None => seq![],
    };
    let copy = seq![(Some(Glyph::ContentCopy), "Copy path"@, false, Some(NodeAction::CopyPath))];
    let open = if f.open {
        seq![(Some(Glyph::OpenInNew), "Open"@, false, Some(NodeAction::Open))]
    } else {
        seq![]
    };
    zoom_rows + copy + open + cloud_rows(cloud, f) + trash_rows(trashed, permanent, f, name)
}

fn push_row(rows: &mut Vec<MenuRow>, glyph: Option<Glyph>, label: &str, destructive: bool, action: Option<NodeAction>)
    ensures
        views(final(rows)@) == views(old(rows)@).push((glyph, label@, destructive, action)),
{
    rows.push(MenuRow { glyph, label: label.to_owned(), destructive, action });
    proof {
        assert(views(rows@) =~= views(old(rows)@).push((glyph, label@, destructive, action)));
    }
}

fn push_cloud(rows: &mut Vec<MenuRow>, cloud: CloudStatus, f: MenuFeatures)
    ensures
        views(final(rows)@) == views(old(rows)@) + cloud_rows(cloud, f),
{
    let ghost start = views(rows@);
    if f.cloud {
        match cloud {
            CloudStatus::Local => {},
            CloudStatus::Downloaded => push_row(rows, Some(Glyph::CloudOff), "Remove Download", false, Some(NodeAction::Evict)),
            CloudStatus::Evicted => push_row(rows, Some(Glyph::CloudOff), "Not Downloaded", false, None),
        }
    }
    assert(views(rows@) =~= start + cloud_rows(cloud, f));
}

fn push_delete(rows: &mut Vec<MenuRow>, permanent: Permanent)
    ensures
        views(final(rows)@) == views(old(rows)@) + match permanent {
            Permanent::Unavailable => seq![],
            Permanent::Locked => seq![
                (None, "Enable Permanent Delete\u{2026}"@, false, Some(NodeAction::EnablePermanentDelete)),
            ],
            Permanent::Enabled => seq![(None, "Delete Permanently"@, true, Some(NodeAction::DeletePermanently))],
        },
{
    let ghost start = views(rows@);
    match permanent {
        Permanent::Unavailable => {
            assert(views(rows@) =~= start + seq![]);
        },
        Permanent::Locked => {
            push_row(rows, None, "Enable Permanent Delete\u{2026}", false, Some(NodeAction::EnablePermanentDelete));
            assert(views(rows@) =~= start + seq![
                (None, "Enable Permanent Delete\u{2026}"@, false, Some(NodeAction::EnablePermanentDelete)),
            ]);
        },
        Permanent::Enabled => {
            push_row(rows, None, "Delete Permanently", true, Some(NodeAction::DeletePermanently));
            assert(views(rows@) =~= start + seq![
                (None, "Delete Permanently"@, true, Some(NodeAction::DeletePermanently)),
            ]);
        },
    }
}

fn push_trash(rows: &mut Vec<MenuRow>, trashed: TrashState, permanent: Permanent, f: MenuFeatures, name: &str)
    ensures
        views(final(rows)@) == views(old(rows)@) + trash_rows(trashed, permanent, f, name@),
{
    let ghost start = views(rows@);
    let mut move_to = "Move to ".to_owned();
    move_to.append(name);
    let mut in_trash = "In ".to_owned();
    in_trash.append(name);
    if f.trash || f.delete {
        match trashed {
            TrashState::Present | TrashState::TimeMachine => {
                let backup = trashed == TrashState::TimeMachine;
                if backup && f.blocks_trash {
                    if f.trash {
                        push_row(rows, Some(Glyph::Delete), move_to.as_str(), false, None);
                    }
                } else {
                    if f.trash {
                        push_row(rows, Some(Glyph::Delete), move_to.as_str(), true, Some(NodeAction::Trash));
                    }
                    let ghost mid = views(rows@);
                    if f.delete {
                        push_delete(rows, permanent);
                    }
                    assert(views(rows@) =~= mid + (if !f.delete {
                        seq![]
                    } else {
                        match permanent {
                            Permanent::Unavailable => seq![],
                            Permanent::Locked => seq![
                                (None, "Enable Permanent Delete\u{2026}"@, false, Some(NodeAction::EnablePermanentDelete)),
                            ],
                            Permanent::Enabled => seq![
                                (None, "Delete Permanently"@, true, Some(NodeAction::DeletePermanently)),
                            ],
                        }
                    }));
                }
            },
            TrashState::CanPutBack => {
                if f.trash {
                    push_row(rows, Some(Glyph::Undo), "Put Back", false, Some(NodeAction::PutBack));
                }
            },
            TrashState::Trashed => {
                if f.trash {
                    push_row(rows, Some(Glyph::Delete), in_trash.as_str(), false, None);
                }
            },
            TrashState::Deleted => push_row(rows, Some(Glyph::Delete), "Deleted", false, None),
        }
    }
    assert(views(rows@) =~= start + trash_rows(trashed, permanent, f, name@));
}

/// The rows of a node's menu (see [`rows_spec`]). `zoom` is the label of
/// the zoom item, if one is offered; `trash_name` is what the platform
/// calls its trash.
pub fn menu_rows(
    zoom: Option<&str>,
    trashed: TrashState,
    permanent: Permanent,
    cloud: CloudStatus,
    features: MenuFeatures,
    trash_name: &str,
) -> (r: Vec<MenuRow>)
    ensures
        views(r@) == rows_spec(
            match zoom {
                Some(z) => Some(z@),
                None => None,
            },
            trashed,
            permanent,
            cloud,
            features,
            trash_name@,
        ),
{
    let mut rows: Vec<MenuRow> = Vec::new();
    assert(views(rows@) =~= seq![]);
    match zoom {
        Some(label) => push_row(&mut rows, None, label, false, Some(NodeAction::Zoom)),
        None => {},
    }
    push_row(&mut rows, Some(Glyph::ContentCopy), "Copy path", false, Some(NodeAction::CopyPath));
    if features.open {
        push_row(&mut rows, Some(Glyph::OpenInNew), "Open", false, Some(NodeAction::Open));
    }
    push_cloud(&mut rows, cloud, features);
    push_trash(&mut rows, trashed, permanent, features, trash_name);
    proof {
        let z = match zoom {
            Some(z) => Some(z@),
            None => None,
        };
        assert(views(rows@) =~= rows_spec(z, trashed, permanent, cloud, features, trash_name@));
    }
    rows
}

} // verus!
