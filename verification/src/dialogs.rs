//! The permanent-delete dialogs of the window: the unlock, the
//! confirmation, the offer after the trash refused an item, and the report
//! of a deletion that did not go cleanly.
//!
//! At most one dialog is open. The window draws it and reports what the
//! user did this frame as a [`Choice`]; [`step`] says which dialog is
//! open next and what to do. The texts the dialogs show are here too.

use crate::app::App;
use crate::delete::DeleteOutcome;
use crate::format::{decimal, push_decimal, size, size_text};
use crate::paths::components;
use crate::scan::{ErrorKind, IoError};
use crate::tree::{path_of, NodeId};
use vstd::prelude::*;
use vstd::string::*;

verus! {

/// A modal dialog in front of the window.
#[derive(Debug)]
pub enum Dialog {
    /// Unlock permanent delete; `then` is the node whose deletion was asked
    /// for, to confirm next once unlocked.
    EnablePermanent { then: Option<NodeId> },
    /// Confirm deleting a node without the trash.
    ConfirmDelete(NodeId),
    /// The trash refused `node` with `error`; offer permanent deletion.
    TrashFailed { node: NodeId, error: String },
    /// A deletion of `path` that was cancelled or left failures.
    Report { path: String, outcome: DeleteOutcome },
}

/// What the user did in the open dialog this frame.
#[derive(Clone, Copy, Debug, PartialEq, Eq, Structural)]
pub enum Choice {
    /// Nothing yet.
    Nothing,
    /// The dialog's main button: Enable, Delete Permanently, the next step
    /// after a refused trash, or OK.
    Accept,
    /// The Cancel button.
    Cancel,
    /// A click on the backdrop, or Escape.
    Dismiss,
}

/// What the window does after a choice.
#[derive(Clone, Copy, Debug, PartialEq, Eq, Structural)]
pub enum Effect {
    Nothing,
    /// Unlock permanent delete.
    EnablePermanent,
    /// Start deleting this node permanently.
    Delete(NodeId),
}

/// The dialog open after accepting `dialog`, and what accepting it does:
/// unlocking goes on to confirm the node it was asked for, confirming
/// deletes, a refused trash leads to the confirmation when permanent delete
/// is unlocked (`enabled`) and to the unlock otherwise, and a report closes.
pub open spec fn accepted(dialog: Dialog, enabled: bool) -> (Option<Dialog>, Effect) {
    match dialog {
        Dialog::EnablePermanent { then } => (
            match then {
                Some(n) => Some(Dialog::ConfirmDelete(n)),
                None => None,
            },
            Effect::EnablePermanent,
        ),
        Dialog::ConfirmDelete(n) => (None, Effect::Delete(n)),
        Dialog::TrashFailed { node, error: _ } => (
            Some(
                if enabled {
                    Dialog::ConfirmDelete(node)
                } else {
                    Dialog::EnablePermanent { then: Some(node) }
                },
            ),
            Effect::Nothing,
        ),
        Dialog::Report { path: _, outcome: _ } => (None, Effect::Nothing),
    }
}

/// The dialog open after `choice` in `dialog`, and what to do: nothing
/// chosen keeps it open, Cancel and dismissing close it without acting,
/// and accepting goes as [`accepted`] says. `enabled` says whether
/// permanent delete is unlocked.
pub fn step(dialog: Dialog, choice: Choice, enabled: bool) -> (r: (Option<Dialog>, Effect))
    ensures
        choice == Choice::Nothing ==> r == (Some(dialog), Effect::Nothing),
        choice == Choice::Cancel || choice == Choice::Dismiss ==> r == (None::<Dialog>, Effect::Nothing),
        choice == Choice::Accept ==> r == accepted(dialog, enabled),
{
    match choice {
        Choice::Nothing => (Some(dialog), Effect::Nothing),
        Choice::Cancel | Choice::Dismiss => (None, Effect::Nothing),
        Choice::Accept => match dialog {
            Dialog::EnablePermanent { then } => (
                match then {
                    Some(n) => Some(Dialog::ConfirmDelete(n)),
                    None => None,
                },
                Effect::EnablePermanent,
            ),
            Dialog::ConfirmDelete(n) => (None, Effect::Delete(n)),
            Dialog::TrashFailed { node, error: _ } => {
                let next = if enabled {
                    Dialog::ConfirmDelete(node)
                } else {
                    Dialog::EnablePermanent { then: Some(node) }
                };
                (Some(next), Effect::Nothing)
            },
            Dialog::Report { path: _, outcome: _ } => (None, Effect::Nothing),
        },
    }
}

/// Whether a finished deletion is worth a report: a clean one only needs
/// the footer message.
pub fn wants_report(outcome: &DeleteOutcome) -> (r: bool)
    ensures
        r == (outcome.failures@.len() > 0 || outcome.cancelled),
{
    outcome.failures.len() > 0 || outcome.cancelled
}

/// The heading of the confirmation.
pub fn confirm_heading(is_dir: bool) -> (r: &'static str)
    ensures
        r@ == if is_dir {
            "Delete this folder permanently?"@
        } else {
            "Delete this file permanently?"@
        },
{
    if is_dir {
        "Delete this folder permanently?"
    } else {
        "Delete this file permanently?"
    }
}

/// What the confirmation says of the item: its size, and for a folder
/// how many files it holds.
pub open spec fn confirm_detail_spec(bytes: nat, files: nat, is_dir: bool) -> Seq<char> {
    if is_dir {
        size_text(bytes) + ", "@ + decimal(files) + " files"@
    } else {
        size_text(bytes)
    }
}

/// The size line of the confirmation (see [`confirm_detail_spec`]).
pub fn confirm_detail(bytes: u64, files: u64, is_dir: bool) -> (r: String)
    ensures
        r@ == confirm_detail_spec(bytes as nat, files as nat, is_dir),
{
    let mut text = size(bytes);
    if is_dir {
        text.append(", ");
        push_decimal(&mut text, files as u128);
        text.append(" files");
        proof {
            reveal_strlit(", ");
            reveal_strlit(" files");
        }
    }
    text
}

/// The heading of a report.
pub fn report_heading(cancelled: bool) -> (r: &'static str)
    ensures
        r@ == if cancelled {
            "Deletion cancelled"@
        } else {
            "Some items were not deleted"@
        },
{
    if cancelled {
        "Deletion cancelled"
    } else {
        "Some items were not deleted"
    }
}

/// The counts of a report: how many entries went and how many did not.
pub open spec fn report_summary_spec(removed: nat, failed: nat) -> Seq<char> {
    decimal(removed) + " removed, "@ + decimal(failed) + " failed."@
}

/// The counts line of a report (see [`report_summary_spec`]).
pub fn report_summary(outcome: &DeleteOutcome) -> (r: String)
    ensures
        r@ == report_summary_spec(outcome.removed as nat, outcome.failures@.len()),
{
    let mut text = String::new();
    push_decimal(&mut text, outcome.removed as u128);
    text.append(" removed, ");
    push_decimal(&mut text, outcome.failures.len() as u128);
    text.append(" failed.");
    proof {
        reveal_strlit(" removed, ");
        reveal_strlit(" failed.");
    }
    text
}

/// The progress of a running deletion, `done` of `total` entries; a
/// deletion of nothing counts as one entry, so the bar has a width.
pub open spec fn progress_spec(done: nat, total: nat) -> Seq<char> {
    decimal(done) + " of "@ + decimal(if total == 0 { 1 } else { total }) + " items"@
}

/// The progress text of a running deletion (see [`progress_spec`]).
pub fn progress_text(done: u64, total: u64) -> (r: String)
    ensures
        r@ == progress_spec(done as nat, total as nat),
{
    let total = if total == 0 {
        1
    } else {
        total
    };
    let mut text = String::new();
    push_decimal(&mut text, done as u128);
    text.append(" of ");
    push_decimal(&mut text, total as u128);
    text.append(" items");
    proof {
        reveal_strlit(" of ");
        reveal_strlit(" items");
    }
    text
}

/// The message after a refused action: `prefix` and the reason.
pub open spec fn failure_spec(prefix: Seq<char>, error: IoError) -> Seq<char> {
    prefix + error.message@
}

fn failure_message(prefix: &str, error: &IoError) -> (r: String)
    ensures
        r@ == failure_spec(prefix@, *error),
{
    let mut text = prefix.to_owned();
    text.append(error.message.as_str());
    text
}

/// Whether `id` may be removed at all: the tree is there, and it is not
/// the scan root, a filesystem root, or the home folder `home` (as
/// [`App::check_removable`] decides).
pub open spec fn removable(app: App, id: NodeId, home: Option<&str>) -> bool {
    &&& app.spec_tree() is Some
    &&& id.0 != 0
    &&& components(path_of(app.spec_nodes(), id.0 as int)).len() > 1
    &&& home matches Some(h) ==> components(h@) != components(path_of(app.spec_nodes(), id.0 as int))
}

impl App {
    /// Ask to delete `id` permanently: the confirmation opens when it may
    /// be removed and no deletion is running (`busy`); otherwise the
    /// message says why not and no dialog opens.
    pub fn ask_delete(&mut self, id: NodeId, busy: bool, home: Option<&str>) -> (r: Option<Dialog>)
        requires
            old(self).valid_id(id),
        ensures
            removable(*old(self), id, home) && !busy ==> {
                &&& r == Some(Dialog::ConfirmDelete(id))
                &&& final(self).spec_message() == old(self).spec_message()
            },
            removable(*old(self), id, home) && busy ==> {
                &&& r is None
                &&& final(self).spec_message() matches Some(m)
                &&& m@ == "delete failed: a deletion is already running"@
            },
            !removable(*old(self), id, home) ==> {
                &&& r is None
                &&& final(self).spec_message() matches Some(m)
                &&& exists|e: IoError| e.kind == ErrorKind::PermissionDenied && m@ == failure_spec("delete failed: "@, e)
            },
            final(self).spec_tree() == old(self).spec_tree(),
            final(self).spec_trashed() == old(self).spec_trashed(),
            final(self).spec_deleted() == old(self).spec_deleted(),
            final(self).spec_permanent_delete() == old(self).spec_permanent_delete(),
    {
        match self.check_removable(id, home) {
            Ok(()) => {
                if busy {
                    self.set_message(Some("delete failed: a deletion is already running".to_owned()));
                    None
                } else {
                    Some(Dialog::ConfirmDelete(id))
                }
            },
            Err(e) => {
                let text = failure_message("delete failed: ", &e);
                self.set_message(Some(text));
                None
            },
        }
    }

    /// Ask to unlock permanent delete on the way to deleting `id`: the
    /// unlock opens, set to confirm `id` next, when it may be removed;
    /// otherwise the message says why not.
    pub fn ask_enable_permanent(&mut self, id: NodeId, home: Option<&str>) -> (r: Option<Dialog>)
        requires
            old(self).valid_id(id),
        ensures
            removable(*old(self), id, home) ==> {
                &&& r == Some(Dialog::EnablePermanent { then: Some(id) })
                &&& final(self).spec_message() == old(self).spec_message()
            },
            !removable(*old(self), id, home) ==> {
                &&& r is None
                &&& final(self).spec_message() matches Some(m)
                &&& exists|e: IoError| e.kind == ErrorKind::PermissionDenied && m@ == failure_spec("delete failed: "@, e)
            },
            final(self).spec_tree() == old(self).spec_tree(),
            final(self).spec_trashed() == old(self).spec_trashed(),
            final(self).spec_deleted() == old(self).spec_deleted(),
            final(self).spec_permanent_delete() == old(self).spec_permanent_delete(),
    {
        match self.check_removable(id, home) {
            Ok(()) => Some(Dialog::EnablePermanent { then: Some(id) }),
            Err(e) => {
                let text = failure_message("delete failed: ", &e);
                self.set_message(Some(text));
                None
            },
        }
    }

    /// The Copy Path action: the text to put on the clipboard, `id`'s path,
    /// with a message saying it was copied; `None`, and no message, when
    /// nothing is scanned.
    pub fn copy_path(&mut self, id: NodeId) -> (r: Option<String>)
        requires
            old(self).valid_id(id),
        ensures
            match old(self).spec_tree() {
                Some(t) => {
                    &&& r matches Some(p) && p@ == path_of(t.spec_nodes(), id.0 as int)
                    &&& final(self).spec_message() matches Some(m) && m@ == "copied "@ + path_of(
                        t.spec_nodes(),
                        id.0 as int,
                    )
                },
                None => r is None && final(self).spec_message() == old(self).spec_message(),
            },
            final(self).spec_tree() == old(self).spec_tree(),
            final(self).spec_trashed() == old(self).spec_trashed(),
            final(self).spec_deleted() == old(self).spec_deleted(),
            final(self).spec_permanent_delete() == old(self).spec_permanent_delete(),
    {
        match self.path_of(id) {
            Some(path) => {
                let mut text = String::from_str("copied ");
                text.append(path.as_str());
                proof {
                    reveal_strlit("copied ");
                }
                self.set_message(Some(text));
                Some(path)
            },
            None => None,
        }
    }

    /// An action on a node failed: the message names the action, as in
    /// `put back` or `open`, and the reason.
    pub fn action_failed(&mut self, action: &str, error: &IoError)
        ensures
            final(self).spec_message() matches Some(m) && m@ == failure_spec(action@ + " failed: "@, *error),
            final(self).spec_tree() == old(self).spec_tree(),
            final(self).spec_trashed() == old(self).spec_trashed(),
            final(self).spec_deleted() == old(self).spec_deleted(),
            final(self).spec_permanent_delete() == old(self).spec_permanent_delete(),
    {
        let mut prefix = action.to_owned();
        prefix.append(" failed: ");
        proof {
            reveal_strlit(" failed: ");
        }
        let text = failure_message(prefix.as_str(), error);
        self.set_message(Some(text));
    }

    /// The trash refused `id` with `error`: the message says so, naming
    /// the trash `trash`, and when `id` may be removed at all the offer of
    /// permanent deletion opens.
    pub fn trash_refused(&mut self, id: NodeId, error: &IoError, trash: &str, home: Option<&str>) -> (r: Option<
        Dialog,
    >)
        requires
            old(self).valid_id(id),
        ensures
            final(self).spec_message() matches Some(m) && m@ == failure_spec(
                "move to "@ + trash@ + " failed: "@,
                *error,
            ),
            removable(*old(self), id, home) ==> (r matches Some(Dialog::TrashFailed { node, error: text })
                && node == id && text@ == error.message@),
            !removable(*old(self), id, home) ==> r is None,
            final(self).spec_tree() == old(self).spec_tree(),
            final(self).spec_trashed() == old(self).spec_trashed(),
            final(self).spec_deleted() == old(self).spec_deleted(),
            final(self).spec_permanent_delete() == old(self).spec_permanent_delete(),
    {
        let removable = self.check_removable(id, home).is_ok();
        let mut action = String::from_str("move to ");
        action.append(trash);
        proof {
            reveal_strlit("move to ");
            assert(("move to "@ + trash@) + " failed: "@ =~= "move to "@ + trash@ + " failed: "@);
        }
        self.action_failed(action.as_str(), error);
        if removable {
            Some(Dialog::TrashFailed { node: id, error: error.message.clone() })
        } else {
            None
        }
    }
}

} // verus!
