//! Moving entries to the platform trash and putting them back: what the
//! app checks before a move and what it records after one. The moves
//! themselves are the platform's.
//!
//! The tree is not rescanned: [`App::is_trashed`] says what is gone, and
//! [`App::can_put_back`] whether the platform said where it went.

use crate::app::App;
use crate::paths::components;
use crate::scan::{ErrorKind, IoError};
use crate::tree::{path_of, NodeId};
use vstd::prelude::*;
use vstd::string::*;

verus! {

/// What the platform calls its trash, for messages.
pub fn trash_name(windows: bool) -> (r: &'static str)
    ensures
        r@ == (if windows {
            "Recycle Bin"@
        } else {
            "Trash"@
        }),
{
    if windows {
        "Recycle Bin"
    } else {
        "Trash"
    }
}

impl App {
    /// The path to move to the trash for `id`, once it passes
    /// [`App::check_removable`] with the home folder `home`; `NotFound`
    /// without a scan.
    pub fn trash_target(&self, id: NodeId, home: Option<&str>) -> (r: Result<String, IoError>)
        requires
            self.valid_id(id),
        ensures
            self.spec_tree() is None ==> (r matches Err(e) && e.kind == ErrorKind::NotFound),
            self.spec_tree() is Some ==> match r {
                Ok(p) => {
                    &&& p@ == path_of(self.spec_nodes(), id.0 as int)
                    &&& id.0 != 0
                    &&& components(p@).len() > 1
                    &&& home matches Some(h) ==> components(h@) != components(p@)
                },
                Err(e) => {
                    &&& e.kind == ErrorKind::PermissionDenied
                    &&& !(id.0 != 0 && components(path_of(self.spec_nodes(), id.0 as int)).len() > 1 && (home matches Some(
                        h,
                    ) ==> components(h@) != components(path_of(self.spec_nodes(), id.0 as int))))
                },
            },
    {
        let path = match self.path_of(id) {
            Some(p) => p,
            None => return Err(IoError { kind: ErrorKind::NotFound, message: "no scan".to_owned() }),
        };
        match self.check_removable(id, home) {
            Ok(()) => Ok(path),
            Err(e) => Err(e),
        }
    }

    /// Record that `id`, at `path`, went to the trash called `name`, and
    /// where when the platform said.
    pub fn trashed_to(&mut self, id: NodeId, location: Option<String>, path: &str, name: &str)
        ensures
            final(self).spec_trashed() == old(self).spec_trashed().insert(id.0, location),
            final(self).spec_message() matches Some(m) && m@ == "moved to "@ + name@ + ": "@ + path@,
            final(self).spec_deleted() == old(self).spec_deleted(),
            final(self).spec_evicted() == old(self).spec_evicted(),
            final(self).spec_tree() == old(self).spec_tree(),
            final(self).spec_has_cursor() == old(self).spec_has_cursor(),
            final(self).spec_dir() == old(self).spec_dir(),
            final(self).spec_selected() == old(self).spec_selected(),
            final(self).spec_history() == old(self).spec_history(),
    {
        self.mark_trashed(id, location);
        let mut message = "moved to ".to_owned();
        message.append(name);
        message.append(": ");
        message.append(path);
        self.set_message(Some(message));
    }

    /// Where `id` went in the trash and where it goes back to: `NotFound`
    /// without a scan, `Unsupported` when it was not trashed here or the
    /// platform did not say where it went.
    pub fn put_back_target(&self, id: NodeId) -> (r: Result<(String, String), IoError>)
        requires
            self.valid_id(id),
        ensures
            self.spec_tree() is None ==> (r matches Err(e) && e.kind == ErrorKind::NotFound),
            self.spec_tree() is Some ==> if self.spec_trashed().contains_key(id.0) && self.spec_trashed()[id.0] is Some {
                r matches Ok((location, original)) && location == self.spec_trashed()[id.0]->0 && original@ == path_of(
                    self.spec_nodes(),
                    id.0 as int,
                )
            } else {
                r matches Err(e) && e.kind == ErrorKind::Unsupported
            },
    {
        let original = match self.path_of(id) {
            Some(p) => p,
            None => return Err(IoError { kind: ErrorKind::NotFound, message: "no scan".to_owned() }),
        };
        match self.trash_location(id) {
            Some(location) => Ok((location, original)),
            None => Err(IoError { kind: ErrorKind::Unsupported, message: "trash location unknown".to_owned() }),
        }
    }

    /// Record that `id` is back at `original`.
    pub fn put_back_done(&mut self, id: NodeId, original: &str)
        ensures
            final(self).spec_trashed() == old(self).spec_trashed().remove(id.0),
            final(self).spec_message() matches Some(m) && m@ == "put back: "@ + original@,
            final(self).spec_tree() == old(self).spec_tree(),
            final(self).spec_has_cursor() == old(self).spec_has_cursor(),
            final(self).spec_dir() == old(self).spec_dir(),
            final(self).spec_selected() == old(self).spec_selected(),
            final(self).spec_history() == old(self).spec_history(),
    {
        self.mark_put_back(id);
        let mut message = "put back: ".to_owned();
        message.append(original);
        self.set_message(Some(message));
    }
}

/// Whether a put back may go ahead: not when something else is at the
/// original path now.
pub fn check_put_back(original_exists: bool) -> (r: Result<(), IoError>)
    ensures
        r is Ok <==> !original_exists,
        r matches Err(e) ==> e.kind == ErrorKind::AlreadyExists,
{
    if original_exists {
        Err(IoError { kind: ErrorKind::AlreadyExists, message: "something else is at the original path".to_owned() })
    } else {
        Ok(())
    }
}

} // verus!
