//! Time Machine backups: recognising a backup by its path, or a backup
//! volume by what its top directory holds.

use crate::paths::{has_component, has_name, starts_with, starts_with_spec};
use crate::text::chars_of;
use vstd::prelude::*;
use vstd::string::*;

verus! {

/// Whether `path` lies in a Time Machine backup: under the local snapshot
/// mount point `/Volumes/.timemachine`, or inside a `Backups.backupdb`.
pub fn in_backup_path(path: &str) -> (r: bool)
    ensures
        r == (starts_with_spec(path@, "/Volumes/.timemachine"@) || has_name(path@, "Backups.backupdb"@)),
{
    starts_with(path, "/Volumes/.timemachine") || has_component(path, "Backups.backupdb")
}

/// Whether `c` is an ASCII digit.
pub open spec fn is_digit(c: char) -> bool {
    '0' <= c <= '9'
}

/// Whether `name` is `YYYY-MM-DD-HHMMSS` followed by `ext`, as Time
/// Machine names its backups.
pub open spec fn dated(name: Seq<char>, ext: Seq<char>) -> bool {
    &&& name.len() == 17 + ext.len()
    &&& name.subrange(17, name.len() as int) == ext
    &&& forall|i: int|
        0 <= i < 17 ==> if i == 4 || i == 7 || i == 10 {
            #[trigger] name[i] == '-'
        } else {
            is_digit(name[i])
        }
}

/// Whether `name` is a dated backup name ending in `ext`.
pub fn is_dated(name: &str, ext: &str) -> (r: bool)
    ensures
        r == dated(name@, ext@),
{
    let n = chars_of(name);
    let e = chars_of(ext);
    if n.len() < 17 || n.len() - 17 != e.len() {
        return false;
    }
    let nl = n.len();
    let mut k: usize = 0;
    while k < e.len()
        invariant
            n@ == name@,
            e@ == ext@,
            nl == n@.len(),
            n@.len() == 17 + e@.len(),
            k <= e@.len(),
            forall|j: int| 0 <= j < k ==> n@[17 + j] == e@[j],
        decreases e@.len() - k,
    {
        if n[17 + k] != e[k] {
            assert(n@.subrange(17, n@.len() as int)[k as int] != e@[k as int]);
            assert(n@.subrange(17, n@.len() as int) != e@);
            return false;
        }
        k = k + 1;
    }
    assert(n@.subrange(17, n@.len() as int) =~= e@);
    let mut i: usize = 0;
    while i < 17
        invariant
            n@ == name@,
            e@ == ext@,
            n@.subrange(17, n@.len() as int) == e@,
            n@.len() == 17 + e@.len(),
            i <= 17,
            forall|j: int|
                0 <= j < i ==> if j == 4 || j == 7 || j == 10 {
                    #[trigger] n@[j] == '-'
                } else {
                    is_digit(n@[j])
                },
        decreases 17 - i,
    {
        let c = n[i];
        let ok = if i == 4 || i == 7 || i == 10 {
            c == '-'
        } else {
            '0' <= c && c <= '9'
        };
        if !ok {
            assert(!(if i == 4 || i == 7 || i == 10 {
                n@[i as int] == '-'
            } else {
                is_digit(n@[i as int])
            }));
            return false;
        }
        i = i + 1;
    }
    true
}

/// Whether a volume's top directory with entries named `names` is a
/// backup volume: it holds a `Backups.backupdb`, or a dated `.backup`,
/// `.previous` or `.interrupted` snapshot.
pub open spec fn marks_backup(names: Seq<String>) -> bool {
    exists|i: int|
        0 <= i < names.len() && {
            let n = (#[trigger] names[i])@;
            n == "Backups.backupdb"@ || dated(n, ".backup"@) || dated(n, ".previous"@) || dated(n, ".interrupted"@)
        }
}

/// Whether the scan root `root`, on a volume whose top directory holds
/// the entries `top_names` (when they could be listed), is a Time Machine
/// backup: the path says so, or the volume's top directory does.
pub fn is_backup_volume(root: &str, top_names: Option<&[String]>) -> (r: bool)
    ensures
        r == (starts_with_spec(root@, "/Volumes/.timemachine"@) || has_name(root@, "Backups.backupdb"@) || (
        top_names matches Some(names) && marks_backup(names@))),
{
    if in_backup_path(root) {
        return true;
    }
    let names = match top_names {
        Some(names) => names,
        None => return false,
    };
    let db = chars_of("Backups.backupdb");
    proof {
        reveal_strlit("Backups.backupdb");
    }
    let mut i: usize = 0;
    while i < names.len()
        invariant
            top_names == Some(names),
            i <= names@.len(),
            db@ == "Backups.backupdb"@,
            forall|j: int|
                0 <= j < i ==> !({
                    let n = (#[trigger] names@[j])@;
                    n == "Backups.backupdb"@ || dated(n, ".backup"@) || dated(n, ".previous"@) || dated(
                        n,
                        ".interrupted"@,
                    )
                }),
        decreases names@.len() - i,
    {
        let name = names[i].as_str();
        let chars = chars_of(name);
        if crate::paths::same_chars(&chars, &db) || is_dated(name, ".backup") || is_dated(name, ".previous")
            || is_dated(name, ".interrupted") {
            assert(names@[i as int]@ == name@);
            return true;
        }
        i = i + 1;
    }
    false
}

/// Walking up from level `k` (0 being the path itself) while the device
/// stays `dev`: the level of the volume's top, or `None` when a level's
/// device could not be read.
pub open spec fn level_from(devices: Seq<Option<u64>>, dev: u64, k: int) -> Option<int>
    decreases devices.len() - k,
{
    if k >= devices.len() {
        Some(devices.len() - 1)
    } else {
        match devices[k] {
            None => None,
            Some(d) => if d != dev {
                Some(k - 1)
            } else {
                level_from(devices, dev, k + 1)
            },
        }
    }
}

/// How many levels above a path the top of its volume is, from the
/// devices of the path and of each of its ancestors, nearest first:
/// walking up while the device stays the path's own. `None` when the
/// path's device, or that of an ancestor reached on the way, could not be
/// read, or when there is no path.
pub open spec fn volume_level_spec(devices: Seq<Option<u64>>) -> Option<int> {
    if devices.len() == 0 {
        None
    } else {
        match devices[0] {
            None => None,
            Some(dev) => level_from(devices, dev, 1),
        }
    }
}

/// The level of the top of a path's volume (see [`volume_level_spec`]).
/// The caller reads the devices one level at a time and may stop at the
/// first that differs.
pub fn volume_level(devices: &[Option<u64>]) -> (r: Option<usize>)
    ensures
        match volume_level_spec(devices@) {
            Some(k) => r == Some(k as usize) && 0 <= k < devices@.len(),
            None => r is None,
        },
{
    if devices.len() == 0 {
        return None;
    }
    let dev = match devices[0] {
        None => return None,
        Some(d) => d,
    };
    let mut k: usize = 1;
    while k < devices.len()
        invariant
            1 <= k <= devices@.len(),
            devices@[0] == Some(dev),
            volume_level_spec(devices@) == level_from(devices@, dev, k as int),
        decreases devices@.len() - k,
    {
        match devices[k] {
            None => return None,
            Some(d) => {
                if d != dev {
                    return Some(k - 1);
                }
            },
        }
        k = k + 1;
    }
    Some(devices.len() - 1)
}

} // verus!
