//! Places worth scanning: the home folder, mounted disks and shares, and
//! the filesystem root. The caller reads the mount table and the disks'
//! capacities; this decides what is listed and how it is named.

use crate::paths::{components, path_components};
use crate::text::{chars_of, lines, lines_of, split_whitespace, text_le, text_le_exec, words_from};
use std::cmp::Ordering;
use vstd::prelude::*;
use vstd::string::*;

verus! {

/// What sort of place a location is.
#[derive(Clone, Copy, Debug, PartialEq, Eq, Structural)]
pub enum Kind {
    /// The user's home folder.
    Home,
    /// A mounted disk, drive or share.
    Volume,
    /// The root of the whole filesystem.
    Root,
}

/// A place to scan.
#[derive(Clone, Debug)]
pub struct Location {
    /// Label to show: "Home", "Root", a volume or drive name.
    pub name: String,
    /// Where to scan.
    pub path: String,
    /// What sort of place it is.
    pub kind: Kind,
    /// Capacity in bytes, when the filesystem reports it.
    pub total: Option<u64>,
    /// Bytes available to the user, when the filesystem reports it.
    pub free: Option<u64>,
}

/// The byte value of three octal digits at `j`, when they are octal
/// digits and the value fits a byte.
pub open spec fn octal_at(b: Seq<u8>, j: int) -> Option<u8> {
    if 0 <= j && j + 3 <= b.len() && 48 <= b[j] <= 55 && 48 <= b[j + 1] <= 55 && 48 <= b[j + 2] <= 55 {
        let v = (b[j] - 48) * 64 + (b[j + 1] - 48) * 8 + (b[j + 2] - 48);
        if v <= 255 {
            Some(v as u8)
        } else {
            None
        }
    } else {
        None
    }
}

/// The bytes of a mount table field from `i` on with its `\NNN` octal
/// escapes decoded; a backslash not followed by three octal digits (and
/// at least one more byte) is kept as it is.
pub open spec fn unescaped_from(b: Seq<u8>, i: int) -> Seq<u8>
    decreases b.len() - i,
{
    if i < 0 || i >= b.len() {
        seq![]
    } else if b[i] == 92 && i + 3 < b.len() && octal_at(b, i + 1) is Some {
        seq![octal_at(b, i + 1)->Some_0] + unescaped_from(b, i + 4)
    } else {
        seq![b[i]] + unescaped_from(b, i + 1)
    }
}

/// What `String::from_utf8_lossy` makes of some bytes.
pub uninterp spec fn utf8_lossy(bytes: Seq<u8>) -> Seq<char>;

/// `String::from_utf8_lossy`: the text the bytes encode in UTF-8, each
/// invalid sequence replaced by U+FFFD.
#[verifier::external_body]
fn string_from_utf8_lossy(bytes: &[u8]) -> (r: String)
    ensures
        r@ == utf8_lossy(bytes@),
{
    String::from_utf8_lossy(bytes).into_owned()
}

/// What `str::as_bytes` gives for a text: its UTF-8 encoding.
pub uninterp spec fn utf8_bytes(text: Seq<char>) -> Seq<u8>;

/// `str::as_bytes`: the UTF-8 encoding of the text. Being valid UTF-8,
/// it decodes back to the text, and, as in all UTF-8, the byte of an ASCII
/// character such as `\` occurs in it only where that character does.
#[verifier::external_body]
fn bytes_of(s: &str) -> (r: &[u8])
    ensures
        r@ == utf8_bytes(s@),
        utf8_lossy(r@) == s@,
        r@.contains(92u8) == s@.contains('\\'),
{
    s.as_bytes()
}

/// Bytes without a backslash have nothing to decode.
proof fn lemma_no_escapes(b: Seq<u8>, i: int)
    requires
        0 <= i <= b.len(),
        !b.contains(92u8),
    ensures
        unescaped_from(b, i) == b.subrange(i, b.len() as int),
    decreases b.len() - i,
{
    if i < b.len() {
        assert(b[i] != 92);
        lemma_no_escapes(b, i + 1);
        assert(seq![b[i]] + b.subrange(i + 1, b.len() as int) =~= b.subrange(i, b.len() as int));
    } else {
        assert(b.subrange(i, b.len() as int) =~= Seq::<u8>::empty());
    }
}

/// Decode the octal escapes (`\040` for a space) of a mount table field;
/// a field without a backslash comes back unchanged.
pub fn unescape_mount(s: &str) -> (r: String)
    ensures
        r@ == utf8_lossy(unescaped_from(utf8_bytes(s@), 0)),
        !s@.contains('\\') ==> r@ == s@,
{
    let bytes = bytes_of(s);
    let n = bytes.len();
    let mut out: Vec<u8> = Vec::new();
    let mut i: usize = 0;
    while i < n
        invariant
            n == bytes@.len(),
            i <= n,
            out@ + unescaped_from(bytes@, i as int) == unescaped_from(bytes@, 0),
        decreases n - i,
    {
        let ghost before = out@;
        if bytes[i] == 92 && n >= 4 && i < n - 3 && 48 <= bytes[i + 1] && bytes[i + 1] <= 55 && 48 <= bytes[i + 2]
            && bytes[i + 2] <= 55 && 48 <= bytes[i + 3] && bytes[i + 3] <= 55 {
            let v: u32 = (bytes[i + 1] - 48) as u32 * 64 + (bytes[i + 2] - 48) as u32 * 8 + (bytes[i + 3] - 48) as u32;
            if v <= 255 {
                out.push(v as u8);
                assert(octal_at(bytes@, i + 1) == Some(v as u8));
                assert(out@ + unescaped_from(bytes@, i + 4) =~= before + unescaped_from(bytes@, i as int));
                i = i + 4;
                continue;
            }
        }
        out.push(bytes[i]);
        assert(out@ + unescaped_from(bytes@, i + 1) =~= before + unescaped_from(bytes@, i as int));
        i = i + 1;
    }
    assert(out@ + Seq::<u8>::empty() =~= out@);
    proof {
        if !s@.contains('\\') {
            lemma_no_escapes(bytes@, 0);
            assert(bytes@.subrange(0, bytes@.len() as int) =~= bytes@);
        }
    }
    string_from_utf8_lossy(out.as_slice())
}

/// Whether `s` begins with `prefix`.
pub open spec fn begins(s: Seq<char>, prefix: Seq<char>) -> bool {
    prefix.len() <= s.len() && s.take(prefix.len() as int) == prefix
}

/// Whether a filesystem type is a network or pooled one listed even
/// without a `/dev/` device.
pub open spec fn is_network(fstype: Seq<char>) -> bool {
    ||| fstype == "nfs"@
    ||| fstype == "nfs4"@
    ||| fstype == "cifs"@
    ||| fstype == "smb3"@
    ||| fstype == "zfs"@
    ||| begins(fstype, "fuse."@)
}

/// Whether a mount table line (device, mount point, type, ...) names a
/// disk or share worth listing: a device under `/dev/` or a network
/// filesystem, not a squashfs image, and not the root.
pub open spec fn worth_listing(words: Seq<Seq<char>>) -> bool {
    &&& words.len() >= 3
    &&& begins(words[0], "/dev/"@) || is_network(words[2])
    &&& words[2] != "squashfs"@
    &&& words[1] != "/"@
}

/// Whether a filesystem type names a network or pooled filesystem: NFS,
/// SMB, ZFS or any FUSE filesystem.
proof fn lemma_network_types(fstype: Seq<char>)
    requires
        fstype == "nfs"@ || fstype == "nfs4"@ || fstype == "cifs"@ || fstype == "smb3"@ || fstype == "zfs"@ || (
        fstype.len() >= 5 && fstype.take(5) == "fuse."@),
    ensures
        is_network(fstype),
{
    if fstype.len() >= 5 && fstype.take(5) == "fuse."@ {
        reveal_strlit("fuse.");
        assert("fuse."@.len() == 5);
    }
}

/// Network shares are offered whatever their device: a mount table line
/// for an NFS, SMB, ZFS or FUSE filesystem mounted anywhere but `/` lists
/// its mount point (escapes decoded), named after its last part, unless
/// its device was listed already.
pub proof fn network_shares_are_listed(table: Seq<Seq<char>>, k: int, seen: Seq<Seq<char>>)
    requires
        0 <= k < table.len(),
        ({
            let words = words_from(table[k], 0);
            let fstype = words[2];
            &&& words.len() >= 3
            &&& fstype == "nfs"@ || fstype == "nfs4"@ || fstype == "cifs"@ || fstype == "smb3"@ || fstype == "zfs"@
                || (fstype.len() >= 5 && fstype.take(5) == "fuse."@)
            &&& words[1] != "/"@
            &&& !seen.contains(words[0])
        }),
    ensures
        ({
            let words = words_from(table[k], 0);
            let mount = utf8_lossy(unescaped_from(utf8_bytes(words[1]), 0));
            mounts_from(table, k, seen) == seq![(last_name(mount), mount)] + mounts_from(
                table,
                k + 1,
                seen.push(words[0]),
            )
        }),
{
    let words = words_from(table[k], 0);
    lemma_network_types(words[2]);
    reveal_strlit("squashfs");
    reveal_strlit("nfs");
    reveal_strlit("nfs4");
    reveal_strlit("cifs");
    reveal_strlit("smb3");
    reveal_strlit("zfs");
    reveal_strlit("fuse.");
    assert(words[2] != "squashfs"@) by {
        if words[2] == "squashfs"@ {
            assert(words[2].len() == 8);
            assert(words[2].take(5) =~= seq!['s', 'q', 'u', 'a', 's']);
        }
    }
    assert(worth_listing(words));
}

/// The text after the last `/` of `s`, or all of `s` when that is empty.
pub open spec fn last_name(s: Seq<char>) -> Seq<char> {
    let tail = last_segment(s, s.len() as int);
    if tail.len() > 0 {
        tail
    } else {
        s
    }
}

/// The text of `s[..j]` after its last `/`.
pub open spec fn last_segment(s: Seq<char>, j: int) -> Seq<char>
    decreases j,
{
    if j <= 0 {
        s
    } else if s[j - 1] == '/' {
        s.subrange(j, s.len() as int)
    } else {
        last_segment(s, j - 1)
    }
}

/// The (name, mount point) of every disk or share in lines `k..` of a
/// mount table, each device once (its first mount), not counting the
/// devices in `seen`.
pub open spec fn mounts_from(table: Seq<Seq<char>>, k: int, seen: Seq<Seq<char>>) -> Seq<(Seq<char>, Seq<char>)>
    decreases table.len() - k,
{
    if k < 0 || k >= table.len() {
        seq![]
    } else {
        let words = words_from(table[k], 0);
        if !worth_listing(words) || seen.contains(words[0]) {
            mounts_from(table, k + 1, seen)
        } else {
            let mount = utf8_lossy(unescaped_from(utf8_bytes(words[1]), 0));
            seq![(last_name(mount), mount)] + mounts_from(table, k + 1, seen.push(words[0]))
        }
    }
}

fn begins_exec(s: &Vec<char>, prefix: &str) -> (r: bool)
    ensures
        r == begins(s@, prefix@),
{
    let p = chars_of(prefix);
    if p.len() > s.len() {
        return false;
    }
    let mut i: usize = 0;
    while i < p.len()
        invariant
            p@ == prefix@,
            p@.len() <= s@.len(),
            i <= p@.len(),
            forall|j: int| 0 <= j < i ==> s@[j] == p@[j],
        decreases p@.len() - i,
    {
        if s[i] != p[i] {
            assert(s@.take(p@.len() as int)[i as int] != p@[i as int]);
            return false;
        }
        i = i + 1;
    }
    assert(s@.take(p@.len() as int) =~= p@);
    true
}

fn is_text(s: &Vec<char>, literal: &str) -> (r: bool)
    ensures
        r == (s@ == literal@),
{
    let l = chars_of(literal);
    crate::paths::same_chars(s, &l)
}

fn worth_listing_exec(words: &Vec<String>) -> (r: bool)
    ensures
        r == worth_listing(words@.map_values(|w: String| w@)),
{
    let ghost ws = words@.map_values(|w: String| w@);
    if words.len() < 3 {
        return false;
    }
    let device = chars_of(words[0].as_str());
    let mount = chars_of(words[1].as_str());
    let fstype = chars_of(words[2].as_str());
    assert(ws[0] == device@ && ws[1] == mount@ && ws[2] == fstype@);
    let network = is_text(&fstype, "nfs") || is_text(&fstype, "nfs4") || is_text(&fstype, "cifs") || is_text(
        &fstype,
        "smb3",
    ) || is_text(&fstype, "zfs") || begins_exec(&fstype, "fuse.");
    (begins_exec(&device, "/dev/") || network) && !is_text(&fstype, "squashfs") && !is_text(&mount, "/")
}

/// The text after the last `/` of `s`, or all of `s` when that is empty.
fn last_name_of(s: &String) -> (r: String)
    ensures
        r@ == last_name(s@),
{
    let chars = chars_of(s.as_str());
    let mut j = chars.len();
    while j > 0 && chars[j - 1] != '/'
        invariant
            j <= chars@.len(),
            chars@ == s@,
            last_segment(chars@, j as int) == last_segment(chars@, chars@.len() as int),
        decreases j,
    {
        j = j - 1;
    }
    let tail = if j == 0 {
        crate::text::text_of(&chars, 0, chars.len())
    } else {
        crate::text::text_of(&chars, j, chars.len())
    };
    proof {
        if j == 0 {
            assert(chars@.subrange(0, chars@.len() as int) =~= chars@);
        }
    }
    if tail.unicode_len() > 0 {
        tail
    } else {
        s.clone()
    }
}

fn contains_text(list: &Vec<String>, item: &String) -> (r: bool)
    ensures
        r == list@.map_values(|w: String| w@).contains(item@),
{
    let target = chars_of(item.as_str());
    let ghost view = list@.map_values(|w: String| w@);
    let mut i: usize = 0;
    while i < list.len()
        invariant
            i <= list@.len(),
            target@ == item@,
            view == list@.map_values(|w: String| w@),
            forall|j: int| 0 <= j < i ==> view[j] != item@,
        decreases list@.len() - i,
    {
        let c = chars_of(list[i].as_str());
        if crate::paths::same_chars(&c, &target) {
            assert(view[i as int] == item@);
            return true;
        }
        i = i + 1;
    }
    false
}

/// Order two texts by code point, as `str`'s `cmp` does.
fn compare_text(a: &String, b: &String) -> (r: Ordering)
    ensures
        (r == Ordering::Less || r == Ordering::Equal) == text_le(a@, b@),
{
    let x = chars_of(a.as_str());
    let y = chars_of(b.as_str());
    if text_le_exec(&x, &y) {
        if text_le_exec(&y, &x) {
            Ordering::Equal
        } else {
            Ordering::Less
        }
    } else {
        Ordering::Greater
    }
}

/// A (name, path) pair as text.
pub open spec fn pair_view(p: (String, String)) -> (Seq<char>, Seq<char>) {
    (p.0@, p.1@)
}

/// Whether `r` is `s` reordered by `p` (`r[i]` is `s[p[i]]`, each taken
/// once), names ascending, and pairs with equal names in their order in `s`.
pub open spec fn name_order(s: Seq<(Seq<char>, Seq<char>)>, r: Seq<(Seq<char>, Seq<char>)>, p: Seq<int>) -> bool {
    &&& p.len() == s.len()
    &&& r.len() == s.len()
    &&& forall|i: int| 0 <= i < p.len() ==> 0 <= #[trigger] p[i] < s.len() && r[i] == s[p[i]]
    &&& forall|i: int, j: int| 0 <= i < j < p.len() ==> #[trigger] p[i] != #[trigger] p[j]
    &&& forall|i: int, j: int| 0 <= i < j < r.len() ==> text_le((#[trigger] r[i]).0, (#[trigger] r[j]).0)
    &&& forall|i: int, j: int| 0 <= i < j < r.len() && (#[trigger] r[i]).0 == (#[trigger] r[j]).0 ==> p[i] < p[j]
}

/// Whether `r` is `s` sorted by name, stably: names ascending, pairs with
/// equal names in their order in `s`.
pub open spec fn sorted_by_name(s: Seq<(Seq<char>, Seq<char>)>, r: Seq<(Seq<char>, Seq<char>)>) -> bool {
    exists|p: Seq<int>| #[trigger] name_order(s, r, p)
}

/// Sort (name, path) pairs by name (`slice::sort_by`, which is stable,
/// with [`compare_text`] on the names): names ascending, pairs with equal
/// names kept in their order.
#[verifier::external_body]
fn sort_by_name(list: &mut Vec<(String, String)>)
    ensures
        sorted_by_name(
            old(list)@.map_values(|p: (String, String)| pair_view(p)),
            final(list)@.map_values(|p: (String, String)| pair_view(p)),
        ),
{
    list.sort_by(|a, b| compare_text(&a.0, &b.0));
}

/// The disks and shares of a Linux mount table (`/proc/self/mounts`),
/// named after the last part of their mount point and sorted by name,
/// equal names in mount-table order; see [`mounts_from`]. Capacities are
/// left for the caller to fill in.
pub fn volumes(mounts: &str) -> (r: Vec<Location>)
    ensures
        sorted_by_name(mounts_from(lines_of(mounts@), 0, seq![]), r@.map_values(|l: Location| (l.name@, l.path@))),
        forall|i: int|
            0 <= i < r@.len() ==> (#[trigger] r@[i]).kind == Kind::Volume && r@[i].total is None && r@[i].free is None,
{
    let table = lines(mounts);
    let ghost tv = table@.map_values(|l: String| l@);
    let mut seen: Vec<String> = Vec::new();
    let mut found: Vec<(String, String)> = Vec::new();
    let mut k: usize = 0;
    assert(seen@.map_values(|w: String| w@) =~= Seq::<Seq<char>>::empty());
    assert(found@.map_values(|p: (String, String)| pair_view(p)) =~= Seq::<(Seq<char>, Seq<char>)>::empty());
    while k < table.len()
        invariant
            k <= table@.len(),
            tv == table@.map_values(|l: String| l@),
            tv == lines_of(mounts@),
            found@.map_values(|p: (String, String)| pair_view(p)) + mounts_from(tv, k as int, seen@.map_values(
                |w: String| w@,
            )) == mounts_from(tv, 0, seq![]),
        decreases table@.len() - k,
    {
        let ghost before = found@.map_values(|p: (String, String)| pair_view(p));
        let ghost seen_before = seen@.map_values(|w: String| w@);
        let words = split_whitespace(table[k].as_str());
        let ghost ws = words@.map_values(|w: String| w@);
        assert(ws == words_from(tv[k as int], 0));
        if worth_listing_exec(&words) && !contains_text(&seen, &words[0]) {
            assert(ws[0] == words@[0]@ && ws[1] == words@[1]@);
            seen.push(words[0].clone());
            assert(seen@.map_values(|w: String| w@) =~= seen_before.push(ws[0]));
            let mount = unescape_mount(words[1].as_str());
            let name = last_name_of(&mount);
            let ghost entry = (name@, mount@);
            found.push((name, mount));
            proof {
                assert(found@.map_values(|p: (String, String)| pair_view(p)) =~= before.push(entry));
                assert(mounts_from(tv, k as int, seen_before) == seq![entry] + mounts_from(
                    tv,
                    k + 1,
                    seen_before.push(ws[0]),
                ));
                assert(before.push(entry) + mounts_from(tv, k + 1, seen_before.push(ws[0])) =~= before + (seq![entry]
                    + mounts_from(tv, k + 1, seen_before.push(ws[0]))));
            }
        } else {
            proof {
                if worth_listing(ws) {
                    assert(ws[0] == words@[0]@);
                }
            }
        }
        k = k + 1;
    }
    proof {
        assert(mounts_from(tv, k as int, seen@.map_values(|w: String| w@)) =~= Seq::<(Seq<char>, Seq<char>)>::empty());
        assert(found@.map_values(|p: (String, String)| pair_view(p)) + Seq::<(Seq<char>, Seq<char>)>::empty()
            =~= found@.map_values(|p: (String, String)| pair_view(p)));
    }
    let ghost unsorted = found@.map_values(|p: (String, String)| pair_view(p));
    sort_by_name(&mut found);
    let mut out: Vec<Location> = Vec::new();
    let mut i: usize = 0;
    while i < found.len()
        invariant
            i <= found@.len(),
            out@.map_values(|l: Location| (l.name@, l.path@)) =~= found@.map_values(|p: (String, String)| pair_view(p)).take(
                i as int,
            ),
            out@.len() == i,
            forall|t: int| 0 <= t < i ==> (#[trigger] out@[t]).name@ == found@[t].0@,
            forall|t: int|
                0 <= t < out@.len() ==> (#[trigger] out@[t]).kind == Kind::Volume && out@[t].total is None
                    && out@[t].free is None,
        decreases found@.len() - i,
    {
        let (name, path) = (found[i].0.clone(), found[i].1.clone());
        out.push(Location { name, path, kind: Kind::Volume, total: None, free: None });
        i = i + 1;
    }
    assert(found@.map_values(|p: (String, String)| pair_view(p)).take(found@.len() as int) =~= found@.map_values(
        |p: (String, String)| pair_view(p),
    ));
    assert(unsorted == mounts_from(tv, 0, seq![]));
    out
}

/// Whether `path` names the filesystem root, component by component.
pub open spec fn is_root_path(path: Seq<char>) -> bool {
    components(path) == seq![crate::paths::Part::Root]
}

fn is_root_exec(path: &String) -> (r: bool)
    ensures
        r == is_root_path(path@),
{
    let parts = path_components(path.as_str());
    let ghost pv = parts@.map_values(|x: crate::paths::PathPart| crate::paths::part_of(x));
    if parts.len() != 1 {
        return false;
    }
    match &parts[0] {
        crate::paths::PathPart::RootDir => {
            assert(pv =~= seq![crate::paths::Part::Root]);
            true
        },
        _ => {
            assert(pv[0] != crate::paths::Part::Root);
            false
        },
    }
}

fn copy_location(l: &Location) -> (r: Location)
    ensures
        r.name@ == l.name@,
        r.path@ == l.path@,
        r.kind == l.kind,
        r.total == l.total,
        r.free == l.free,
{
    Location { name: l.name.clone(), path: l.path.clone(), kind: l.kind, total: l.total, free: l.free }
}

/// Whether some location in `list` is the root.
pub open spec fn lists_root(list: Seq<Location>) -> bool {
    exists|i: int| 0 <= i < list.len() && is_root_path((#[trigger] list[i]).path@)
}

/// Whether `path` names the home folder `home`, component by component.
pub open spec fn is_home(home: Option<String>, path: Seq<char>) -> bool {
    home matches Some(h) && components(path) == components(h@)
}

/// The places to offer: the home folder `home` (when there is one), the
/// disks and shares of the mount table `mounts` in the order [`volumes`]
/// gives them, less one that is the home folder itself, then the root
/// unless one of those already is it. No place is listed twice.
/// Capacities are left for the caller to fill in.
pub fn list(home: Option<String>, mounts: &str) -> (r: Vec<Location>)
    ensures
        ({
            let base: int = if home is Some {
                1
            } else {
                0
            };
            let added: int = if r@.len() > 0 && r@.last().kind == Kind::Root {
                1
            } else {
                0
            };
            let mid = r@.subrange(base, r@.len() - added);
            &&& r@.len() >= base + added
            &&& home matches Some(h) ==> r@[0].name@ == "Home"@ && r@[0].path@ == h@ && r@[0].kind == Kind::Home
            &&& exists|v: Seq<(Seq<char>, Seq<char>)>|
                #[trigger] sorted_by_name(mounts_from(lines_of(mounts@), 0, seq![]), v) && mid.map_values(
                    |l: Location| (l.name@, l.path@),
                ) == v.filter(|x: (Seq<char>, Seq<char>)| !is_home(home, x.1))
            &&& forall|i: int| 0 <= i < mid.len() ==> (#[trigger] mid[i]).kind == Kind::Volume
            &&& added == 1 <==> !lists_root(r@.subrange(0, base + mid.len()))
            &&& added == 1 ==> r@.last().path@ == "/"@ && r@.last().name@ == "Root"@
        }),
        forall|i: int| 0 <= i < r@.len() ==> (#[trigger] r@[i]).total is None && r@[i].free is None,
{
    let ghost home_view = home;
    let home_path: Option<String> = match &home {
        Some(h) => Some(h.clone()),
        None => None,
    };
    let mut out: Vec<Location> = Vec::new();
    match home {
        Some(h) => {
            out.push(Location { name: String::from_str("Home"), path: h, kind: Kind::Home, total: None, free: None });
            proof {
                reveal_strlit("Home");
            }
        },
        None => {},
    }
    let base = out.len();
    let vols = volumes(mounts);
    let ghost vv = vols@.map_values(|l: Location| (l.name@, l.path@));
    let ghost keep = |x: (Seq<char>, Seq<char>)| !is_home(home_view, x.1);
    let mut i: usize = 0;
    proof {
        assert(vv.take(0) =~= Seq::<(Seq<char>, Seq<char>)>::empty());
        reveal(Seq::filter);
        assert(vv.take(0).filter(keep) =~= Seq::<(Seq<char>, Seq<char>)>::empty());
    }
    while i < vols.len()
        invariant
            i <= vols@.len(),
            vv == vols@.map_values(|l: Location| (l.name@, l.path@)),
            keep == (|x: (Seq<char>, Seq<char>)| !is_home(home_view, x.1)),
            base <= out@.len(),
            base <= 1,
            base == 1 <==> home_view is Some,
            match home_view {
                Some(h) => home_path matches Some(c) && c@ == h@,
                None => home_path is None,
            },
            home_view matches Some(h) ==> out@[0].name@ == "Home"@ && out@[0].path@ == h@ && out@[0].kind
                == Kind::Home,
            forall|t: int| 0 <= t < vols@.len() ==> (#[trigger] vols@[t]).kind == Kind::Volume && vols@[t].total is None
                && vols@[t].free is None,
            out@.subrange(base as int, out@.len() as int).map_values(|l: Location| (l.name@, l.path@)) == vv.take(
                i as int,
            ).filter(keep),
            forall|u: int| base <= u < out@.len() ==> (#[trigger] out@[u]).kind == Kind::Volume,
            forall|t: int| 0 <= t < out@.len() ==> (#[trigger] out@[t]).total is None && out@[t].free is None,
        decreases vols@.len() - i,
    {
        let ghost before = out@;
        let skip = match &home_path {
            Some(h) => crate::paths::same_path(vols[i].path.as_str(), h.as_str()),
            None => false,
        };
        proof {
            assert(vv.take(i + 1).drop_last() =~= vv.take(i as int));
            assert(vv.take(i + 1).last() == vv[i as int]);
            assert(vv[i as int] == (vols@[i as int].name@, vols@[i as int].path@));
            assert(skip == is_home(home_view, vols@[i as int].path@));
            assert(keep(vv[i as int]) == !skip);
            assert(vv.take(i + 1) =~= vv.take(i as int).push(vv[i as int]));
            vv.take(i as int).lemma_filter_push(vv[i as int], keep);
            if skip {
                assert(vv.take(i + 1).filter(keep) == vv.take(i as int).filter(keep));
            } else {
                assert(vv.take(i + 1).filter(keep) == vv.take(i as int).filter(keep).push(vv[i as int]));
            }
        }
        if !skip {
            out.push(copy_location(&vols[i]));
            proof {
                let old_mid = before.subrange(base as int, before.len() as int);
                let new_mid = out@.subrange(base as int, out@.len() as int);
                assert(new_mid =~= old_mid.push(out@.last()));
                assert(new_mid.map_values(|l: Location| (l.name@, l.path@)) =~= old_mid.map_values(
                    |l: Location| (l.name@, l.path@),
                ).push(vv[i as int]));
            }
        }
        i = i + 1;
    }
    assert(vv.take(vols@.len() as int) =~= vv);
    let ghost listed = out@;
    let ghost kept = listed.subrange(base as int, listed.len() as int);
    let mut has_root = false;
    let mut j: usize = 0;
    while j < out.len()
        invariant
            out@ == listed,
            j <= out@.len(),
            has_root <==> exists|t: int| 0 <= t < j && is_root_path((#[trigger] out@[t]).path@),
        decreases out@.len() - j,
    {
        if is_root_exec(&out[j].path) {
            has_root = true;
        }
        j = j + 1;
    }
    assert(has_root == lists_root(listed));
    if !has_root {
        out.push(Location {
            name: String::from_str("Root"),
            path: String::from_str("/"),
            kind: Kind::Root,
            total: None,
            free: None,
        });
        proof {
            reveal_strlit("Root");
            reveal_strlit("/");
        }
    }
    proof {
        let added: int = if out@.len() > 0 && out@.last().kind == Kind::Root {
            1
        } else {
            0
        };
        assert(added == (if has_root { 0int } else { 1int })) by {
            if has_root && listed.len() > 0 {
                let last = listed.len() - 1;
                if last >= base {
                    assert(listed[last].kind == Kind::Volume);
                } else {
                    assert(listed[0].kind == Kind::Home);
                }
            }
        }
        let mid = out@.subrange(base as int, out@.len() - added);
        assert(mid =~= kept);
        assert(out@.subrange(0, base + mid.len()) =~= listed);
        let m = mounts_from(lines_of(mounts@), 0, seq![]);
        assert(sorted_by_name(m, vv));
        assert forall|t: int| 0 <= t < mid.len() implies (#[trigger] mid[t]).kind == Kind::Volume by {
            assert(mid[t] == listed[base + t]);
        }
    }
    out
}

/// What a place's row says of its capacity: the free space of the total,
/// when the filesystem reported both.
pub open spec fn capacity_spec(total: Option<u64>, free: Option<u64>) -> Option<Seq<char>> {
    match (total, free) {
        (Some(t), Some(f)) => Some(crate::format::size_text(f as nat) + " free of "@ + crate::format::size_text(
            t as nat,
        )),
        _ => None,
    }
}

impl Location {
    /// The capacity line of this place's row (see [`capacity_spec`]).
    pub fn capacity(&self) -> (r: Option<String>)
        ensures
            match capacity_spec(self.total, self.free) {
                Some(text) => r matches Some(s) && s@ == text,
                None => r is None,
            },
    {
        match (self.total, self.free) {
            (Some(total), Some(free)) => {
                let mut text = crate::format::size(free);
                text.append(" free of ");
                let whole = crate::format::size(total);
                text.append(whole.as_str());
                proof {
                    reveal_strlit(" free of ");
                }
                Some(text)
            },
            _ => None,
        }
    }
}

} // verus!
