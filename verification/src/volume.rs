//! Locating the master file table of a mounted volume: which device a
//! drive root names, where the table's extents lie, and how they are cut
//! into reads. The reads and the device controls are the caller's.

use crate::text::{ascii_upper, push_char, to_ascii_uppercase};
use vstd::prelude::*;
use vstd::string::*;

verus! {

/// Bytes per read. A multiple of every cluster and record size.
pub const CHUNK: u64 = 4194304;

/// Whether `c` separates path components on Windows.
pub open spec fn is_separator(c: char, verbatim: bool) -> bool {
    c == '\\' || (!verbatim && c == '/')
}

/// Whether the path text after a drive prefix names nothing below the
/// drive's root: it is empty, or separators and `.` components only.
pub open spec fn names_only_root(rest: Seq<char>, verbatim: bool) -> bool {
    forall|i: int| 0 <= i < rest.len() ==> (is_separator(#[trigger] rest[i], verbatim) || (!verbatim && rest[i] == '.'
        && (i == 0 || is_separator(rest[i - 1], verbatim)) && (i + 1 == rest.len() || is_separator(
        rest[i + 1],
        verbatim,
    ))))
}

/// Whether `c` is an ASCII letter.
pub open spec fn is_letter(c: char) -> bool {
    ('a' <= c <= 'z') || ('A' <= c <= 'Z')
}

/// The drive letter and the text after the prefix of a drive path:
/// `X:` (a disk prefix) or `\\?\X:` (a verbatim one).
pub open spec fn drive_of(root: Seq<char>) -> Option<(char, Seq<char>, bool)> {
    if root.len() >= 6 && root[0] == '\\' && root[1] == '\\' && root[2] == '?' && root[3] == '\\' && is_letter(root[4])
        && root[5] == ':' {
        Some((root[4], root.subrange(6, root.len() as int), true))
    } else if root.len() >= 2 && is_letter(root[0]) && root[1] == ':' && !(root[0] == '\\') {
        Some((root[0], root.subrange(2, root.len() as int), false))
    } else {
        None
    }
}

/// The device path `\\.\X:` of a drive root such as `X:\`.
pub open spec fn device_path_of(root: Seq<char>) -> Option<Seq<char>> {
    match drive_of(root) {
        Some((letter, rest, verbatim)) => if names_only_root(rest, verbatim) {
            Some(seq!['\\', '\\', '.', '\\', ascii_upper(letter), ':'])
        } else {
            None
        },
        None => None,
    }
}

fn letter_ok(c: char) -> (r: bool)
    ensures
        r == is_letter(c),
{
    ('a' <= c && c <= 'z') || ('A' <= c && c <= 'Z')
}

fn separator(c: char, verbatim: bool) -> (r: bool)
    ensures
        r == is_separator(c, verbatim),
{
    c == '\\' || (!verbatim && c == '/')
}

/// `\\.\C:` for a root like `C:\`; `None` when `root` is not a drive's root.
pub fn device_path(root: &str) -> (r: Option<String>)
    ensures
        match device_path_of(root@) {
            Some(text) => r matches Some(s) && s@ == text,
            None => r is None,
        },
{
    let n = root.unicode_len();
    let verbatim = n >= 6 && root.get_char(0) == '\\' && root.get_char(1) == '\\' && root.get_char(2) == '?'
        && root.get_char(3) == '\\' && letter_ok(root.get_char(4)) && root.get_char(5) == ':';
    let start: usize = if verbatim {
        6
    } else if n >= 2 && letter_ok(root.get_char(0)) && root.get_char(1) == ':' {
        2
    } else {
        return None;
    };
    let letter = root.get_char(start - 2);
    let ghost rest = root@.subrange(start as int, n as int);
    assert(drive_of(root@) == Some((letter, rest, verbatim)));
    let mut i = start;
    while i < n
        invariant
            start <= i <= n,
            n == root@.len(),
            rest == root@.subrange(start as int, n as int),
            drive_of(root@) == Some((letter, rest, verbatim)),
            forall|j: int| 0 <= j < i - start ==> (is_separator(#[trigger] rest[j], verbatim) || (!verbatim
                && rest[j] == '.' && (j == 0 || is_separator(rest[j - 1], verbatim)) && (j + 1 == rest.len()
                || is_separator(rest[j + 1], verbatim)))),
        decreases n - i,
    {
        let c = root.get_char(i);
        let ok = if separator(c, verbatim) {
            true
        } else if !verbatim && c == '.' {
            (i == start || separator(root.get_char(i - 1), verbatim)) && (i + 1 == n || separator(
                root.get_char(i + 1),
                verbatim,
            ))
        } else {
            false
        };
        if !ok {
            assert(!names_only_root(rest, verbatim)) by {
                assert(rest[i - start] == c);
                if i > start {
                    assert(rest[i - start - 1] == root@[i - 1]);
                }
                if i + 1 < n {
                    assert(rest[i - start + 1] == root@[i + 1]);
                }
            }
            return None;
        }
        proof {
            assert(rest[i - start] == c);
            if i > start {
                assert(rest[i - start - 1] == root@[i - 1]);
            }
            if i + 1 < n {
                assert(rest[i - start + 1] == root@[i + 1]);
            }
        }
        i = i + 1;
    }
    let mut out = String::new();
    push_char(&mut out, '\\');
    push_char(&mut out, '\\');
    push_char(&mut out, '.');
    push_char(&mut out, '\\');
    push_char(&mut out, to_ascii_uppercase(letter));
    push_char(&mut out, ':');
    assert(out@ =~= seq!['\\', '\\', '.', '\\', ascii_upper(letter), ':']);
    Some(out)
}

/// A stretch of the table: where it lies on the volume and which record it starts with.
#[derive(Clone, Copy, Debug, PartialEq, Eq, Structural)]
pub struct Piece {
    pub volume_offset: u64,
    pub first_record: u64,
    pub length: usize,
}

/// The extents that a retrieval-pointers buffer lists from pair `j` on,
/// the previous pair ending at virtual cluster `vcn`: one (first virtual
/// cluster, first volume cluster, clusters) per pair that is not a hole
/// (all-ones volume cluster) and covers at least one cluster.
pub open spec fn extents_from(words: Seq<u64>, count: int, j: int, vcn: u64) -> Seq<(u64, u64, u64)>
    decreases count - j,
{
    if j >= count || j < 0 || 2 + 2 * j + 2 > words.len() {
        seq![]
    } else {
        let next_vcn = words[2 + 2 * j];
        let lcn = words[2 + 2 * j + 1];
        let rest = extents_from(words, count, j + 1, next_vcn);
        if lcn != u64::MAX && next_vcn > vcn {
            seq![(vcn, lcn, (next_vcn - vcn) as u64)] + rest
        } else {
            rest
        }
    }
}

/// The table's extents from a `RETRIEVAL_POINTERS_BUFFER` read as 64-bit
/// words: extent count, first virtual cluster, then a (next virtual
/// cluster, volume cluster) pair per extent.
pub fn extents_from_words(words: &[u64]) -> (r: Vec<(u64, u64, u64)>)
    requires
        words@.len() >= 2,
    ensures
        r@ == extents_from(words@, (words@[0] % 0x1_0000_0000) as int, 0, words@[1]),
{
    let first = words[0];
    let count_word = first & 0xFFFF_FFFF;
    assert(count_word == first % 0x1_0000_0000) by (bit_vector)
        requires
            count_word == first & 0xFFFF_FFFF,
    ;
    let count = count_word as usize;
    let ghost total = count_word as int;
    let mut vcn = words[1];
    let mut extents: Vec<(u64, u64, u64)> = Vec::new();
    let pairs = (words.len() - 2) / 2;
    let mut j: usize = 0;
    while j < count && j < pairs
        invariant
            j <= count,
            pairs == (words@.len() - 2) / 2,
            words@.len() >= 2,
            count as int == total,
            2 + 2 * j <= words@.len() + 2,
            extents@ + extents_from(words@, total, j as int, vcn) == extents_from(words@, total, 0, words@[1]),
        decreases count - j,
    {
        let len = words.len();
        assert(2 + 2 * j + 2 <= len);
        let next_vcn = words[2 + 2 * j];
        let lcn = words[2 + 2 * j + 1];
        let ghost before = extents@;
        if lcn != u64::MAX && next_vcn > vcn {
            extents.push((vcn, lcn, next_vcn - vcn));
            assert(extents@ + extents_from(words@, total, j + 1, next_vcn) =~= before + extents_from(
                words@,
                total,
                j as int,
                vcn,
            ));
        }
        vcn = next_vcn;
        j = j + 1;
    }
    assert(extents_from(words@, total, j as int, vcn) == Seq::<(u64, u64, u64)>::empty());
    assert(extents@ + Seq::<(u64, u64, u64)>::empty() =~= extents@);
    extents
}

/// The reads of one extent from byte `done` of it on: at most [`CHUNK`]
/// bytes each, with the volume offset and the first record number of each.
pub open spec fn extent_pieces(vcn: u64, lcn: u64, clusters: u64, cluster: u64, record_size: u64, done: int) -> Seq<Piece>
    decreases clusters * cluster - done,
{
    let total = clusters * cluster;
    if done < 0 || done >= total {
        seq![]
    } else {
        let length = if total - done < CHUNK {
            total - done
        } else {
            CHUNK as int
        };
        seq![
            Piece {
                volume_offset: (lcn * cluster + done) as u64,
                first_record: ((vcn * cluster + done) / (record_size as int)) as u64,
                length: length as usize,
            },
        ] + extent_pieces(vcn, lcn, clusters, cluster, record_size, done + length)
    }
}

/// The reads of every extent, in order.
pub open spec fn all_pieces(extents: Seq<(u64, u64, u64)>, cluster: u64, record_size: u64) -> Seq<Piece>
    decreases extents.len(),
{
    if extents.len() == 0 {
        seq![]
    } else {
        let e = extents.last();
        all_pieces(extents.drop_last(), cluster, record_size) + extent_pieces(e.0, e.1, e.2, cluster, record_size, 0)
    }
}

/// Whether an extent's byte offsets fit a `u64`.
pub open spec fn extent_fits(e: (u64, u64, u64), cluster: u64) -> bool {
    &&& e.1 * cluster + e.2 * cluster <= u64::MAX
    &&& e.0 * cluster + e.2 * cluster <= u64::MAX
}

/// Cut the extents into reads of at most [`CHUNK`] bytes.
pub fn pieces(extents: &[(u64, u64, u64)], cluster: u64, record_size: u64) -> (r: Vec<Piece>)
    requires
        record_size > 0,
        forall|i: int| 0 <= i < extents@.len() ==> extent_fits(#[trigger] extents@[i], cluster),
    ensures
        r@ == all_pieces(extents@, cluster, record_size),
{
    let mut out: Vec<Piece> = Vec::new();
    let mut i: usize = 0;
    while i < extents.len()
        invariant
            i <= extents@.len(),
            record_size > 0,
            forall|t: int| 0 <= t < extents@.len() ==> extent_fits(#[trigger] extents@[t], cluster),
            out@ == all_pieces(extents@.take(i as int), cluster, record_size),
        decreases extents@.len() - i,
    {
        let (vcn, lcn, clusters) = extents[i];
        assert(extent_fits(extents@[i as int], cluster));
        proof {
            assert(clusters * cluster <= lcn * cluster + clusters * cluster);
        }
        let total = clusters * cluster;
        let ghost prefix = out@;
        let mut done: u64 = 0;
        while done < total
            invariant
                done <= total,
                total == clusters * cluster,
                record_size > 0,
                lcn * cluster + total <= u64::MAX,
                vcn * cluster + total <= u64::MAX,
                out@ + extent_pieces(vcn, lcn, clusters, cluster, record_size, done as int) == prefix
                    + extent_pieces(vcn, lcn, clusters, cluster, record_size, 0),
            decreases total - done,
        {
            let length = if total - done < CHUNK {
                total - done
            } else {
                CHUNK
            };
            let piece = Piece {
                volume_offset: lcn * cluster + done,
                first_record: (vcn * cluster + done) / record_size,
                length: length as usize,
            };
            let ghost before = out@;
            out.push(piece);
            assert(out@ + extent_pieces(vcn, lcn, clusters, cluster, record_size, done + length) =~= before
                + extent_pieces(vcn, lcn, clusters, cluster, record_size, done as int));
            done = done + length;
        }
        proof {
            assert(extent_pieces(vcn, lcn, clusters, cluster, record_size, done as int) == Seq::<Piece>::empty());
            assert(out@ + Seq::<Piece>::empty() =~= out@);
            assert(extents@.take(i + 1).drop_last() =~= extents@.take(i as int));
            assert(extents@.take(i + 1).last() == (vcn, lcn, clusters));
        }
        i = i + 1;
    }
    assert(extents@.take(extents@.len() as int) =~= extents@);
    out
}

} // verus!
