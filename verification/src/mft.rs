//! NTFS master file table records: parsing them, and turning what they
//! say into a [`Tree`](crate::tree::Tree).
//!
//! Nothing here touches the operating system: the caller reads the table
//! and hands its bytes over.

use crate::fold::{map_get, map_insert, map_keys, map_new};
use vstd::prelude::*;

verus! {

broadcast use vstd::std_specs::hash::group_hash_axioms;

/// Record number of a volume's root directory.
pub const ROOT_RECORD: u64 = 5;

pub const ATTRIBUTE_STANDARD_INFORMATION: u32 = 0x10;

pub const ATTRIBUTE_FILE_NAME: u32 = 0x30;

pub const ATTRIBUTE_DATA: u32 = 0x80;

pub const ATTRIBUTE_REPARSE_POINT: u32 = 0xC0;

pub const ATTRIBUTE_END: u32 = 0xFFFF_FFFF;

pub const RECORD_IN_USE: u16 = 0x0001;

pub const RECORD_IS_DIRECTORY: u16 = 0x0002;

pub const ATTRIBUTE_COMPRESSED: u16 = 0x0001;

pub const ATTRIBUTE_SPARSE: u16 = 0x8000;

/// A `FILE_NAME` holding only the 8.3 alias of a name listed elsewhere.
pub const NAME_DOS_ONLY: u8 = 0x02;

pub const REPARSE_TAG_MOUNT_POINT: u32 = 0xA000_0003;

pub const REPARSE_TAG_SYMLINK: u32 = 0xA000_000C;

/// Update sequence fixups protect every 512 bytes, whatever the sector size.
pub const FIXUP_STRIDE: usize = 512;

/// The low 48 bits of a file reference: the record number without its
/// sequence number.
pub const RECORD_NUMBER_MASK: u64 = 0xFFFF_FFFF_FFFF;

// ---------------------------------------------------------------------
// Little-endian fields
// ---------------------------------------------------------------------

/// The `u16` stored little-endian at `at`, if it lies within `b`.
pub open spec fn get_u16(b: Seq<u8>, at: int) -> Option<u16> {
    if 0 <= at && at + 2 <= b.len() {
        Some((b[at] + b[at + 1] * 0x100) as u16)
    } else {
        None
    }
}

/// The `u32` stored little-endian at `at`, if it lies within `b`.
pub open spec fn get_u32(b: Seq<u8>, at: int) -> Option<u32> {
    if 0 <= at && at + 4 <= b.len() {
        Some((b[at] + b[at + 1] * 0x100 + b[at + 2] * 0x1_0000 + b[at + 3] * 0x100_0000) as u32)
    } else {
        None
    }
}

/// The `u64` stored little-endian at `at`, if it lies within `b`.
pub open spec fn get_u64(b: Seq<u8>, at: int) -> Option<u64> {
    if 0 <= at && at + 8 <= b.len() {
        Some(
            (b[at] + b[at + 1] * 0x100 + b[at + 2] * 0x1_0000 + b[at + 3] * 0x100_0000 + b[at + 4]
                * 0x1_0000_0000 + b[at + 5] * 0x100_0000_0000 + b[at + 6] * 0x1_0000_0000_0000 + b[at
                + 7] * 0x100_0000_0000_0000) as u64,
        )
    } else {
        None
    }
}

/// The byte at `at`, if it lies within `b`.
pub open spec fn get_u8(b: Seq<u8>, at: int) -> Option<u8> {
    if 0 <= at && at < b.len() {
        Some(b[at])
    } else {
        None
    }
}

/// Bytes taken in pairs as little-endian UTF-16 code units.
pub open spec fn utf16_units(b: Seq<u8>) -> Seq<u16> {
    Seq::new(b.len() / 2, |i: int| (b[2 * i] + b[2 * i + 1] * 0x100) as u16)
}

pub fn u16_at(bytes: &[u8], offset: usize) -> (r: Option<u16>)
    ensures
        r == get_u16(bytes@, offset as int),
{
    if offset <= bytes.len() && 2 <= bytes.len() - offset {
        Some(bytes[offset] as u16 + bytes[offset + 1] as u16 * 0x100)
    } else {
        None
    }
}

pub fn u32_at(bytes: &[u8], offset: usize) -> (r: Option<u32>)
    ensures
        r == get_u32(bytes@, offset as int),
{
    if offset <= bytes.len() && 4 <= bytes.len() - offset {
        Some(
            bytes[offset] as u32 + bytes[offset + 1] as u32 * 0x100 + bytes[offset + 2] as u32 * 0x1_0000
                + bytes[offset + 3] as u32 * 0x100_0000,
        )
    } else {
        None
    }
}

pub fn u64_at(bytes: &[u8], offset: usize) -> (r: Option<u64>)
    ensures
        r == get_u64(bytes@, offset as int),
{
    if offset <= bytes.len() && 8 <= bytes.len() - offset {
        Some(
            bytes[offset] as u64 + bytes[offset + 1] as u64 * 0x100 + bytes[offset + 2] as u64 * 0x1_0000
                + bytes[offset + 3] as u64 * 0x100_0000 + bytes[offset + 4] as u64 * 0x1_0000_0000
                + bytes[offset + 5] as u64 * 0x100_0000_0000 + bytes[offset + 6] as u64
                * 0x1_0000_0000_0000 + bytes[offset + 7] as u64 * 0x100_0000_0000_0000,
        )
    } else {
        None
    }
}

fn u8_at(bytes: &[u8], offset: usize) -> (r: Option<u8>)
    ensures
        r == get_u8(bytes@, offset as int),
{
    if offset < bytes.len() {
        Some(bytes[offset])
    } else {
        None
    }
}

/// `v` rounded up to a multiple of eight.
pub open spec fn round8(v: int) -> int {
    if v % 8 == 0 {
        v
    } else {
        v + (8 - v % 8)
    }
}

fn next_multiple_of_8(v: u64) -> (r: u64)
    requires
        v <= u32::MAX,
    ensures
        r == round8(v as int),
{
    let rem = v % 8;
    if rem == 0 {
        v
    } else {
        v + (8 - rem)
    }
}

// ---------------------------------------------------------------------
// Records and names
// ---------------------------------------------------------------------

/// What is known about one file, gathered from its base record and any
/// extension records.
#[derive(Clone, Copy, Debug, PartialEq, Eq, Structural)]
pub struct Record {
    /// Set by the base record's header flags.
    pub is_directory: bool,
    /// Length of the unnamed data stream in bytes.
    pub logical_size: Option<u64>,
    /// Allocation of the unnamed data stream in bytes: the compressed size
    /// for a compressed or sparse stream, and the length rounded up to 8 for
    /// a resident one. `None` when the table reports zero.
    pub physical_size: Option<u64>,
    /// Allocation of the `WofCompressedData` stream, which holds the real
    /// data of a file compressed by the Windows overlay filter.
    pub wof_physical_size: Option<u64>,
    /// Last modification as a `FILETIME`.
    pub modified: Option<u64>,
    /// Tag of the reparse point, if the file is one.
    pub reparse_tag: Option<u32>,
}

/// A record nothing is known of yet.
pub open spec fn empty_record() -> Record {
    Record {
        is_directory: false,
        logical_size: None,
        physical_size: None,
        wof_physical_size: None,
        modified: None,
        reparse_tag: None,
    }
}

impl Default for Record {
    fn default() -> (r: Record)
        ensures
            r == empty_record(),
    {
        Record {
            is_directory: false,
            logical_size: None,
            physical_size: None,
            wof_physical_size: None,
            modified: None,
            reparse_tag: None,
        }
    }
}

/// `a`, or `b` when `a` is absent.
pub open spec fn or_else<T>(a: Option<T>, b: Option<T>) -> Option<T> {
    if a is Some {
        a
    } else {
        b
    }
}

/// `this` with what `other` found folded in; values present in `other` win.
pub open spec fn merged(this: Record, other: Record) -> Record {
    Record {
        is_directory: this.is_directory || other.is_directory,
        logical_size: or_else(other.logical_size, this.logical_size),
        physical_size: or_else(other.physical_size, this.physical_size),
        wof_physical_size: or_else(other.wof_physical_size, this.wof_physical_size),
        modified: or_else(other.modified, this.modified),
        reparse_tag: or_else(other.reparse_tag, this.reparse_tag),
    }
}

pub(crate) fn first_of<T: Copy>(a: Option<T>, b: Option<T>) -> (r: Option<T>)
    ensures
        r == or_else(a, b),
{
    match a {
        Some(v) => Some(v),
        None => b,
    }
}

impl Record {
    /// Fold in what another record (or another thread) found for the same
    /// file; values present in `other` win.
    pub fn merge(&mut self, other: Record)
        ensures
            *final(self) == merged(*old(self), other),
    {
        self.is_directory = self.is_directory || other.is_directory;
        self.logical_size = first_of(other.logical_size, self.logical_size);
        self.physical_size = first_of(other.physical_size, self.physical_size);
        self.wof_physical_size = first_of(other.wof_physical_size, self.wof_physical_size);
        self.modified = first_of(other.modified, self.modified);
        self.reparse_tag = first_of(other.reparse_tag, self.reparse_tag);
    }
}

/// One name of a file. A file has several when it is hard linked.
#[derive(Clone, Debug)]
pub struct Name {
    /// Record number of the containing directory, sequence number dropped.
    pub parent: u64,
    /// Base record number of the file.
    pub record: u64,
    /// UTF-16 code units, as stored. 8.3-only aliases and `.`/`..` are
    /// never recorded.
    pub name: Vec<u16>,
}

/// A name as parent, record and code units.
pub open spec fn name_view(n: Name) -> (u64, u64, Seq<u16>) {
    (n.parent, n.record, n.name@)
}

/// A list of names, each as parent, record and code units.
pub open spec fn names_view(names: Seq<Name>) -> Seq<(u64, u64, Seq<u16>)> {
    names.map_values(|n: Name| name_view(n))
}

/// The record filed under `number`, or an empty one.
pub open spec fn record_or_default(records: Map<u64, Record>, number: u64) -> Record {
    if records.contains_key(number) {
        records[number]
    } else {
        empty_record()
    }
}

// ---------------------------------------------------------------------
// Fixups
// ---------------------------------------------------------------------

/// The fixup pass from entry `i` on: each entry `i` of the update
/// sequence array at `offset` must match `check` in the last two bytes
/// of the `i`th 512-byte stride, which it then replaces. Gives the bytes
/// as far as they were patched and whether every check matched.
pub open spec fn fixups_from(record: Seq<u8>, offset: int, check: u16, i: int, count: int) -> (Seq<u8>, bool)
    decreases count - i,
{
    if i >= count || i < 1 {
        (record, true)
    } else {
        match get_u16(record, offset + i * 2) {
            None => (record, false),
            Some(original) => {
                let end = i * 512;
                match get_u16(record, end - 2) {
                    None => (record, false),
                    Some(word) => if word != check {
                        (record, false)
                    } else {
                        fixups_from(
                            record.update(end - 2, (original % 0x100) as u8).update(end - 1, (original / 0x100) as u8),
                            offset,
                            check,
                            i + 1,
                            count,
                        )
                    },
                }
            },
        }
    }
}

/// The update sequence fixups of a whole record: the bytes afterwards, and
/// whether the record is intact (every check word matched).
pub open spec fn fixups(record: Seq<u8>) -> (Seq<u8>, bool) {
    match (get_u16(record, 4), get_u16(record, 6)) {
        (Some(offset), Some(count)) => if count == 0 {
            (record, true)
        } else {
            match get_u16(record, offset as int) {
                None => (record, false),
                Some(check) => fixups_from(record, offset as int, check, 1, count as int),
            }
        },
        _ => (record, false),
    }
}

proof fn lemma_fixups_len(record: Seq<u8>, offset: int, check: u16, i: int, count: int)
    ensures
        fixups_from(record, offset, check, i, count).0.len() == record.len(),
    decreases count - i,
{
    if i >= count || i < 1 {
    } else {
        match get_u16(record, offset + i * 2) {
            None => {},
            Some(original) => {
                let end = i * 512;
                match get_u16(record, end - 2) {
                    None => {},
                    Some(word) => if word != check {
                    } else {
                        lemma_fixups_len(
                            record.update(end - 2, (original % 0x100) as u8).update(end - 1, (original / 0x100) as u8),
                            offset,
                            check,
                            i + 1,
                            count,
                        );
                    },
                }
            },
        }
    }
}

proof fn lemma_patched_len(record: Seq<u8>)
    ensures
        patched(record).len() == record.len(),
{
    match (get_u16(record, 4), get_u16(record, 6)) {
        (Some(offset), Some(count)) => if count != 0 {
            match get_u16(record, offset as int) {
                None => {},
                Some(check) => lemma_fixups_len(record, offset as int, check, 1, count as int),
            }
        },
        _ => {},
    }
}

/// Replace the check word at the end of every 512 bytes with the original
/// data. `None` when a check word does not match: a torn write.
pub fn apply_fixups(record: &mut [u8]) -> (r: Option<()>)
    ensures
        final(record)@ == fixups(old(record)@).0,
        r is Some <==> fixups(old(record)@).1,
{
    let offset = match u16_at(record, 4) {
        Some(v) => v as usize,
        None => return None,
    };
    let count = match u16_at(record, 6) {
        Some(v) => v as usize,
        None => return None,
    };
    if count == 0 {
        return Some(());
    }
    let check = match u16_at(record, offset) {
        Some(v) => v,
        None => return None,
    };
    let ghost start = record@;
    let mut i: usize = 1;
    while i < count
        invariant
            1 <= i,
            count <= u16::MAX,
            offset <= u16::MAX,
            record@.len() == start.len(),
            start == old(record)@,
            fixups(start) == fixups_from(record@, offset as int, check, i as int, count as int),
        decreases count - i,
    {
        let ghost before = record@;
        let original = match u16_at(record, offset + i * 2) {
            Some(v) => v,
            None => {
                assert(fixups_from(before, offset as int, check, i as int, count as int) == (before, false));
                return None;
            },
        };
        let end = i * FIXUP_STRIDE;
        let word = match u16_at(record, end - 2) {
            Some(v) => v,
            None => {
                assert(fixups_from(before, offset as int, check, i as int, count as int) == (before, false));
                return None;
            },
        };
        if word != check {
            assert(fixups_from(before, offset as int, check, i as int, count as int) == (before, false));
            return None;
        }
        record[end - 2] = (original % 0x100) as u8;
        record[end - 1] = (original / 0x100) as u8;
        assert(record@ =~= before.update(end - 2, (original % 0x100) as u8).update(
            end - 1,
            (original / 0x100) as u8,
        ));
        assert(fixups_from(before, offset as int, check, i as int, count as int) == fixups_from(
            record@,
            offset as int,
            check,
            i + 1,
            count as int,
        ));
        i = i + 1;
    }
    assert(fixups_from(record@, offset as int, check, i as int, count as int) == (record@, true));
    Some(())
}

// ---------------------------------------------------------------------
// Attributes
// ---------------------------------------------------------------------

/// The value of a resident attribute, if it lies within the attribute.
pub open spec fn resident(attribute: Seq<u8>) -> Option<Seq<u8>> {
    match (get_u32(attribute, 16), get_u16(attribute, 20)) {
        (Some(length), Some(offset)) => if offset + length <= attribute.len() {
            Some(attribute.subrange(offset as int, offset + length))
        } else {
            None
        },
        _ => None,
    }
}

/// The value of a resident attribute; `None` if it runs past the attribute.
pub fn resident_value(attribute: &[u8]) -> (r: Option<&[u8]>)
    ensures
        match resident(attribute@) {
            None => r is None,
            Some(v) => r matches Some(s) && s@ == v,
        },
{
    let length = match u32_at(attribute, 16) {
        Some(v) => v as usize,
        None => return None,
    };
    let offset = match u16_at(attribute, 20) {
        Some(v) => v as usize,
        None => return None,
    };
    if length > attribute.len() || offset > attribute.len() - length {
        return None;
    }
    Some(vstd::slice::slice_subrange(attribute, offset, offset + length))
}

/// The name that marks an overlay filter's compressed stream,
/// `WofCompressedData`, in UTF-16.
pub open spec fn wof_stream_name() -> Seq<u16> {
    seq![
        87u16, 111u16, 102u16, 67u16, 111u16, 109u16, 112u16, 114u16, 101u16, 115u16, 115u16, 101u16, 100u16,
        68u16, 97u16, 116u16, 97u16,
    ]
}

/// What a `DATA` attribute adds to `entry`, and whether it was whole: the
/// unnamed stream's length and allocation, or the allocation of a
/// `WofCompressedData` stream; other named streams add nothing. Later
/// pieces of a stream split over several records repeat its sizes as
/// zero and add nothing either. A field that does not fit ends the
/// attribute, keeping what was taken from it before.
pub open spec fn data_step(entry: Record, attribute: Seq<u8>, non_resident: bool) -> (Record, bool) {
    match get_u8(attribute, 9) {
        None => (entry, false),
        Some(name_units) => {
            let first_piece = if !non_resident {
                Some(true)
            } else {
                match get_u64(attribute, 16) {
                    None => None,
                    Some(v) => Some(v == 0),
                }
            };
            match first_piece {
                None => (entry, false),
                Some(first) => if name_units > 0 {
                    match get_u16(attribute, 10) {
                        None => (entry, false),
                        Some(name_offset) => if name_offset + name_units * 2 > attribute.len() {
                            (entry, false)
                        } else {
                            let name = utf16_units(
                                attribute.subrange(name_offset as int, name_offset + name_units * 2),
                            );
                            if name == wof_stream_name() && first {
                                let size = if non_resident {
                                    get_u64(attribute, 40)
                                } else {
                                    match get_u32(attribute, 16) {
                                        None => None,
                                        Some(v) => Some(round8(v as int) as u64),
                                    }
                                };
                                match size {
                                    None => (entry, false),
                                    Some(s) => (Record { wof_physical_size: Some(s), ..entry }, true),
                                }
                            } else {
                                (entry, true)
                            }
                        },
                    }
                } else if !non_resident {
                    match get_u32(attribute, 16) {
                        None => (entry, false),
                        Some(length) => (
                            Record {
                                logical_size: Some(length as u64),
                                physical_size: Some(round8(length as int) as u64),
                                ..entry
                            },
                            true,
                        ),
                    }
                } else if first {
                    match get_u64(attribute, 48) {
                        None => (entry, false),
                        Some(logical) => {
                            let sized = Record { logical_size: Some(logical), ..entry };
                            match get_u16(attribute, 12) {
                                None => (sized, false),
                                Some(flags) => {
                                    let physical = if flags & (ATTRIBUTE_COMPRESSED | ATTRIBUTE_SPARSE) != 0 {
                                        get_u64(attribute, 64)
                                    } else {
                                        get_u64(attribute, 40)
                                    };
                                    match physical {
                                        None => (sized, false),
                                        Some(p) => (
                                            if p > 0 {
                                                Record { physical_size: Some(p), ..sized }
                                            } else {
                                                sized
                                            },
                                            true,
                                        ),
                                    }
                                },
                            }
                        },
                    }
                } else {
                    (entry, true)
                },
            }
        },
    }
}

/// The allocation an unnamed, non-resident `DATA` attribute gives its
/// record, from the first piece of the stream (lowest VCN, the `u64` at
/// 16, zero): a compressed (flag bit 0x0001, the low bit of byte 12) or
/// sparse (flag bit 0x8000, the high bit of byte 13) stream takes the
/// compressed size at offset 64 on disk; any other stream its allocated
/// size at offset 40. A zero there leaves the record's allocation as it
/// was. The stream's length is the `u64` at 48.
pub proof fn compressed_streams_take_their_compressed_size(entry: Record, attribute: Seq<u8>)
    requires
        attribute.len() >= 72,
        attribute[9] == 0,
        get_u64(attribute, 16) == Some(0u64),
    ensures
        ({
            let (after, whole) = data_step(entry, attribute, true);
            let packed = attribute[12] % 2 == 1 || attribute[13] >= 128;
            let size = if packed {
                get_u64(attribute, 64)->Some_0
            } else {
                get_u64(attribute, 40)->Some_0
            };
            &&& whole
            &&& after.logical_size == get_u64(attribute, 48)
            &&& after.physical_size == if size > 0 {
                Some(size)
            } else {
                entry.physical_size
            }
        }),
{
    let lo = attribute[12];
    let hi = attribute[13];
    let flags = get_u16(attribute, 12)->Some_0;
    assert(flags == (lo + hi * 0x100) as u16);
    assert((flags & (ATTRIBUTE_COMPRESSED | ATTRIBUTE_SPARSE) != 0) == (lo % 2 == 1 || hi >= 128)) by (bit_vector)
        requires
            flags == (lo + hi * 0x100) as u16,
            ATTRIBUTE_COMPRESSED == 0x0001u16,
            ATTRIBUTE_SPARSE == 0x8000u16,
    ;
}

/// Whether the `count` code units stored little-endian at `at` are `expected`.
fn units_are(bytes: &[u8], at: usize, count: usize, expected: &Vec<u16>) -> (r: bool)
    requires
        at + count * 2 <= bytes@.len(),
    ensures
        r == (utf16_units(bytes@.subrange(at as int, at + count * 2)) == expected@),
{
    let ghost units = utf16_units(bytes@.subrange(at as int, at + count * 2));
    assert(units.len() == count);
    if count != expected.len() {
        return false;
    }
    let mut i: usize = 0;
    while i < count
        invariant
            i <= count,
            count == expected@.len(),
            at + count * 2 <= bytes@.len(),
            units == utf16_units(bytes@.subrange(at as int, at + count * 2)),
            units.len() == count,
            forall|j: int| 0 <= j < i ==> units[j] == expected@[j],
        decreases count - i,
    {
        let len = bytes.len();
        assert(at + 2 * i + 1 < len) by (nonlinear_arith)
            requires
                i < count,
                at + count * 2 <= len,
        ;
        let unit = bytes[at + 2 * i] as u16 + bytes[at + 2 * i + 1] as u16 * 0x100;
        assert(unit == units[i as int]);
        if unit != expected[i] {
            return false;
        }
        i = i + 1;
    }
    assert(units =~= expected@);
    true
}

/// `WofCompressedData` in UTF-16.
fn wof_stream() -> (r: Vec<u16>)
    ensures
        r@ == wof_stream_name(),
{
    let r = vec![87u16, 111, 102, 67, 111, 109, 112, 114, 101, 115, 115, 101, 100, 68, 97, 116, 97];
    assert(r@ =~= wof_stream_name());
    r
}

/// Record the sizes of a `DATA` attribute: the unnamed stream's length and
/// allocation, or the allocation of a `WofCompressedData` stream. Other
/// named streams are ignored.
pub fn parse_data(entry: &mut Record, attribute: &[u8], non_resident: bool) -> (r: Option<()>)
    ensures
        (*final(entry), r is Some) == data_step(*old(entry), attribute@, non_resident),
{
    let name_units = match u8_at(attribute, 9) {
        Some(v) => v as usize,
        None => return None,
    };
    let first_piece = if !non_resident {
        true
    } else {
        match u64_at(attribute, 16) {
            Some(v) => v == 0,
            None => return None,
        }
    };
    if name_units > 0 {
        let name_offset = match u16_at(attribute, 10) {
            Some(v) => v as usize,
            None => return None,
        };
        if name_offset + name_units * 2 > attribute.len() {
            return None;
        }
        let expected = wof_stream();
        let is_wof = units_are(attribute, name_offset, name_units, &expected);
        if is_wof && first_piece {
            let size = if non_resident {
                match u64_at(attribute, 40) {
                    Some(v) => v,
                    None => return None,
                }
            } else {
                match u32_at(attribute, 16) {
                    Some(v) => next_multiple_of_8(v as u64),
                    None => return None,
                }
            };
            entry.wof_physical_size = Some(size);
        }
        return Some(());
    }
    if !non_resident {
        let length = match u32_at(attribute, 16) {
            Some(v) => v as u64,
            None => return None,
        };
        entry.logical_size = Some(length);
        entry.physical_size = Some(next_multiple_of_8(length));
    } else if first_piece {
        let logical = match u64_at(attribute, 48) {
            Some(v) => v,
            None => return None,
        };
        entry.logical_size = Some(logical);
        let flags = match u16_at(attribute, 12) {
            Some(v) => v,
            None => return None,
        };
        let physical = if flags & (ATTRIBUTE_COMPRESSED | ATTRIBUTE_SPARSE) != 0 {
            u64_at(attribute, 64)
        } else {
            u64_at(attribute, 40)
        };
        match physical {
            Some(p) => {
                if p > 0 {
                    entry.physical_size = Some(p);
                }
            },
            None => return None,
        }
    }
    Some(())
}


// ---------------------------------------------------------------------
// Whole records
// ---------------------------------------------------------------------

/// `.` in UTF-16.
pub open spec fn dot_name() -> Seq<u16> {
    seq![46u16]
}

/// `..` in UTF-16.
pub open spec fn dot_dot_name() -> Seq<u16> {
    seq![46u16, 46u16]
}

/// What one attribute `a` (of type `type_code`, cut to its length) adds
/// to the file's record and to the names, and whether it was whole. A
/// `FILE_NAME` adds a name unless it is an 8.3-only alias, `.` or `..`.
pub open spec fn attribute_step(
    entry: Record,
    names: Seq<(u64, u64, Seq<u16>)>,
    a: Seq<u8>,
    base: u64,
    type_code: u32,
    non_resident: bool,
) -> (Record, Seq<(u64, u64, Seq<u16>)>, bool) {
    if type_code == ATTRIBUTE_STANDARD_INFORMATION && !non_resident {
        match resident(a) {
            None => (entry, names, false),
            Some(v) => match get_u64(v, 8) {
                None => (entry, names, false),
                Some(m) => (Record { modified: Some(m), ..entry }, names, true),
            },
        }
    } else if type_code == ATTRIBUTE_FILE_NAME && !non_resident {
        match resident(a) {
            None => (entry, names, false),
            Some(v) => match get_u8(v, 64) {
                None => (entry, names, false),
                Some(units) => if 66 + units * 2 > v.len() {
                    (entry, names, false)
                } else {
                    let name = utf16_units(v.subrange(66, 66 + units * 2));
                    match get_u8(v, 65) {
                        None => (entry, names, false),
                        Some(flag) => if flag != NAME_DOS_ONLY && name != dot_name() && name != dot_dot_name() {
                            match get_u64(v, 0) {
                                None => (entry, names, false),
                                Some(parent) => (entry, names.push((parent & RECORD_NUMBER_MASK, base, name)), true),
                            }
                        } else {
                            (entry, names, true)
                        },
                    }
                },
            },
        }
    } else if type_code == ATTRIBUTE_DATA {
        let (e, ok) = data_step(entry, a, non_resident);
        (e, names, ok)
    } else if type_code == ATTRIBUTE_REPARSE_POINT && !non_resident {
        match resident(a) {
            None => (entry, names, false),
            Some(v) => match get_u32(v, 0) {
                None => (entry, names, false),
                Some(tag) => (Record { reparse_tag: Some(tag), ..entry }, names, true),
            },
        }
    } else {
        (entry, names, true)
    }
}

/// The attributes of a record from `offset` on. They end at the end
/// marker or at a zero length; one that does not fit ends the record,
/// keeping what was read before it (the flag is then false).
pub open spec fn attributes_from(
    record: Seq<u8>,
    offset: int,
    base: u64,
    entry: Record,
    names: Seq<(u64, u64, Seq<u16>)>,
) -> (Record, Seq<(u64, u64, Seq<u16>)>, bool)
    decreases record.len() - offset,
{
    if offset < 0 || offset > record.len() {
        (entry, names, false)
    } else {
        let attribute = record.subrange(offset, record.len() as int);
        match get_u32(attribute, 0) {
            None => (entry, names, false),
            Some(type_code) => if type_code == ATTRIBUTE_END {
                (entry, names, true)
            } else {
                match get_u32(attribute, 4) {
                    None => (entry, names, false),
                    Some(length) => if length == 0 {
                        (entry, names, true)
                    } else if length > attribute.len() {
                        (entry, names, false)
                    } else {
                        let a = attribute.take(length as int);
                        match get_u8(a, 8) {
                            None => (entry, names, false),
                            Some(resident_flag) => {
                                let step = attribute_step(entry, names, a, base, type_code, resident_flag & 1 != 0);
                                if !step.2 {
                                    step
                                } else {
                                    attributes_from(record, offset + length, base, step.0, step.1)
                                }
                            },
                        }
                    },
                }
            },
        }
    }
}

/// Whether a record starts with the `FILE` signature.
pub open spec fn is_file_record(record: Seq<u8>) -> bool {
    &&& record.len() >= 4
    &&& record[0] == 70u8
    &&& record[1] == 73u8
    &&& record[2] == 76u8
    &&& record[3] == 69u8
}

/// A record's bytes after parsing: patched by its fixups when it carries
/// the `FILE` signature.
pub open spec fn patched(record: Seq<u8>) -> Seq<u8> {
    if is_file_record(record) {
        fixups(record).0
    } else {
        record
    }
}

/// What record `number` adds to the files and names read so far, and
/// whether it was whole. Records that are unused, lack the signature or
/// fail their fixups add nothing. Otherwise the file it belongs to (itself
/// for a base record, else the one its header names) is filed, marked a
/// directory by a base record's flags, and its attributes read.
pub open spec fn record_step(
    records: Map<u64, Record>,
    names: Seq<(u64, u64, Seq<u16>)>,
    record: Seq<u8>,
    number: u64,
) -> (Map<u64, Record>, Seq<(u64, u64, Seq<u16>)>, bool) {
    if !is_file_record(record) || !fixups(record).1 {
        (records, names, false)
    } else {
        let fixed = fixups(record).0;
        match get_u16(fixed, 22) {
            None => (records, names, false),
            Some(flags) => if flags & RECORD_IN_USE == 0 {
                (records, names, false)
            } else {
                match get_u64(fixed, 32) {
                    None => (records, names, false),
                    Some(reference) => {
                        let is_base = reference & RECORD_NUMBER_MASK == 0;
                        let base = if is_base {
                            number
                        } else {
                            reference & RECORD_NUMBER_MASK
                        };
                        let found = record_or_default(records, base);
                        let entry = Record {
                            is_directory: found.is_directory || (is_base && flags & RECORD_IS_DIRECTORY != 0),
                            ..found
                        };
                        match get_u16(fixed, 20) {
                            None => (records.insert(base, entry), names, false),
                            Some(offset) => {
                                let done = attributes_from(fixed, offset as int, base, entry, names);
                                (records.insert(base, done.0), done.1, done.2)
                            },
                        }
                    },
                }
            },
        }
    }
}

/// Everything read from the table so far. Each reader fills its own and
/// they are merged at the end, as one file's records can be far apart.
#[derive(Debug)]
pub struct Table {
    /// Files by base record number.
    pub records: foldhash::HashMap<u64, Record>,
    /// Every name found, in no particular order.
    pub names: Vec<Name>,
}

impl Default for Table {
    fn default() -> (r: Table)
        ensures
            r.records@.is_empty(),
            r.names@.len() == 0,
    {
        Table { records: map_new(), names: Vec::new() }
    }
}

fn name_units(value: &[u8], count: usize) -> (r: Vec<u16>)
    requires
        66 + count * 2 <= value@.len(),
    ensures
        r@ == utf16_units(value@.subrange(66, 66 + count * 2)),
{
    let ghost units = utf16_units(value@.subrange(66, 66 + count * 2));
    let mut r: Vec<u16> = Vec::new();
    let mut i: usize = 0;
    while i < count
        invariant
            i <= count,
            66 + count * 2 <= value@.len(),
            units == utf16_units(value@.subrange(66, 66 + count * 2)),
            units.len() == count,
            r@ =~= units.take(i as int),
        decreases count - i,
    {
        let len = value.len();
        assert(66 + 2 * i + 1 < len) by (nonlinear_arith)
            requires
                i < count,
                66 + count * 2 <= len,
        ;
        let unit = value[66 + 2 * i] as u16 + value[66 + 2 * i + 1] as u16 * 0x100;
        assert(unit == units[i as int]);
        r.push(unit);
        assert(units.take(i + 1) =~= units.take(i as int).push(unit));
        i = i + 1;
    }
    assert(units.take(count as int) =~= units);
    r
}

fn is_dot_units(name: &Vec<u16>) -> (r: bool)
    ensures
        r == (name@ == dot_name() || name@ == dot_dot_name()),
{
    let r = (name.len() == 1 && name[0] == 46) || (name.len() == 2 && name[0] == 46 && name[1] == 46);
    proof {
        if r {
            if name.len() == 1 {
                assert(name@ =~= dot_name());
            } else {
                assert(name@ =~= dot_dot_name());
            }
        }
        if name@ == dot_name() {
            assert(name@[0] == 46u16);
        }
        if name@ == dot_dot_name() {
            assert(name@[0] == 46u16 && name@[1] == 46u16);
        }
    }
    r
}

impl Table {
    /// Read one attribute of a record for file `base`.
    fn parse_attribute(
        &mut self,
        entry: &mut Record,
        a: &[u8],
        base: u64,
        type_code: u32,
        non_resident: bool,
    ) -> (ok: bool)
        ensures
            final(self).records == old(self).records,
            (*final(entry), names_view(final(self).names@), ok) == attribute_step(
                *old(entry),
                names_view(old(self).names@),
                a@,
                base,
                type_code,
                non_resident,
            ),
    {
        if type_code == ATTRIBUTE_STANDARD_INFORMATION && !non_resident {
            let value = match resident_value(a) {
                Some(v) => v,
                None => return false,
            };
            match u64_at(value, 8) {
                Some(m) => {
                    entry.modified = Some(m);
                    true
                },
                None => false,
            }
        } else if type_code == ATTRIBUTE_FILE_NAME && !non_resident {
            let value = match resident_value(a) {
                Some(v) => v,
                None => return false,
            };
            let units = match u8_at(value, 64) {
                Some(v) => v as usize,
                None => return false,
            };
            if 66 + units * 2 > value.len() {
                return false;
            }
            let name = name_units(value, units);
            let flag = match u8_at(value, 65) {
                Some(v) => v,
                None => return false,
            };
            if flag != NAME_DOS_ONLY && !is_dot_units(&name) {
                let parent = match u64_at(value, 0) {
                    Some(v) => v & RECORD_NUMBER_MASK,
                    None => return false,
                };
                let ghost before = self.names@;
                self.names.push(Name { parent, record: base, name });
                assert(names_view(self.names@) =~= names_view(before).push((parent, base, name@)));
            }
            true
        } else if type_code == ATTRIBUTE_DATA {
            parse_data(entry, a, non_resident).is_some()
        } else if type_code == ATTRIBUTE_REPARSE_POINT && !non_resident {
            let value = match resident_value(a) {
                Some(v) => v,
                None => return false,
            };
            match u32_at(value, 0) {
                Some(tag) => {
                    entry.reparse_tag = Some(tag);
                    true
                },
                None => false,
            }
        } else {
            true
        }
    }

    /// Read the attributes of a record for file `base` from `start` on.
    fn parse_attributes(&mut self, entry: &mut Record, record: &[u8], start: usize, base: u64) -> (ok: bool)
        ensures
            final(self).records == old(self).records,
            (*final(entry), names_view(final(self).names@), ok) == attributes_from(
                record@,
                start as int,
                base,
                *old(entry),
                names_view(old(self).names@),
            ),
    {
        let mut offset = start;
        loop
            invariant
                self.records == old(self).records,
                attributes_from(record@, start as int, base, *old(entry), names_view(old(self).names@))
                    == attributes_from(record@, offset as int, base, *entry, names_view(self.names@)),
            decreases record@.len() - offset,
        {
            if offset > record.len() {
                return false;
            }
            let attribute = vstd::slice::slice_subrange(record, offset, record.len());
            let type_code = match u32_at(attribute, 0) {
                Some(v) => v,
                None => return false,
            };
            if type_code == ATTRIBUTE_END {
                return true;
            }
            let length = match u32_at(attribute, 4) {
                Some(v) => v as usize,
                None => return false,
            };
            if length == 0 {
                return true;
            }
            if length > attribute.len() {
                return false;
            }
            let a = vstd::slice::slice_subrange(attribute, 0, length);
            assert(a@ =~= attribute@.take(length as int));
            let flag = match u8_at(a, 8) {
                Some(v) => v,
                None => return false,
            };
            if !self.parse_attribute(entry, a, base, type_code, flag & 1 != 0) {
                return false;
            }
            offset = offset + length;
        }
    }

    /// Parse one record, number `number`. `None` when the record is
    /// unused or damaged; a malformed attribute ends it, keeping what was
    /// read before it.
    pub fn parse_record(&mut self, record: &mut [u8], number: u64) -> (r: Option<()>)
        ensures
            final(record)@ == patched(old(record)@),
            (final(self).records@, names_view(final(self).names@), r is Some) == record_step(
                old(self).records@,
                names_view(old(self).names@),
                old(record)@,
                number,
            ),
    {
        if record.len() < 4 || record[0] != 70 || record[1] != 73 || record[2] != 76 || record[3] != 69 {
            return None;
        }
        if apply_fixups(record).is_none() {
            return None;
        }
        let flags = match u16_at(record, 22) {
            Some(v) => v,
            None => return None,
        };
        if flags & RECORD_IN_USE == 0 {
            return None;
        }
        let reference = match u64_at(record, 32) {
            Some(v) => v & RECORD_NUMBER_MASK,
            None => return None,
        };
        let is_base = reference == 0;
        let base = if is_base { number } else { reference };
        let mut entry = match map_get(&self.records, &base) {
            Some(found) => found,
            None => Record::default(),
        };
        entry.is_directory = entry.is_directory || (is_base && flags & RECORD_IS_DIRECTORY != 0);
        let offset = match u16_at(record, 20) {
            Some(v) => v as usize,
            None => {
                map_insert(&mut self.records, base, entry);
                return None;
            },
        };
        let ok = self.parse_attributes(&mut entry, record, offset, base);
        map_insert(&mut self.records, base, entry);
        if ok {
            Some(())
        } else {
            None
        }
    }
}

/// Record `j` of a run of records `size` bytes long.
pub open spec fn chunk(buffer: Seq<u8>, size: int, j: int) -> Seq<u8> {
    buffer.subrange(j * size, j * size + size)
}

/// The files and names after reading the first `count` records of a run
/// that starts with record number `first`.
pub open spec fn records_parsed(
    records: Map<u64, Record>,
    names: Seq<(u64, u64, Seq<u16>)>,
    buffer: Seq<u8>,
    size: int,
    first: u64,
    count: int,
) -> (Map<u64, Record>, Seq<(u64, u64, Seq<u16>)>)
    decreases count,
{
    if count <= 0 {
        (records, names)
    } else {
        let before = records_parsed(records, names, buffer, size, first, count - 1);
        let step = record_step(before.0, before.1, chunk(buffer, size, count - 1), (first + count - 1) as u64);
        (step.0, step.1)
    }
}

/// The files after taking in `other`'s: a file either knew of is
/// filed, with what `other` found for it folded in.
pub open spec fn merged_records(this: Map<u64, Record>, other: Map<u64, Record>) -> Map<u64, Record> {
    Map::new(
        |k: u64| this.contains_key(k) || other.contains_key(k),
        |k: u64|
            if other.contains_key(k) {
                merged(record_or_default(this, k), other[k])
            } else {
                this[k]
            },
    )
}

proof fn lemma_chunk_before(j: int, i: int, size: int)
    requires
        0 <= j < i,
        size > 0,
    ensures
        0 <= j * size,
        j * size + size <= i * size,
{
    assert(0 <= j * size) by (nonlinear_arith)
        requires
            0 <= j,
            size > 0,
    ;
    assert(j * size + size <= i * size) by (nonlinear_arith)
        requires
            j < i,
            size > 0,
    ;
}

impl Table {
    /// Parse a run of whole records. `first_record` is the number of the
    /// record at the start of `buffer`, which is patched in place by the
    /// fixups. Records that are unused, lack the `FILE` signature or fail
    /// their fixups are skipped; a malformed attribute ends its record,
    /// keeping what was read before it. A trailing partial record is ignored.
    pub fn parse_records(&mut self, buffer: &mut [u8], record_size: usize, first_record: u64)
        requires
            record_size == 0 || first_record + (old(buffer)@.len() as int) / (record_size as int) <= u64::MAX + 1,
        ensures
            record_size == 0 ==> final(self).records@ == old(self).records@ && final(self).names@ == old(
                self,
            ).names@ && final(buffer)@ == old(buffer)@,
            record_size > 0 ==> (final(self).records@, names_view(final(self).names@)) == records_parsed(
                old(self).records@,
                names_view(old(self).names@),
                old(buffer)@,
                record_size as int,
                first_record,
                (old(buffer)@.len() as int) / (record_size as int),
            ),
            final(buffer)@.len() == old(buffer)@.len(),
            record_size > 0 ==> forall|j: int|
                0 <= j < (old(buffer)@.len() as int) / (record_size as int) ==> #[trigger] chunk(
                    final(buffer)@,
                    record_size as int,
                    j,
                ) == patched(chunk(old(buffer)@, record_size as int, j)),
            record_size > 0 ==> final(buffer)@.subrange(
                ((old(buffer)@.len() as int) / (record_size as int)) * record_size,
                old(buffer)@.len() as int,
            ) == old(buffer)@.subrange(
                ((old(buffer)@.len() as int) / (record_size as int)) * record_size,
                old(buffer)@.len() as int,
            ),
    {
        if record_size == 0 {
            return;
        }
        let ghost original = buffer@;
        let ghost size = record_size as int;
        let count = buffer.len() / record_size;
        assert(count * record_size <= buffer@.len()) by (nonlinear_arith)
            requires
                count == (buffer@.len() as int) / (record_size as int),
                record_size > 0,
        ;
        let mut i: usize = 0;
        let mut start: usize = 0;
        while i < count
            invariant
                size == record_size as int,
                record_size > 0,
                count == (original.len() as int) / size,
                count * size <= original.len(),
                i <= count,
                start == i * size,
                first_record + count <= u64::MAX + 1,
                buffer@.len() == original.len(),
                (self.records@, names_view(self.names@)) == records_parsed(
                    old(self).records@,
                    names_view(old(self).names@),
                    original,
                    size,
                    first_record,
                    i as int,
                ),
                forall|j: int| 0 <= j < i ==> #[trigger] chunk(buffer@, size, j) == patched(chunk(original, size, j)),
                buffer@.subrange(start as int, original.len() as int) == original.subrange(
                    start as int,
                    original.len() as int,
                ),
            decreases count - i,
        {
            assert(start + record_size <= buffer@.len()) by (nonlinear_arith)
                requires
                    start == i * size,
                    i < count,
                    count * size <= original.len(),
                    buffer@.len() == original.len(),
                    size == record_size as int,
            ;
            let ghost before = buffer@;
            assert(chunk(original, size, i as int) =~= before.subrange(start as int, start + size));
            {
                let (head, rest) = buffer.split_at_mut(start);
                let (record, tail) = rest.split_at_mut(record_size);
                assert(record@ =~= chunk(original, size, i as int));
                proof {
                    lemma_patched_len(chunk(original, size, i as int));
                }
                let _ = self.parse_record(record, first_record + i as u64);
            }
            proof {
                let after = buffer@;
                lemma_patched_len(chunk(original, size, i as int));
                assert(after.len() == before.len());
                assert(after.subrange(0, start as int) =~= before.subrange(0, start as int));
                assert(after.subrange(start as int, start + size) =~= patched(chunk(original, size, i as int)));
                assert(after.subrange(start + size, after.len() as int) =~= before.subrange(start + size, before.len() as int));
                assert forall|j: int| 0 <= j < i + 1 implies #[trigger] chunk(after, size, j) == patched(
                    chunk(original, size, j),
                ) by {
                    if j < i {
                        lemma_chunk_before(j, i as int, size);
                        assert(chunk(after, size, j) =~= chunk(before, size, j));
                    } else {
                        assert(chunk(after, size, j) =~= patched(chunk(original, size, i as int)));
                    }
                }
                assert(after.subrange(start + size, original.len() as int) =~= original.subrange(
                    start + size,
                    original.len() as int,
                ));
            }
            assert(start + size == (i + 1) * size && (i + 1) * size <= count * size) by (nonlinear_arith)
                requires
                    start == i * size,
                    i < count,
                    size > 0,
            ;
            let n = buffer.len();
            assert(start + record_size <= n);
            i = i + 1;
            start = start + record_size;
        }
    }

    /// Take in everything another table read.
    pub fn merge(&mut self, other: Table)
        ensures
            final(self).records@ == merged_records(old(self).records@, other.records@),
            final(self).names@ == old(self).names@ + other.names@,
    {
        let keys = map_keys(&other.records);
        let ghost before = self.records@;
        let ghost mut done: Set<u64> = Set::empty();
        let mut i: usize = 0;
        while i < keys.len()
            invariant
                i <= keys@.len(),
                keys@.to_set() == other.records@.dom(),
                keys@.no_duplicates(),
                self.names@ == old(self).names@,
                before == old(self).records@,
                forall|k: u64| done.contains(k) ==> other.records@.contains_key(k),
                forall|j: int| 0 <= j < i ==> done.contains(#[trigger] keys@[j]),
                forall|j: int| i <= j < keys@.len() ==> !done.contains(#[trigger] keys@[j]),
                forall|k: u64|
                    #![trigger self.records@.contains_key(k)]
                    self.records@.contains_key(k) <==> (before.contains_key(k) || done.contains(k)),
                forall|k: u64|
                    #![trigger self.records@[k]]
                    self.records@.contains_key(k) ==> self.records@[k] == if done.contains(k) {
                        merged(record_or_default(before, k), other.records@[k])
                    } else {
                        before[k]
                    },
            decreases keys@.len() - i,
        {
            let key = keys[i];
            assert(keys@.to_set().contains(key));
            let theirs = match map_get(&other.records, &key) {
                Some(r) => r,
                None => {
                    assert(false);
                    Record::default()
                },
            };
            let mut mine = match map_get(&self.records, &key) {
                Some(r) => r,
                None => Record::default(),
            };
            assert(!done.contains(key));
            assert(mine == record_or_default(before, key));
            mine.merge(theirs);
            map_insert(&mut self.records, key, mine);
            proof {
                assert forall|j: int| i + 1 <= j < keys@.len() implies !done.insert(key).contains(
                    #[trigger] keys@[j],
                ) by {
                    assert(keys@[j] != keys@[i as int]);
                }
                done = done.insert(key);
            }
            i = i + 1;
        }
        proof {
            assert forall|k: u64| other.records@.contains_key(k) implies done.contains(k) by {
                assert(keys@.to_set().contains(k));
                let j = choose|j: int| 0 <= j < keys@.len() && keys@[j] == k;
                assert(done.contains(keys@[j]));
            }
            assert(self.records@ =~= merged_records(before, other.records@));
        }
        let mut names = other.names;
        self.names.append(&mut names);
    }
}

} // verus!
