//! What the Linux walker makes of the kernel's answers: `getdents64`
//! listing buffers, `struct statx` records and their timestamps. The
//! system calls themselves are made by the caller, which hands the bytes
//! and fields over as plain values.

use crate::scan::Stat;
use crate::scan::allocated_from_blocks;
use crate::tree::Kind;
use vstd::prelude::*;

verus! {

/// `d_type` of a directory.
pub const DT_DIR: u8 = 4;

/// `d_type` of a regular file.
pub const DT_REG: u8 = 8;

/// `d_type` of a symbolic link.
pub const DT_LNK: u8 = 10;

/// `d_type` when the filesystem does not say.
pub const DT_UNKNOWN: u8 = 0;

/// The file-type bits of `st_mode`.
pub const S_IFMT: u32 = 0o170000;

/// File type of a directory.
pub const S_IFDIR: u32 = 0o040000;

/// File type of a regular file.
pub const S_IFREG: u32 = 0o100000;

/// File type of a symbolic link.
pub const S_IFLNK: u32 = 0o120000;

/// `statx` mask bit: `stx_mtime` is filled in.
pub const STATX_MTIME: u32 = 0x40;

/// `statx` mask bit: `stx_mnt_id` is filled in.
pub const STATX_MNT_ID: u32 = 0x1000;

/// Size of a `linux_dirent64` header up to its name:
/// `u64 d_ino; s64 d_off; u16 d_reclen; u8 d_type;`.
pub const DIRENT_NAME: usize = 19;

/// A `statx` timestamp.
#[derive(Clone, Copy, Debug, PartialEq, Eq, Structural)]
pub struct StatxTimestamp {
    pub sec: i64,
    pub nsec: u32,
}

/// The fields of `struct statx` that a walk reads.
#[derive(Clone, Copy, Debug, PartialEq, Eq, Structural)]
pub struct Statx {
    pub mask: u32,
    pub blksize: u32,
    pub nlink: u32,
    pub mode: u16,
    pub ino: u64,
    pub size: u64,
    pub blocks: u64,
    pub mtime: StatxTimestamp,
    pub dev_major: u32,
    pub dev_minor: u32,
    pub mnt_id: u64,
}

/// The `u16` stored little-endian at `at`.
pub open spec fn le_u16(b: Seq<u8>, at: int) -> int {
    b[at] + b[at + 1] * 0x100
}

/// The `u64` stored little-endian at `at`.
pub open spec fn le_u64(b: Seq<u8>, at: int) -> int {
    b[at] + b[at + 1] * 0x100 + b[at + 2] * 0x1_0000 + b[at + 3] * 0x100_0000 + b[at + 4] * 0x1_0000_0000
        + b[at + 5] * 0x100_0000_0000 + b[at + 6] * 0x1_0000_0000_0000 + b[at + 7]
        * 0x100_0000_0000_0000
}

/// Index of the first zero byte of `s` at or after `i`, or its length.
pub open spec fn first_nul(s: Seq<u8>, i: int) -> int
    decreases s.len() - i,
{
    if i >= s.len() {
        s.len() as int
    } else if s[i] == 0 {
        i
    } else {
        first_nul(s, i + 1)
    }
}

/// A name as `d_name` holds it: up to its terminating zero.
pub open spec fn c_name(s: Seq<u8>) -> Seq<u8> {
    s.take(first_nul(s, 0))
}

/// `.` or `..`.
pub open spec fn is_dot_entry(name: Seq<u8>) -> bool {
    name == seq![46u8] || name == seq![46u8, 46u8]
}

/// The record length stored in the header at `offset`.
pub open spec fn record_length(buffer: Seq<u8>, offset: int) -> int {
    le_u16(buffer, offset + 16)
}

/// The entries of a listing buffer from `offset` on, as inode, `d_type`
/// and name, without `.` and `..`. The listing ends at a header that does
/// not fit, or at a record that is no longer than its header or runs past
/// the buffer.
pub open spec fn dirent_list(buffer: Seq<u8>, offset: int) -> Seq<(u64, u8, Seq<u8>)>
    decreases buffer.len() - offset,
{
    if offset < 0 || offset + DIRENT_NAME > buffer.len() {
        seq![]
    } else {
        let length = record_length(buffer, offset);
        if length <= DIRENT_NAME || offset + length > buffer.len() {
            seq![]
        } else {
            let name = c_name(buffer.subrange(offset + DIRENT_NAME, offset + length));
            let rest = dirent_list(buffer, offset + length);
            if is_dot_entry(name) {
                rest
            } else {
                seq![(le_u64(buffer, offset) as u64, buffer[offset + 18], name)] + rest
            }
        }
    }
}

/// An entry as a caller sees it: bytes viewed as a sequence.
pub open spec fn dirent_view(e: (u64, u8, Vec<u8>)) -> (u64, u8, Seq<u8>) {
    (e.0, e.1, e.2@)
}

fn read_u16(b: &[u8], at: usize) -> (r: u16)
    requires
        at + 2 <= b@.len(),
    ensures
        r == le_u16(b@, at as int),
{
    b[at] as u16 + b[at + 1] as u16 * 0x100
}

fn read_u64(b: &[u8], at: usize) -> (r: u64)
    requires
        at + 8 <= b@.len(),
    ensures
        r == le_u64(b@, at as int),
{
    b[at] as u64 + b[at + 1] as u64 * 0x100 + b[at + 2] as u64 * 0x1_0000 + b[at + 3] as u64 * 0x100_0000
        + b[at + 4] as u64 * 0x1_0000_0000 + b[at + 5] as u64 * 0x100_0000_0000 + b[at + 6] as u64
        * 0x1_0000_0000_0000 + b[at + 7] as u64 * 0x100_0000_0000_0000
}

/// The entries of a `getdents64` buffer as inode, `d_type` and name,
/// without "." and "..". Fields are read little-endian, the byte order
/// the kernel writes them in on the machines this runs on.
pub fn dirents(buffer: &[u8]) -> (r: Vec<(u64, u8, Vec<u8>)>)
    ensures
        r@.map_values(|e: (u64, u8, Vec<u8>)| dirent_view(e)) == dirent_list(buffer@, 0),
{
    let mut out: Vec<(u64, u8, Vec<u8>)> = Vec::new();
    let mut offset: usize = 0;
    loop
        invariant
            offset <= buffer@.len(),
            out@.map_values(|e: (u64, u8, Vec<u8>)| dirent_view(e)) + dirent_list(buffer@, offset as int)
                == dirent_list(buffer@, 0),
        ensures
            out@.map_values(|e: (u64, u8, Vec<u8>)| dirent_view(e)) == dirent_list(buffer@, 0),
        decreases buffer@.len() - offset,
    {
        let ghost before = out@.map_values(|e: (u64, u8, Vec<u8>)| dirent_view(e));
        if DIRENT_NAME > buffer.len() - offset {
            assert(before + dirent_list(buffer@, offset as int) =~= before);
            break;
        }
        let inode = read_u64(buffer, offset);
        let length = read_u16(buffer, offset + 16) as usize;
        let kind = buffer[offset + 18];
        if length <= DIRENT_NAME || length > buffer.len() - offset {
            assert(before + dirent_list(buffer@, offset as int) =~= before);
            break;
        }
        let start = offset + DIRENT_NAME;
        let end = offset + length;
        let ghost record = buffer@.subrange(start as int, end as int);
        let mut cut = start;
        while cut < end && buffer[cut] != 0
            invariant
                start <= cut <= end <= buffer@.len(),
                record == buffer@.subrange(start as int, end as int),
                first_nul(record, (cut - start) as int) == first_nul(record, 0),
            decreases end - cut,
        {
            cut = cut + 1;
        }
        assert(first_nul(record, (cut - start) as int) == (cut - start) as int);
        let mut name: Vec<u8> = Vec::new();
        let mut k = start;
        while k < cut
            invariant
                start <= k <= cut <= buffer@.len(),
                name@ =~= buffer@.subrange(start as int, k as int),
            decreases cut - k,
        {
            name.push(buffer[k]);
            k = k + 1;
        }
        assert(name@ =~= c_name(record));
        let dot = (name.len() == 1 && name[0] == 46) || (name.len() == 2 && name[0] == 46 && name[1] == 46);
        assert(dot == is_dot_entry(name@)) by {
            if dot {
                if name.len() == 1 {
                    assert(name@ =~= seq![46u8]);
                } else {
                    assert(name@ =~= seq![46u8, 46u8]);
                }
            }
        }
        let ghost e = (inode, kind, name@);
        offset = end;
        if !dot {
            out.push((inode, kind, name));
            proof {
                assert(out@.map_values(|e: (u64, u8, Vec<u8>)| dirent_view(e)) =~= before.push(e));
                assert(before.push(e) + dirent_list(buffer@, offset as int) =~= before + (seq![e]
                    + dirent_list(buffer@, offset as int)));
            }
        }
    }
    out
}

/// What an entry is, from the file-type bits of its mode.
pub fn kind_of(stat: &Statx) -> (r: Kind)
    ensures
        r == (if stat.mode as u32 & S_IFMT == S_IFDIR {
            Kind::Directory
        } else if stat.mode as u32 & S_IFMT == S_IFREG {
            Kind::File
        } else if stat.mode as u32 & S_IFMT == S_IFLNK {
            Kind::Symlink
        } else {
            Kind::Other
        }),
{
    let bits = stat.mode as u32 & S_IFMT;
    if bits == S_IFDIR {
        Kind::Directory
    } else if bits == S_IFREG {
        Kind::File
    } else if bits == S_IFLNK {
        Kind::Symlink
    } else {
        Kind::Other
    }
}

/// What an entry is, from the `d_type` of its listing. `DT_UNKNOWN`,
/// which some filesystems always report, and every other type are
/// [`Kind::Other`].
pub fn kind_of_dirent(kind: u8) -> (r: Kind)
    ensures
        r == (if kind == DT_DIR {
            Kind::Directory
        } else if kind == DT_REG {
            Kind::File
        } else if kind == DT_LNK {
            Kind::Symlink
        } else {
            Kind::Other
        }),
{
    if kind == DT_DIR {
        Kind::Directory
    } else if kind == DT_REG {
        Kind::File
    } else if kind == DT_LNK {
        Kind::Symlink
    } else {
        Kind::Other
    }
}

/// The device number of `stat` with the major number in the high half.
pub open spec fn packed_device(stat: &Statx) -> u64 {
    (stat.dev_major * 0x1_0000_0000 + stat.dev_minor) as u64
}

/// The device number, packed the same way for every entry of a walk:
/// major number in the high half, minor in the low.
pub fn device_of(stat: &Statx) -> (r: u64)
    ensures
        r == stat.dev_major * 0x1_0000_0000 + stat.dev_minor,
{
    let major = stat.dev_major as u64;
    let minor = stat.dev_minor as u64;
    let r = (major << 32u64) | minor;
    assert(r == major * 0x1_0000_0000 + minor) by (bit_vector)
        requires
            major < 0x1_0000_0000,
            minor < 0x1_0000_0000,
            r == (major << 32u64) | minor,
    ;
    r
}

/// The nanoseconds since the Unix epoch of a timestamp `sec` seconds and
/// `nsec` nanoseconds after it, when the seconds they make fit a time
/// value (a signed 64-bit count of seconds).
pub open spec fn timestamp_nanos(sec: i64, nsec: u32) -> Option<i128> {
    if sec + nsec / 1_000_000_000 <= i64::MAX {
        Some((sec * 1_000_000_000 + nsec) as i128)
    } else {
        None
    }
}

/// A `statx` timestamp as nanoseconds since the Unix epoch.
pub fn time(stamp: &StatxTimestamp) -> (r: Option<i128>)
    ensures
        r == timestamp_nanos(stamp.sec, stamp.nsec),
{
    let whole: i64 = (stamp.nsec / 1_000_000_000) as i64;
    if stamp.sec > i64::MAX - whole {
        return None;
    }
    Some(stamp.sec as i128 * 1_000_000_000 + stamp.nsec as i128)
}

/// Where a walk that may not leave its filesystem stops.
#[derive(Clone, Copy, Debug, PartialEq, Eq, Structural)]
pub enum Boundary {
    /// Entries must be on this device.
    Device(u64),
    /// Entries must be on this mount; an entry whose mount id the kernel
    /// did not report is taken as inside.
    Mount(u64),
}

impl Boundary {
    /// Whether an entry with these attributes is inside the boundary.
    pub fn contains(self, stat: &Statx) -> (r: bool)
        ensures
            r == match self {
                Boundary::Device(device) => device == stat.dev_major * 0x1_0000_0000 + stat.dev_minor,
                Boundary::Mount(id) => stat.mask & STATX_MNT_ID == 0 || stat.mnt_id == id,
            },
    {
        match self {
            Boundary::Device(device) => device == device_of(stat),
            Boundary::Mount(id) => stat.mask & STATX_MNT_ID == 0 || stat.mnt_id == id,
        }
    }
}

/// The attributes a scan keeps of a `statx` record: the modification
/// time only when the kernel filled it in, and the data's identity when
/// it has more than one link.
pub fn stat_of(stat: &Statx) -> (r: Stat)
    requires
        crate::scan::round_up(stat.size as int, crate::scan::io_block_of(stat.blksize as int)) <= u64::MAX,
    ensures
        r.apparent_size == stat.size,
        r.allocated_size == crate::scan::allocated_spec(stat.size as int, stat.blocks as int, stat.blksize as int),
        r.modified == (if stat.mask & STATX_MTIME != 0 {
            timestamp_nanos(stat.mtime.sec, stat.mtime.nsec)
        } else {
            None
        }),
        r.link == (if stat.nlink > 1 {
            Some(((packed_device(stat), stat.ino), Some(stat.nlink as u64)))
        } else {
            None
        }),
{
    Stat {
        apparent_size: stat.size,
        allocated_size: allocated_from_blocks(stat.size, stat.blocks, stat.blksize as u64),
        modified: if stat.mask & STATX_MTIME != 0 {
            time(&stat.mtime)
        } else {
            None
        },
        link: if stat.nlink > 1 {
            Some(((device_of(stat), stat.ino), Some(stat.nlink as u64)))
        } else {
            None
        },
    }
}

} // verus!
