use dirstats::linux::{dirents, DT_DIR, DT_REG, DT_UNKNOWN};
use dirstats::mft::{
    Table, ATTRIBUTE_DATA, ATTRIBUTE_END, ATTRIBUTE_FILE_NAME, ATTRIBUTE_REPARSE_POINT, ATTRIBUTE_SPARSE,
    ATTRIBUTE_STANDARD_INFORMATION, FIXUP_STRIDE, NAME_DOS_ONLY, RECORD_IN_USE, RECORD_IS_DIRECTORY,
    REPARSE_TAG_MOUNT_POINT,
};
use dirstats::scan::ScanOptions;
use dirstats::tree::{Kind, Node, NodeId, Tree};

const RECORD_SIZE: usize = 1024;
const CHECK: u16 = 0xBEEF;

fn attribute(type_code: u32, non_resident: bool, flags: u16, stream: &str, body: &[u8]) -> Vec<u8> {
    let stream: Vec<u8> = stream.encode_utf16().flat_map(u16::to_le_bytes).collect();
    let name_offset = if non_resident { 72 } else { 24 };
    let mut a = vec![0u8; name_offset];
    a[0..4].copy_from_slice(&type_code.to_le_bytes());
    a[8] = u8::from(non_resident);
    a[9] = (stream.len() / 2) as u8;
    a[10..12].copy_from_slice(&(name_offset as u16).to_le_bytes());
    a[12..14].copy_from_slice(&flags.to_le_bytes());
    a.extend(&stream);
    if non_resident {
        a[16..72].copy_from_slice(body);
    } else {
        let value_offset = a.len().next_multiple_of(8);
        a.resize(value_offset, 0);
        a[16..20].copy_from_slice(&(body.len() as u32).to_le_bytes());
        a[20..22].copy_from_slice(&(value_offset as u16).to_le_bytes());
        a.extend(body);
    }
    let length = a.len().next_multiple_of(8);
    a.resize(length, 0);
    a[4..8].copy_from_slice(&(length as u32).to_le_bytes());
    a
}

fn file_name(parent: u64, name: &str, flags: u8) -> Vec<u8> {
    let mut v = vec![0u8; 66];
    v[0..8].copy_from_slice(&(parent | 7 << 48).to_le_bytes());
    v[64] = name.encode_utf16().count() as u8;
    v[65] = flags;
    v.extend(name.encode_utf16().flat_map(u16::to_le_bytes));
    attribute(ATTRIBUTE_FILE_NAME, false, 0, "", &v)
}

fn standard_information(modified: u64) -> Vec<u8> {
    let mut v = vec![0u8; 48];
    v[8..16].copy_from_slice(&modified.to_le_bytes());
    attribute(ATTRIBUTE_STANDARD_INFORMATION, false, 0, "", &v)
}

/// Non-resident stream body: bytes 16..72 of the attribute.
fn non_resident(lowest_vcn: u64, allocated: u64, size: u64, compressed: u64) -> Vec<u8> {
    let mut v = vec![0u8; 56];
    v[0..8].copy_from_slice(&lowest_vcn.to_le_bytes());
    v[24..32].copy_from_slice(&allocated.to_le_bytes());
    v[32..40].copy_from_slice(&size.to_le_bytes());
    v[48..56].copy_from_slice(&compressed.to_le_bytes());
    v
}

fn record(flags: u16, base: u64, attributes: &[Vec<u8>]) -> Vec<u8> {
    let mut r = vec![0u8; RECORD_SIZE];
    r[0..4].copy_from_slice(b"FILE");
    r[4..6].copy_from_slice(&48u16.to_le_bytes());
    r[6..8].copy_from_slice(&3u16.to_le_bytes());
    r[20..22].copy_from_slice(&56u16.to_le_bytes());
    r[22..24].copy_from_slice(&flags.to_le_bytes());
    r[32..40].copy_from_slice(&base.to_le_bytes());
    let mut offset = 56;
    for a in attributes {
        r[offset..offset + a.len()].copy_from_slice(a);
        offset += a.len();
    }
    r[offset..offset + 4].copy_from_slice(&ATTRIBUTE_END.to_le_bytes());
    // Move the true sector-end words into the fixup array.
    r[48..50].copy_from_slice(&CHECK.to_le_bytes());
    for i in 1..3 {
        let end = i * FIXUP_STRIDE;
        let original = [r[end - 2], r[end - 1]];
        r[48 + i * 2..50 + i * 2].copy_from_slice(&original);
        r[end - 2..end].copy_from_slice(&CHECK.to_le_bytes());
    }
    r
}

fn table(records: &[(u64, Vec<u8>)]) -> Table {
    let mut table = Table::default();
    for (number, bytes) in records {
        table.parse_records(&mut bytes.clone(), RECORD_SIZE, *number);
    }
    table
}

fn find<'a>(tree: &'a Tree, parent: NodeId, name: &str) -> (NodeId, &'a Node) {
    let id = *tree.children(parent).iter().find(|&&id| tree.node(id).name == name).expect(name);
    (id, tree.node(id))
}

#[test]
fn builds_a_tree_with_sizes_links_and_reparse_points() {
    let modified = 116_444_736_000_000_000 + 10_000_000;
    let in_use = RECORD_IN_USE;
    let dir = RECORD_IN_USE | RECORD_IS_DIRECTORY;
    let table = table(&[
        (5, record(dir, 0, &[file_name(5, ".", 3)])),
        (40, record(dir, 0, &[file_name(5, "docs", 1)])),
        // Resident data, with an 8.3 alias that must not show up.
        (
            41,
            record(
                in_use,
                0,
                &[
                    standard_information(modified),
                    file_name(40, "LONGNA~1.TXT", NAME_DOS_ONLY),
                    file_name(40, "long name.txt", 1),
                    attribute(ATTRIBUTE_DATA, false, 0, "", &[1; 13]),
                ],
            ),
        ),
        // Hard linked, its data attribute held by an extension record.
        (42, record(in_use, 0, &[file_name(5, "big.bin", 3), file_name(40, "link.bin", 3)])),
        (
            43,
            record(
                in_use,
                42,
                &[
                    attribute(ATTRIBUTE_DATA, true, 0, "", &non_resident(0, 8192, 5000, 0)),
                    attribute(ATTRIBUTE_DATA, true, 0, "", &non_resident(2, 0, 0, 0)),
                ],
            ),
        ),
        // Sparse: the compressed size is what is allocated.
        (
            44,
            record(
                in_use,
                0,
                &[
                    file_name(5, "sparse", 1),
                    attribute(ATTRIBUTE_DATA, true, ATTRIBUTE_SPARSE, "", &non_resident(0, 1 << 20, 1 << 20, 4096)),
                ],
            ),
        ),
        // Overlay-compressed: the named stream holds the real data.
        (
            45,
            record(
                in_use,
                0,
                &[
                    file_name(5, "wof.exe", 1),
                    attribute(ATTRIBUTE_DATA, true, ATTRIBUTE_SPARSE, "", &non_resident(0, 65536, 60000, 0)),
                    attribute(ATTRIBUTE_DATA, true, 0, "WofCompressedData", &non_resident(0, 16384, 15000, 0)),
                    attribute(ATTRIBUTE_DATA, false, 0, "Zone.Identifier", &[0; 26]),
                ],
            ),
        ),
        (
            46,
            record(
                dir,
                0,
                &[
                    file_name(5, "junction", 1),
                    attribute(ATTRIBUTE_REPARSE_POINT, false, 0, "", &REPARSE_TAG_MOUNT_POINT.to_le_bytes()),
                ],
            ),
        ),
        // Deleted: not in use.
        (47, record(0, 0, &[file_name(5, "deleted", 1)])),
    ]);

    let tree = table.into_tree("C:\\".into(), &ScanOptions::with_threads(1)).unwrap();
    let root = tree.root();
    assert_eq!(tree.len(), 8);

    let (docs, _) = find(&tree, root, "docs");
    let (_, text) = find(&tree, docs, "long name.txt");
    assert_eq!((text.apparent_size, text.allocated_size), (13, 16));
    assert_eq!(text.modified, Some(1_000_000_000));
    assert_eq!(tree.children(docs).len(), 2);

    let (_, big) = find(&tree, root, "big.bin");
    let (_, link) = find(&tree, docs, "link.bin");
    assert_eq!((big.apparent_size, big.allocated_size), (5000, 8192));
    assert_ne!(big.duplicate_link, link.duplicate_link);

    assert_eq!(find(&tree, root, "sparse").1.allocated_size, 4096);
    let (_, wof) = find(&tree, root, "wof.exe");
    assert_eq!((wof.apparent_size, wof.allocated_size), (60000, 16384));
    assert_eq!(find(&tree, root, "junction").1.kind, Kind::Symlink);

    let root = tree.node(root);
    assert_eq!(root.allocated_size, 16 + 8192 + 4096 + 16384);
    assert_eq!((root.file_count, root.dir_count), (6, 1));
}

#[test]
fn skips_torn_and_truncated_records() {
    let mut torn = record(RECORD_IN_USE, 0, &[file_name(5, "torn", 1)]);
    torn[510] ^= 0xFF;
    let mut endless = record(RECORD_IN_USE, 0, &[file_name(5, "endless", 1)]);
    // An attribute claiming to run past the record.
    endless[60..64].copy_from_slice(&5000u32.to_le_bytes());
    let table = table(&[(50, torn), (51, endless), (52, vec![0; RECORD_SIZE])]);
    assert!(table.names.is_empty());
    assert!(table.into_tree("C:\\".into(), &ScanOptions::with_threads(1)).is_none());
}

fn dirent(inode: u64, kind: u8, name: &[u8]) -> Vec<u8> {
    // Records are padded to eight bytes, with the name NUL-terminated.
    let length = (19 + name.len() + 1).next_multiple_of(8);
    let mut bytes = vec![0u8; length];
    bytes[0..8].copy_from_slice(&inode.to_le_bytes());
    bytes[16..18].copy_from_slice(&u16::try_from(length).unwrap().to_le_bytes());
    bytes[18] = kind;
    bytes[19..19 + name.len()].copy_from_slice(name);
    bytes
}

#[test]
fn dirents_skip_dot_entries_and_keep_names() {
    let mut buffer = dirent(2, DT_DIR, b".");
    buffer.extend(dirent(1, DT_DIR, b".."));
    buffer.extend(dirent(40, DT_REG, b"a file"));
    buffer.extend(dirent(7, DT_UNKNOWN, "日本語".as_bytes()));
    let entries = dirents(&buffer);
    assert_eq!(entries, vec![(40, DT_REG, b"a file".to_vec()), (7, DT_UNKNOWN, "日本語".as_bytes().to_vec())]);
}

#[test]
fn dirents_stop_at_a_truncated_or_empty_record() {
    let mut buffer = dirent(40, DT_REG, b"whole");
    let cut = buffer.len();
    buffer.extend(dirent(41, DT_REG, b"truncated"));
    assert_eq!(dirents(&buffer[..cut + 12]).len(), 1);
    let mut zero_length = dirent(42, DT_REG, b"x");
    zero_length[16..18].copy_from_slice(&0u16.to_le_bytes());
    assert_eq!(dirents(&zero_length).len(), 0, "a zero length must not loop");
}
