use datkit::dat::{DatFile, Version};
use datkit::error::DatError;
use datkit::tree::{FileEntry, FileTree, Node, NodeType};
use datkit::FileState;
use std::io::Write;

/// A small LZSS stream built by hand: a five-byte literal run, then a
/// four-byte compressed block holding one literal and one back-reference
/// into the space-filled dictionary.
fn lzss_fixture() -> (Vec<u8>, Vec<u8>) {
    let packed = vec![
        0xFF, 0xFB, // token -5: five literal bytes
        b'h', b'e', b'l', b'l', b'o',
        0x00, 0x04, // token 4: a four-byte compressed block
        0x01,       // flag byte: first bit set
        b'A',       // literal byte
        0x00, 0x00, // back-reference: index 0, three bytes of spaces
    ];
    let unpacked = b"helloA   ".to_vec();
    (packed, unpacked)
}

#[test]
fn lzss_test() {
    let (packed, unpacked) = lzss_fixture();

    let out = DatFile::decompress_lzss_inner(packed, unpacked.len()).unwrap();

    assert_eq!(out, unpacked);
}

#[test]
fn lzss_zero_token() {
    // a zero token at the start
    assert_eq!(
        DatFile::decompress_lzss_inner(vec![0x00, 0x00], 0),
        Err(DatError::LZSSError)
    );
    // and one after a valid literal run
    let input = vec![0xFF, 0xFE, b'a', b'b', 0x00, 0x00];
    assert_eq!(
        DatFile::decompress_lzss_inner(input, 2),
        Err(DatError::LZSSError)
    );
}

#[test]
fn lzss_size_mismatch() {
    let (packed, unpacked) = lzss_fixture();
    assert_eq!(
        DatFile::decompress_lzss_inner(packed, unpacked.len() + 1),
        Err(DatError::LZSSError)
    );
}

fn mock_tree() -> FileTree {
    let entry = FileEntry::default();
    let nodes = vec![
        Node::new_file("color.pal", "./color.pal", entry),
        Node::new_dir("art", "./art", Vec::new()),
    ];

    let mut t = FileTree::create(nodes).unwrap();
    t.insert("art/file1", entry).unwrap();

    t
}

#[test]
fn tree_test() {
    let tree = mock_tree();

    {
        let n = tree.get("./color.pal").unwrap();
        assert!(matches!(&n.node_type, NodeType::File { entry: _ }));
        assert_eq!(n.get_name(), "color.pal");
    }

    {
        let n = tree.get(".").unwrap();
        assert_eq!(n.get_name(), ".");
    }

    {
        let n = tree.get("art").unwrap();
        assert_eq!(n.get_name(), "art");
    }

    {
        let n = tree.get("art/file1").unwrap();
        assert!(matches!(&n.node_type, NodeType::File { entry: _ }));
    }

    {
        let n = tree.get("file/that/does/not/exist");
        assert!(n.is_none());
    }
}

fn push_be_i32(out: &mut Vec<u8>, v: i32) {
    out.extend_from_slice(&v.to_be_bytes());
}

/// A minimal synthetic legacy archive: one root directory `.` holding
/// one stored file.
fn format1_fixture() -> Vec<u8> {
    let mut d = Vec::new();
    push_be_i32(&mut d, 1); // dir_count
    push_be_i32(&mut d, 0x0A); // id
    push_be_i32(&mut d, 0); // zero
    push_be_i32(&mut d, 0); // checksum
    d.push(1);
    d.push(b'.');
    push_be_i32(&mut d, 1); // file_count
    push_be_i32(&mut d, 0);
    push_be_i32(&mut d, 0);
    push_be_i32(&mut d, 0);
    d.push(8);
    d.extend_from_slice(b"TEST.TXT");
    push_be_i32(&mut d, 0); // attributes
    push_be_i32(&mut d, 64); // offset
    push_be_i32(&mut d, 4); // size
    push_be_i32(&mut d, 0); // size_compressed
    d
}

#[test]
fn format1_minimal_archive() {
    let dat = DatFile::open(format1_fixture()).unwrap();
    assert_eq!(*dat.get_version(), Version::Dat1);

    let node = dat.registry.get("test.txt").unwrap();
    assert!(matches!(&node.node_type, NodeType::File { entry: _ }));
    let entry = node.get_file_entry().unwrap();
    assert_eq!(entry.offset, 64);
    assert_eq!(entry.size, 4);
    assert_eq!(entry.state, FileState::Uncompressed);

    // one record was announced, and one file node stands in the tree
    let mut it = dat.registry.file_nodes();
    let mut count = 0;
    while it.next().is_some() {
        count += 1;
    }
    assert_eq!(count, 1);
}

#[test]
fn lookup_insensitive_to_case_and_separator() {
    let dat = DatFile::open(format1_fixture()).unwrap();

    let a = dat.registry.get("test.txt").unwrap();
    let b = dat.registry.get("TEST.TXT").unwrap();
    let c = dat.registry.get("Test.Txt").unwrap();
    assert_eq!(a.get_path(), b.get_path());
    assert_eq!(a.get_path(), c.get_path());

    let mut t = FileTree::new();
    t.insert("art\\sub.bin", FileEntry::default()).unwrap();
    let x = t.get("art/sub.bin").unwrap();
    let y = t.get("ART\\SUB.BIN").unwrap();
    assert_eq!(x.get_path(), y.get_path());
}

#[test]
fn root_lookup_both_formats() {
    let dat1 = DatFile::open(format1_fixture()).unwrap();
    assert_eq!(dat1.registry.get(".").unwrap().get_name(), ".");
    assert_eq!(dat1.registry.get("./").unwrap().get_name(), ".");

    let dat2 = DatFile::open(format2_fixture(2)).unwrap();
    assert_eq!(dat2.registry.get(".").unwrap().get_name(), ".");
    assert_eq!(dat2.registry.get("./").unwrap().get_name(), ".");
}

fn push_le_u32(out: &mut Vec<u8>, v: u32) {
    out.extend_from_slice(&v.to_le_bytes());
}

/// A format-2 archive whose tree table holds one whole record for the
/// file `a` and then runs out, while `file_count` claims more.
fn format2_fixture(file_count: u32) -> Vec<u8> {
    let mut table = Vec::new();
    push_le_u32(&mut table, 1); // name length
    table.push(b'a');
    table.push(0); // uncompressed
    push_le_u32(&mut table, 4); // real size
    push_le_u32(&mut table, 0); // packed size
    push_le_u32(&mut table, 0); // offset
    push_le_u32(&mut table, 5); // a truncated second record
    let tree_size = table.len() as u32;

    let mut d = vec![0u8; 12]; // leading bytes that classify as format 2
    push_le_u32(&mut d, file_count); // file count, at tree start - 4
    let start = d.len() as u32;
    d.extend_from_slice(&table);
    push_le_u32(&mut d, tree_size);
    push_le_u32(&mut d, start + tree_size + 4); // data size
    d
}

#[test]
fn format2_truncated_table() {
    let dat = DatFile::open(format2_fixture(2)).unwrap();
    assert_eq!(*dat.get_version(), Version::Dat2);

    let mut it = dat.registry.file_nodes();
    let mut rows = Vec::new();
    while let Some(row) = it.next() {
        rows.push(row);
    }
    assert_eq!(rows.len(), 1);
    assert_eq!(rows[0].0, "a");
    assert_eq!(rows[0].2.size, 4);
}

#[test]
fn open_rejects_short_data() {
    match DatFile::open(vec![1, 2, 3]) {
        Err(e) => assert_eq!(e, DatError::ReadError),
        Ok(_) => panic!("short data must not open"),
    }
}

#[test]
fn open_rejects_bad_name_encoding() {
    let mut d = format1_fixture();
    // corrupt the directory name byte into invalid UTF-8
    d[17] = 0xFF;
    match DatFile::open(d) {
        Err(e) => assert_eq!(e, DatError::ReadError),
        Ok(_) => panic!("an invalid name must not open"),
    }
}

#[test]
fn insert_through_file_fails() {
    let mut t = FileTree::new();
    t.insert("a", FileEntry::default()).unwrap();
    assert_eq!(
        t.insert("a/b", FileEntry::default()),
        Err(DatError::TreeNodeError)
    );
}

#[test]
fn insertion_order_does_not_matter() {
    let entry1 = FileEntry { offset: 1, size: 1, state: FileState::Uncompressed };
    let entry2 = FileEntry { offset: 2, size: 2, state: FileState::Uncompressed };
    let entry3 = FileEntry { offset: 3, size: 3, state: FileState::Uncompressed };
    let pairs = [
        ("zeta/one", entry1),
        ("zeta/two", entry2),
        ("alpha", entry3),
    ];

    let mut forward = FileTree::new();
    for (p, e) in pairs.iter() {
        forward.insert_unsorted(p, *e).unwrap();
    }
    forward.sort().unwrap();

    let mut backward = FileTree::new();
    for (p, e) in pairs.iter().rev() {
        backward.insert_unsorted(p, *e).unwrap();
    }
    backward.sort().unwrap();

    let mut fwd = forward.file_nodes();
    let mut bwd = backward.file_nodes();
    loop {
        let a = fwd.next();
        let b = bwd.next();
        assert_eq!(a, b);
        if a.is_none() {
            break;
        }
    }
}

/// A format-2 archive with one zlib-compressed entry, built with the
/// same encoder family the decoder relies on.
#[test]
fn format2_unpack_compressed() {
    let payload = b"the quick brown fox jumps over the lazy dog".to_vec();
    let mut enc = flate2::write::ZlibEncoder::new(Vec::new(), flate2::Compression::default());
    enc.write_all(&payload).unwrap();
    let packed = enc.finish().unwrap();

    let mut d = vec![0u8; 12];
    let offset = d.len() as u32;
    d.extend_from_slice(&packed);

    let mut table = Vec::new();
    push_le_u32(&mut table, 1);
    table.push(b'x');
    table.push(1); // compressed
    push_le_u32(&mut table, payload.len() as u32);
    push_le_u32(&mut table, packed.len() as u32);
    push_le_u32(&mut table, offset);
    let tree_size = table.len() as u32;

    push_le_u32(&mut d, 1); // file count
    let start = d.len() as u32;
    d.extend_from_slice(&table);
    push_le_u32(&mut d, tree_size);
    push_le_u32(&mut d, start + tree_size + 4);

    let dat = DatFile::open(d).unwrap();
    let node = dat.registry.get("x").unwrap();
    let entry = *node.get_file_entry().unwrap();
    assert_eq!(entry.state, FileState::Compressed { size: packed.len() });

    let raw = dat.get_entry_data(&entry).unwrap();
    assert_eq!(raw, packed);

    let out = dat.unpack_file(&entry).unwrap();
    assert_eq!(out, payload);
    assert_ne!(out, raw);
}

#[test]
fn format2_unpack_corrupt_compressed() {
    let mut d = vec![0u8; 12];
    let offset = d.len() as u32;
    d.extend_from_slice(&[0xAA, 0xBB, 0xCC, 0xDD]); // not a zlib stream

    let mut table = Vec::new();
    push_le_u32(&mut table, 1);
    table.push(b'x');
    table.push(1);
    push_le_u32(&mut table, 8);
    push_le_u32(&mut table, 4);
    push_le_u32(&mut table, offset);
    let tree_size = table.len() as u32;

    push_le_u32(&mut d, 1);
    let start = d.len() as u32;
    d.extend_from_slice(&table);
    push_le_u32(&mut d, tree_size);
    push_le_u32(&mut d, start + tree_size + 4);

    let dat = DatFile::open(d).unwrap();
    let entry = *dat.registry.get("x").unwrap().get_file_entry().unwrap();
    assert_eq!(dat.unpack_file(&entry), Err(DatError::LZSSError));
}

#[test]
fn format1_unpack_lzss_entry() {
    let (packed, unpacked) = lzss_fixture();

    // a legacy archive with one compressed record and its payload
    let mut d = Vec::new();
    push_be_i32(&mut d, 1);
    push_be_i32(&mut d, 0x0A);
    push_be_i32(&mut d, 0);
    push_be_i32(&mut d, 0);
    d.push(1);
    d.push(b'.');
    push_be_i32(&mut d, 1);
    push_be_i32(&mut d, 0);
    push_be_i32(&mut d, 0);
    push_be_i32(&mut d, 0);
    d.push(6);
    d.extend_from_slice(b"PACKED");
    push_be_i32(&mut d, 0);
    let offset = (d.len() + 12) as i32;
    push_be_i32(&mut d, offset);
    push_be_i32(&mut d, unpacked.len() as i32);
    push_be_i32(&mut d, packed.len() as i32);
    d.extend_from_slice(&packed);

    let dat = DatFile::open(d).unwrap();
    let entry = *dat.registry.get("packed").unwrap().get_file_entry().unwrap();
    assert_eq!(entry.state, FileState::Compressed { size: packed.len() });
    assert_eq!(dat.unpack_file(&entry).unwrap(), unpacked);
}

#[test]
fn error_messages() {
    assert_eq!(DatError::InvalidSig.message(), "Invalid Signature");
    assert_eq!(DatError::ReadError.message(), "Error reading file");
    assert_eq!(DatError::LZSSError.message(), "Error unpacking LZSS");
    assert_eq!(DatError::TreeError.message(), "Error creating tree");
    assert_eq!(DatError::TreeNodeError.message(), "Incorrect Node type");
}
