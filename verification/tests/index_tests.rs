use sgit::index::{index_mode_name, DecodeError, GitIndex, GitIndexEntry};

fn sample_entry(name: &str) -> GitIndexEntry {
    GitIndexEntry {
        ctime_s: 0x01020304,
        ctime_n: 5,
        mtime_n: 7,
        mtime_s: 6,
        dev: 8,
        ino: 9,
        mode: 0x000A_0000,
        uid: 1000,
        gid: 1001,
        fsize: 1024,
        sha1: [0xab; 20],
        flags: 0x0102,
        name: name.to_string(),
    }
}

fn expected_entry_bytes(name: &str) -> Vec<u8> {
    let mut v = vec![1, 2, 3, 4, 0, 0, 0, 5, 0, 0, 0, 6, 0, 0, 0, 7];
    v.extend_from_slice(&[0, 0, 0, 8, 0, 0, 0, 9, 0, 0x0a, 0, 0]);
    v.extend_from_slice(&[0, 0, 0x03, 0xe8, 0, 0, 0x03, 0xe9, 0, 0, 0x04, 0]);
    v.extend_from_slice(&[0xab; 20]);
    v.extend_from_slice(&[1, 2]);
    v.extend_from_slice(&(name.len() as u16).to_be_bytes());
    v.extend_from_slice(name.as_bytes());
    v
}

#[test]
fn entry_serialize_layout() {
    let e = sample_entry("a.txt");
    let mut out = vec![0xff];
    e.serialize(&mut out);
    let mut expected = vec![0xff];
    expected.extend(expected_entry_bytes("a.txt"));
    assert_eq!(out, expected);
    assert_eq!(out.len(), 1 + 64 + 5);
}

#[test]
fn entry_serialize_non_ascii_name_uses_byte_length() {
    let e = sample_entry("é");
    let mut out = Vec::new();
    e.serialize(&mut out);
    assert_eq!(&out[62..64], &[0, 2]);
    assert_eq!(&out[64..], "é".as_bytes());
}

#[test]
fn entry_deserialize_skips_two_leading_bytes() {
    let e = sample_entry("dir/file.rs");
    let mut data = vec![0x55, 0x66];
    e.serialize(&mut data);
    data.extend_from_slice(&[9, 9, 9]);
    let (back, used) = GitIndexEntry::deserialize(&data).unwrap();
    assert_eq!(back, e);
    assert_eq!(used, 66 + 11);
}

#[test]
fn entry_deserialize_without_prefix_misreads() {
    let e = sample_entry("x");
    let mut data = Vec::new();
    e.serialize(&mut data);
    // 65 bytes: too short once the two leading bytes are skipped
    assert!(matches!(GitIndexEntry::deserialize(&data), Err(DecodeError::UnexpectedEof)));
}

#[test]
fn entry_deserialize_short_input() {
    assert!(matches!(GitIndexEntry::deserialize(&[0u8; 65]), Err(DecodeError::UnexpectedEof)));
    let mut data = vec![0u8; 66];
    data[65] = 3; // name of 3 bytes announced, none present
    assert!(matches!(GitIndexEntry::deserialize(&data), Err(DecodeError::UnexpectedEof)));
    data.extend_from_slice(b"abc");
    let (e, used) = GitIndexEntry::deserialize(&data).unwrap();
    assert_eq!(e.name, "abc");
    assert_eq!(used, 69);
}

#[test]
fn entry_deserialize_lossy_name() {
    let mut data = vec![0u8; 66];
    data[65] = 2;
    data.extend_from_slice(&[0x61, 0xff]);
    let (e, _) = GitIndexEntry::deserialize(&data).unwrap();
    assert_eq!(e.name, "a\u{FFFD}");
}

#[test]
fn index_add_remove() {
    let mut idx = GitIndex::new();
    idx.add_entry("a".to_string(), sample_entry("a"));
    idx.add_entry("b".to_string(), sample_entry("b"));
    let mut replaced = sample_entry("a2");
    replaced.fsize = 1;
    idx.add_entry("a".to_string(), replaced.clone());
    assert_eq!(idx.remove_entry("a"), Some(replaced));
    assert_eq!(idx.remove_entry("a"), None);
    assert_eq!(idx.remove_entry("c"), None);
    assert_eq!(idx.remove_entry("b"), Some(sample_entry("b")));
}

#[test]
fn index_serialize_layout() {
    let mut idx = GitIndex::new();
    idx.add_entry("a".to_string(), sample_entry("a"));
    idx.add_entry("bc".to_string(), sample_entry("bc"));
    let mut out = Vec::new();
    idx.serialize(&mut out);
    let mut expected = vec![0, 1, b'a'];
    expected.extend(expected_entry_bytes("a"));
    expected.extend_from_slice(&[0, 2, b'b', b'c']);
    expected.extend(expected_entry_bytes("bc"));
    assert_eq!(out, expected);
}

#[test]
fn index_serialize_empty() {
    let idx = GitIndex::new();
    let mut out = vec![7];
    idx.serialize(&mut out);
    assert_eq!(out, vec![7]);
}

#[test]
fn index_deserialize_readable_records() {
    let mut data = Vec::new();
    for (key, ename) in [("a", "a"), ("b", "b"), ("a", "z")] {
        data.extend_from_slice(&(key.len() as u16).to_be_bytes());
        data.extend_from_slice(key.as_bytes());
        data.extend_from_slice(&[0, 0]);
        sample_entry(ename).serialize(&mut data);
    }
    let mut idx = GitIndex::deserialize(&data).unwrap();
    assert_eq!(idx.remove_entry("a"), Some(sample_entry("z")));
    assert_eq!(idx.remove_entry("b"), Some(sample_entry("b")));
    assert_eq!(idx.remove_entry("a"), None);
}

#[test]
fn index_deserialize_small_inputs() {
    let mut idx = GitIndex::deserialize(&[]).unwrap();
    assert_eq!(idx.remove_entry(""), None);
    assert!(GitIndex::deserialize(&[5]).is_ok());
    assert!(matches!(GitIndex::deserialize(&[0, 3, b'a']), Err(DecodeError::UnexpectedEof)));
    assert!(matches!(GitIndex::deserialize(&[0, 0, 1, 2, 3]), Err(DecodeError::UnexpectedEof)));
}

#[test]
fn index_serialize_then_deserialize_fails_for_one_zero_entry() {
    let zero = GitIndexEntry {
        ctime_s: 0,
        ctime_n: 0,
        mtime_n: 0,
        mtime_s: 0,
        dev: 0,
        ino: 0,
        mode: 0,
        uid: 0,
        gid: 0,
        fsize: 0,
        sha1: [0; 20],
        flags: 0,
        name: String::new(),
    };
    let mut idx = GitIndex::new();
    idx.add_entry(String::new(), zero);
    let mut out = Vec::new();
    idx.serialize(&mut out);
    assert_eq!(out, vec![0u8; 66]);
    assert!(matches!(GitIndex::deserialize(&out), Err(DecodeError::UnexpectedEof)));
}

#[test]
fn mode_names() {
    assert_eq!(index_mode_name(4 << 16), "tree");
    assert_eq!(index_mode_name(10 << 16), "blob");
    assert_eq!(index_mode_name(12 << 16), "blob");
    assert_eq!(index_mode_name(16 << 16), "commit");
    assert_eq!(index_mode_name(0o100644), "_");
    assert_eq!(index_mode_name(0xffff_ffff), "_");
}

#[test]
fn ls_files_lines() {
    let mut idx = GitIndex::new();
    let mut e = sample_entry("src/main.rs");
    e.sha1 = [0; 20];
    e.sha1[0] = 255;
    e.sha1[19] = 42;
    idx.add_entry("src/main.rs".to_string(), e);
    let mut u = sample_entry("odd");
    u.mode = 0o100644;
    u.sha1 = [1; 20];
    idx.add_entry("odd".to_string(), u);
    let lines = idx.ls_files();
    assert_eq!(lines.len(), 2);
    assert!(lines[0].mode_known);
    assert_eq!(
        lines[0].line,
        "blob [255, 0, 0, 0, 0, 0, 0, 0, 0, 0, 0, 0, 0, 0, 0, 0, 0, 0, 0, 42] src/main.rs"
    );
    assert!(!lines[1].mode_known);
    assert_eq!(
        lines[1].line,
        "_ [1, 1, 1, 1, 1, 1, 1, 1, 1, 1, 1, 1, 1, 1, 1, 1, 1, 1, 1, 1] odd"
    );
}

#[test]
fn entry_long_name_length_is_cut_to_16_bits() {
    let long = "a".repeat(65536 + 3);
    let e = sample_entry(&long);
    let mut out = Vec::new();
    e.serialize(&mut out);
    assert_eq!(&out[62..64], &[0, 3]);
    assert_eq!(out.len(), 64 + 65539);
}

#[test]
fn index_deserialize_any_skipped_bytes_and_trailing_byte() {
    let mut data = Vec::new();
    for (key, pad) in [("k1", [9u8, 8u8]), ("k2", [0xff, 0x01])] {
        data.extend_from_slice(&(key.len() as u16).to_be_bytes());
        data.extend_from_slice(key.as_bytes());
        data.extend_from_slice(&pad);
        sample_entry(key).serialize(&mut data);
    }
    data.push(0x42);
    let mut idx = GitIndex::deserialize(&data).unwrap();
    assert_eq!(idx.remove_entry("k1"), Some(sample_entry("k1")));
    assert_eq!(idx.remove_entry("k2"), Some(sample_entry("k2")));
}
