use sgit::objects::{
    hash_object, ls_tree_entry, object_dir, object_file, tree_mode_name, write_tree, Tree,
    TreeEntry, TreeListing,
};
use sgit::index::DecodeError;

fn entry(mode: [u8; 6], path: &str, fill: u8) -> TreeEntry {
    TreeEntry { mode, path: path.to_string(), sha1: [fill; 20] }
}

#[test]
fn hash_object_hello_world() {
    assert_eq!(hash_object(b"hello world"), "2aae6c35c94fcfb415dbe95f408b9ce91ee846ed");
}

#[test]
fn hash_object_empty() {
    assert_eq!(hash_object(b""), "da39a3ee5e6b4b0d3255bfef95601890afd80709");
}

#[test]
fn object_locations() {
    let h = "2aae6c35c94fcfb415dbe95f408b9ce91ee846ed";
    assert_eq!(object_dir(h), "sgit/objects/2a");
    assert_eq!(object_file(h), "sgit/objects/2a/ae6c35c94fcfb415dbe95f408b9ce91ee846ed");
    assert_eq!(object_file("ab"), "sgit/objects/ab/");
}

#[test]
fn tree_entry_serialize_layout() {
    let e = entry([1, 0, 0, 6, 4, 4], "file.txt", 7);
    let bytes = e.serialize();
    let mut expected = vec![1, 0, 0, 6, 4, 4, b' '];
    expected.extend_from_slice(b"file.txt");
    expected.push(0);
    expected.extend_from_slice(&[7; 20]);
    assert_eq!(bytes, expected);
}

#[test]
fn tree_entry_roundtrip() {
    let e = entry([1, 0, 0, 6, 4, 4], "file.txt", 7);
    assert_eq!(TreeEntry::deserialize(&e.serialize()), Some(e));
}

#[test]
fn tree_entry_short_input() {
    assert_eq!(TreeEntry::deserialize(&[1u8; 28]), None);
    let e = entry([1, 0, 0, 6, 4, 4], "", 7);
    assert_eq!(TreeEntry::deserialize(&e.serialize()), None);
}

#[test]
fn tree_serialize_concatenates() {
    let a = entry([1, 0, 0, 6, 4, 4], "a", 1);
    let b = entry([0, 4, 0, 0, 0, 0], "b", 2);
    let t = Tree { entries: vec![a.clone(), b.clone()] };
    let mut out = vec![];
    t.serialize(&mut out);
    let mut expected = a.serialize();
    expected.extend(b.serialize());
    assert_eq!(out, expected);
}

#[test]
fn tree_deserialize_single_entry() {
    let a = entry([1, 0, 0, 6, 4, 4], "a", 1);
    let t = Tree::deserialize(&a.serialize()).unwrap();
    assert_eq!(t.entries, vec![a]);
}

#[test]
fn tree_deserialize_format_bytes() {
    let mut data = b"100644 a\0".to_vec();
    data.extend_from_slice(&[0x11; 20]);
    let t = Tree::deserialize(&data).unwrap();
    assert_eq!(t.entries, vec![TreeEntry { mode: *b"100644", path: "a".to_string(), sha1: [0x11; 20] }]);
}

#[test]
fn tree_deserialize_errors() {
    assert!(matches!(Tree::deserialize(&[1, 2, 3, 4, 5, 6]), Err(DecodeError::UnexpectedEof)));
    assert!(matches!(Tree::deserialize(&[1, 2, 3, 4, 5, 6, 7, 8]), Err(DecodeError::UnexpectedEof)));
    let mut data = vec![1, 0, 0, 6, 4, 4, b' ', b'x', 0];
    data.extend_from_slice(&[3; 19]);
    assert!(matches!(Tree::deserialize(&data), Err(DecodeError::UnexpectedEof)));
    let a = entry([1, 0, 0, 6, 4, 4], "a", 1);
    let mut data = a.serialize();
    data.push(0);
    assert!(matches!(Tree::deserialize(&data), Err(DecodeError::UnexpectedEof)));
}

#[test]
fn tree_deserialize_empty_input_is_end_of_input() {
    assert!(matches!(Tree::deserialize(&[]), Err(DecodeError::UnexpectedEof)));
}

#[test]
fn tree_serialize_then_deserialize_reads_back() {
    let a = entry([1, 0, 0, 6, 4, 4], "a", 0);
    let b = entry([0, 4, 0, 0, 0, 0], "sub/dir", 2);
    let c = entry([1, 0, 0, 6, 4, 4], "", 3);
    let t = Tree { entries: vec![a, b, c] };
    let mut out = vec![];
    t.serialize(&mut out);
    assert_eq!(Tree::deserialize(&out).unwrap(), t);
}

#[test]
fn tree_mode_names() {
    assert_eq!(tree_mode_name(&[0, 4, 0, 0, 0, 0]), "tree");
    assert_eq!(tree_mode_name(&[1, 0, 0, 6, 4, 4]), "blob");
    assert_eq!(tree_mode_name(&[1, 2, 0, 0, 0, 0]), "blob");
    assert_eq!(tree_mode_name(&[1, 6, 0, 0, 0, 0]), "commit");
    assert_eq!(tree_mode_name(&[4, 0, 0, 0, 0, 0]), "");
}

#[test]
fn ls_tree_entry_lines() {
    let e = entry([1, 0, 0, 6, 4, 4], "notes.md", 9);
    match ls_tree_entry(&e) {
        TreeListing::Line(s) => assert_eq!(
            s,
            "[1, 0, 0, 6, 4, 4] blob [9, 9, 9, 9, 9, 9, 9, 9, 9, 9, 9, 9, 9, 9, 9, 9, 9, 9, 9, 9] notes.md"
        ),
        TreeListing::Subtree(_) => panic!("not a subtree"),
    }
    let u = entry([7, 7, 0, 0, 0, 0], "x", 0);
    match ls_tree_entry(&u) {
        TreeListing::Line(s) => assert_eq!(
            s,
            "[7, 7, 0, 0, 0, 0]  [0, 0, 0, 0, 0, 0, 0, 0, 0, 0, 0, 0, 0, 0, 0, 0, 0, 0, 0, 0] x"
        ),
        TreeListing::Subtree(_) => panic!("not a subtree"),
    }
    let d = entry([0, 4, 0, 0, 0, 0], "sub/dir", 9);
    match ls_tree_entry(&d) {
        TreeListing::Subtree(p) => assert_eq!(p, "sub/dir"),
        TreeListing::Line(_) => panic!("a subtree"),
    }
}

#[test]
fn write_tree_does_nothing() {
    write_tree();
}

#[test]
fn tree_entry_reads_format_bytes() {
    let mut data = b"100644 a\0".to_vec();
    data.extend_from_slice(&[0x11; 20]);
    assert_eq!(TreeEntry::deserialize(&data), Some(TreeEntry { mode: *b"100644", path: "a".to_string(), sha1: [0x11; 20] }));
}

#[test]
fn tree_entry_with_zero_digest_reads_back() {
    let mut data = b"100644 a\0".to_vec();
    data.extend_from_slice(&[0; 20]);
    assert_eq!(TreeEntry::deserialize(&data), Some(TreeEntry { mode: *b"100644", path: "a".to_string(), sha1: [0; 20] }));
    let z = entry([1, 0, 0, 6, 4, 4], "file.txt", 0);
    assert_eq!(TreeEntry::deserialize(&z.serialize()), Some(z));
}

#[test]
fn tree_entry_malformed_inputs() {
    assert_eq!(TreeEntry::deserialize(&[1u8; 40]), None);
    let mut data = b"100644 a\0".to_vec();
    data.extend_from_slice(&[0x11; 19]);
    data.extend_from_slice(&[1; 2]);
    data[8] = 1;
    assert_eq!(TreeEntry::deserialize(&data), None);
}
