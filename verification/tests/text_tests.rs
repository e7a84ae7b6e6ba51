use sgit::text::{ascii_string, decimal_list_string, hex_lower_string};
use sgit::staging::{add, commit, ls_files, rm};

#[test]
fn decimal_lists() {
    assert_eq!(decimal_list_string(&[]), "[]");
    assert_eq!(decimal_list_string(&[0]), "[0]");
    assert_eq!(decimal_list_string(&[0, 7, 10, 99, 100, 255]), "[0, 7, 10, 99, 100, 255]");
}

#[test]
fn hex_strings() {
    assert_eq!(hex_lower_string(&[]), "");
    assert_eq!(hex_lower_string(&[10, 20, 30]), "0a141e");
    assert_eq!(hex_lower_string(&[0x00, 0x9f, 0xff]), "009fff");
}

#[test]
fn ascii_strings() {
    assert_eq!(ascii_string(b"sgit"), "sgit");
    assert_eq!(ascii_string(b""), "");
}

#[test]
fn staging_placeholders() {
    add();
    rm();
    commit();
    ls_files();
}
