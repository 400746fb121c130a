use uncbv::error::Error;
use uncbv::filename::{
    bytes_to_filename, filename, is_not_zero, is_safe_name, replace_backslash_by_slash, NAME_SIZE,
};

fn field(name: &[u8]) -> Vec<u8> {
    let mut bytes = name.to_vec();
    bytes.resize(NAME_SIZE, 0);
    bytes
}

#[test]
fn backslashes_become_slashes() {
    let mut name = String::from("dir\\sub\\file.txt");
    replace_backslash_by_slash(&mut name);
    assert_eq!(name, "dir/sub/file.txt");
}

#[test]
fn a_name_without_backslash_is_kept() {
    let mut name = String::from("a/b é€.txt");
    replace_backslash_by_slash(&mut name);
    assert_eq!(name, "a/b é€.txt");
    let mut empty = String::new();
    replace_backslash_by_slash(&mut empty);
    assert_eq!(empty, "");
}

#[test]
fn only_backslashes() {
    let mut name = String::from("\\\\\\");
    replace_backslash_by_slash(&mut name);
    assert_eq!(name, "///");
}

#[test]
fn ascii_bytes_stand_for_themselves() {
    assert_eq!(bytes_to_filename(b"twic\\games.cbh"), Some(String::from("twic/games.cbh")));
    assert_eq!(bytes_to_filename(b""), Some(String::new()));
}

#[test]
fn high_bytes_are_windows_1252() {
    assert_eq!(bytes_to_filename(&[0xE9, b't', 0xE9]), Some(String::from("été")));
    assert_eq!(bytes_to_filename(&[0x80]), Some(String::from("€")));
    assert_eq!(bytes_to_filename(&[0x9C, b'\\', 0xFF]), Some(String::from("œ/ÿ")));
}

#[test]
fn a_decoded_name_has_one_character_for_each_byte() {
    let bytes: Vec<u8> = (1..=255).collect();
    let name = bytes_to_filename(&bytes).unwrap();
    assert_eq!(name.chars().count(), 255);
    assert!(!name.contains('\\'));
    for (i, c) in name.chars().enumerate().take(127) {
        let expected = if bytes[i] == b'\\' { '/' } else { bytes[i] as char };
        assert_eq!(c, expected);
    }
}

#[test]
fn the_name_ends_at_the_first_zero() {
    let mut input = field(b"abc\\def");
    input[10] = b'x';
    input.extend_from_slice(&[1, 2, 3]);
    let (rest, name) = filename(&input).unwrap();
    assert_eq!(name, "abc/def");
    assert_eq!(rest, &[1, 2, 3]);
}

#[test]
fn a_name_without_zero_fills_the_field() {
    let mut input = vec![b'n'; NAME_SIZE];
    input.extend_from_slice(&[b'n', 0]);
    let (rest, name) = filename(&input).unwrap();
    assert_eq!(name, "n".repeat(132));
    assert_eq!(rest, &[b'n', 0]);
}

#[test]
fn an_empty_name() {
    let input = field(b"");
    let (rest, name) = filename(&input).unwrap();
    assert_eq!(name, "");
    assert!(rest.is_empty());
}

#[test]
fn a_name_field_cut_short() {
    let input = vec![b'a'; NAME_SIZE - 1];
    assert_eq!(filename(&input).err(), Some(Error::MalformedContainer));
    assert_eq!(filename(&[]).err(), Some(Error::MalformedContainer));
}

#[test]
fn zero_is_not_not_zero() {
    assert!(!is_not_zero(0));
    assert!(is_not_zero(1));
    assert!(is_not_zero(255));
}

#[test]
fn safe_names() {
    assert!(is_safe_name("file.txt"));
    assert!(is_safe_name("dir/sub/file.txt"));
    assert!(is_safe_name(""));
    assert!(is_safe_name("."));
    assert!(is_safe_name("a.b.c"));
    assert!(is_safe_name("é/€"));
}

#[test]
fn names_with_two_dots_are_unsafe() {
    assert!(!is_safe_name(".."));
    assert!(!is_safe_name("../file"));
    assert!(!is_safe_name("dir/../../file"));
    assert!(!is_safe_name("dir/.."));
    assert!(!is_safe_name("a..b"));
    assert!(!is_safe_name("é..."));
}

#[test]
fn absolute_names_are_unsafe() {
    assert!(!is_safe_name("/"));
    assert!(!is_safe_name("/etc/passwd"));
    assert!(!is_safe_name("C:/windows"));
    assert!(!is_safe_name("c:"));
    assert!(is_safe_name("ab:c"));
}
