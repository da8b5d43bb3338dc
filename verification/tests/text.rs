use firmware_unpack::summary::copy_field;
use firmware_unpack::steps::{copy_name, copy_place, folder_in, Folder, FolderKind};
use firmware_unpack::text::{
    ends_with, find_last, matches_at, read_be32, read_le16, slice_text, strip_quotes_of,
    text_behind,
};

#[test]
fn test_matches_at_offsets() {
    let data = b"abcabc";
    assert!(matches_at(data, b"abc", 0));
    assert!(matches_at(data, b"abc", 3));
    assert!(!matches_at(data, b"abc", 1));
    assert!(!matches_at(data, b"abc", 4));
    assert!(matches_at(data, b"", 6));
    assert!(!matches_at(data, b"", 7));
    assert!(!matches_at(data, b"abcabca", 0));
    assert!(!matches_at(data, b"c", usize::MAX));
}

#[test]
fn test_ends_with_suffix() {
    assert!(ends_with(b"config.json", b".json"));
    assert!(!ends_with(b"config.json5", b".json"));
    assert!(!ends_with(b"json", b".json"));
    assert!(ends_with(b".json", b".json"));
    assert!(ends_with(b"x", b""));
}

#[test]
fn test_find_last_byte() {
    assert_eq!(find_last(b"a/b/c", b'/'), Some(3));
    assert_eq!(find_last(b"/", b'/'), Some(0));
    assert_eq!(find_last(b"abc", b'/'), None);
    assert_eq!(find_last(b"", b'/'), None);
    assert_eq!(find_last(b"x.tar.gz", b'.'), Some(5));
}

#[test]
fn test_read_be32_value() {
    assert_eq!(read_be32(&[0x12, 0x34, 0x56, 0x78], 0), 0x1234_5678);
    assert_eq!(read_be32(&[9, 0xff, 0xff, 0xff, 0xff], 1), u32::MAX);
    assert_eq!(read_be32(&[0, 0, 1, 0], 0), 256);
}

#[test]
fn test_read_le16_value() {
    assert_eq!(read_le16(&[0x34, 0x12], 0), 0x1234);
    assert_eq!(read_le16(&[7, 0xff, 0xff], 1), u16::MAX);
    assert_eq!(read_le16(&[5, 0], 0), 5);
}

#[test]
fn test_strip_quotes_at_both_ends() {
    assert_eq!(strip_quotes_of("\"name\""), "name");
    assert_eq!(strip_quotes_of("\"\"\"deep\"\""), "deep");
    assert_eq!(strip_quotes_of("in\"side"), "in\"side");
    assert_eq!(strip_quotes_of("\"\"\""), "");
    assert_eq!(strip_quotes_of(""), "");
    assert_eq!(strip_quotes_of("\"\u{e9}t\u{e9}\""), "\u{e9}t\u{e9}");
    assert_eq!(strip_quotes_of("plain"), "plain".trim_matches('"'));
}

#[test]
fn test_slice_text_between_characters() {
    let text = "a\u{e9}b\u{20ac}c";
    assert_eq!(slice_text(text, 0, text.len()), text);
    assert_eq!(slice_text(text, 1, 3), "\u{e9}");
    assert_eq!(slice_text(text, 4, 7), "\u{20ac}");
    assert_eq!(slice_text(text, 3, 3), "");
    assert_eq!(text_behind("name.tar.gz", 8), "gz");
    assert_eq!(text_behind("x.", 1), "");
    assert_eq!(text_behind(".\u{fc}", 0), "\u{fc}");
}

#[test]
fn test_places_are_copied_and_extended() {
    let root: Vec<Folder> = Vec::new();
    let first = folder_in(&root, FolderKind::Container, Some("fw.bin"));
    let second = folder_in(&first, FolderKind::Archive, None);
    assert_eq!(first.len(), 1);
    assert_eq!(second.len(), 2);
    assert_eq!(second[0].kind, FolderKind::Container);
    assert_eq!(second[0].name.as_deref(), Some("fw.bin"));
    assert_eq!(second[1].kind, FolderKind::Archive);
    assert_eq!(second[1].name, None);
    let copy = copy_place(&second);
    assert_eq!(copy.len(), 2);
    assert_eq!(copy[0].name.as_deref(), Some("fw.bin"));
    assert_eq!(copy[1].kind, FolderKind::Archive);
    assert_eq!(copy_name(Some("n")), Some("n".to_string()));
    assert_eq!(copy_name(None), None);
    assert_eq!(copy_field(Some(&[1, 2, 3, 4])), Some([1, 2, 3, 4]));
    assert_eq!(copy_field(None), None);
}
