use firmware_unpack::file_types::{detect_file_type as classify_buffer, FileType};
use firmware_unpack::parser::parse_file_entries as parse_entries;
use firmware_unpack::processor::{
    process_autel_container, process_file, process_member, process_zip, MAX_DEPTH,
};
use firmware_unpack::steps::{Folder, FolderKind, Remark, Step};
use std::io::{Cursor, Write};
use zip::write::SimpleFileOptions;
use zip::{CompressionMethod, ZipWriter};

fn container_with(name: &[u8], header: [u8; 4], meta: [u8; 4], declared: u32, payload: &[u8]) -> Vec<u8> {
    let mut buffer = Vec::new();
    buffer.extend_from_slice(b"\"<filetransfer>\"");
    buffer.extend_from_slice(b"\"<fileinfo>\"");
    buffer.extend_from_slice(&(name.len() as u32).to_be_bytes());
    buffer.extend_from_slice(&header);
    buffer.extend_from_slice(name);
    buffer.extend_from_slice(b"\"<filecontent>\"");
    buffer.extend_from_slice(&declared.to_be_bytes());
    buffer.extend_from_slice(&meta);
    buffer.extend_from_slice(payload);
    buffer
}

fn container(name: &str, content: &[u8]) -> Vec<u8> {
    container_with(
        name.as_bytes(),
        [0xfd, 0xce, 0x69, 0x48],
        [0x33, 0xa8, 0x3b, 0x1f],
        content.len() as u32,
        content,
    )
}

fn archive(members: &[(&str, &[u8])], method: CompressionMethod) -> Vec<u8> {
    let mut writer = ZipWriter::new(Cursor::new(Vec::new()));
    let options = SimpleFileOptions::default().compression_method(method);
    for (name, bytes) in members {
        if name.ends_with('/') {
            writer.add_directory(name.to_string(), options).unwrap();
        } else {
            writer.start_file(name.to_string(), options).unwrap();
            writer.write_all(bytes).unwrap();
        }
    }
    writer.finish().unwrap().into_inner()
}

fn is_enter(step: &Step, at_depth: usize, of_kind: FileType, named: Option<&str>, bytes: usize) -> bool {
    match step {
        Step::Enter { depth, kind, name, size } => {
            *depth == at_depth && *kind == of_kind && name.as_deref() == named && *size == bytes
        }
        _ => false,
    }
}

fn is_remark(step: &Step, at_depth: usize, what: Remark) -> bool {
    matches!(step, Step::Remark { depth, remark } if *depth == at_depth && *remark == what)
}

#[test]
fn test_round_trip_of_one_entry() {
    let buffer = container_with(b"motor.bin", [1, 2, 3, 4], [5, 6, 7, 8], 6, b"\x00\x01abcd");
    let entries = parse_entries(&buffer);
    assert_eq!(entries.len(), 1);
    assert_eq!(entries[0].filename, Some("motor.bin".to_string()));
    assert_eq!(entries[0].header_data, Some(&[1, 2, 3, 4]));
    assert_eq!(entries[0].content_meta, Some(&[5, 6, 7, 8]));
    assert_eq!(entries[0].content, b"\x00\x01abcd");
    assert_eq!(entries[0].content_length, 6);
    assert_eq!(entries[0].content_data_offset, 51 + 9);
    assert_eq!(entries[0].raw_content_data, &buffer[60..]);
}

#[test]
fn test_payload_with_format_tags_is_kept_whole() {
    let inner = container("inner.txt", b"nested");
    let mut payload = b"before".to_vec();
    payload.extend_from_slice(&inner);
    payload.extend_from_slice(b"\"<filecontent>\"after");
    let buffer = container("outer.bin", &payload);
    let entries = parse_entries(&buffer);
    assert_eq!(entries.len(), 1);
    assert_eq!(entries[0].content, payload.as_slice());
}

#[test]
fn test_declared_length_beyond_buffer_is_truncated() {
    let buffer = container_with(b"cut.bin", [0; 4], [9; 4], 1000, b"only these");
    let entries = parse_entries(&buffer);
    assert_eq!(entries.len(), 1);
    assert_eq!(entries[0].content, b"only these");
    assert_eq!(entries[0].content_length, 1000);
    assert_eq!(entries[0].content_meta, Some(&[9; 4]));
}

#[test]
fn test_content_block_shorter_than_framing() {
    let mut buffer = Vec::new();
    buffer.extend_from_slice(b"\"<filetransfer>\"\"<fileinfo>\"");
    buffer.extend_from_slice(&[0, 0, 0, 1, 7, 7, 7, 7, b'x']);
    buffer.extend_from_slice(b"\"<filecontent>\"");
    buffer.extend_from_slice(&[0, 0, 0]);
    let entries = parse_entries(&buffer);
    assert_eq!(entries.len(), 1);
    assert_eq!(entries[0].filename, Some("x".to_string()));
    assert_eq!(entries[0].content_meta, None);
    assert_eq!(entries[0].content_length, 0);
    assert!(entries[0].content.is_empty());
    assert!(entries[0].raw_content_data.is_empty());
}

#[test]
fn test_name_longer_than_info_block() {
    let mut buffer = Vec::new();
    buffer.extend_from_slice(b"\"<filetransfer>\"\"<fileinfo>\"");
    buffer.extend_from_slice(&[0, 0, 0, 0x20, 1, 2, 3, 4]);
    buffer.extend_from_slice(b"test");
    buffer.extend_from_slice(b"\"<filecontent>\"");
    buffer.extend_from_slice(&[0, 0, 0, 2, 0, 0, 0, 0, b'o', b'k']);
    let entries = parse_entries(&buffer);
    assert_eq!(entries.len(), 1);
    assert_eq!(entries[0].filename, None);
    assert_eq!(entries[0].header_data, Some(&[1, 2, 3, 4]));
    assert_eq!(entries[0].content, b"ok");
}

#[test]
fn test_name_that_is_not_utf8() {
    let buffer = container_with(&[0xff, 0xfe], [1; 4], [2; 4], 1, b"z");
    let entries = parse_entries(&buffer);
    assert_eq!(entries.len(), 1);
    assert_eq!(entries[0].filename, None);
    assert_eq!(entries[0].header_data, Some(&[1; 4]));
}

#[test]
fn test_tags_out_of_order_are_passed_over() {
    let mut buffer = b"\"<fileinfo>\"\"<other>\"\"<filetransfer>\"\"<filecontent>\"".to_vec();
    buffer.extend_from_slice(&container("late.txt", b"found"));
    let entries = parse_entries(&buffer);
    assert_eq!(entries.len(), 1);
    assert_eq!(entries[0].filename, Some("late.txt".to_string()));
    assert_eq!(entries[0].content, b"found");
}

#[test]
fn test_config_entry_classifies_as_json() {
    let buffer = container("config.json", b"{\"test\": true}");
    let entries = parse_entries(&buffer);
    assert_eq!(entries.len(), 1);
    let kind = classify_buffer(entries[0].content, entries[0].filename.as_deref());
    assert_eq!(kind, FileType::Json);
}

#[test]
fn test_three_containers_in_order() {
    let mut buffer = container("one.txt", b"first");
    buffer.extend_from_slice(&container("two.bin", &[0, 1, 2]));
    buffer.extend_from_slice(&container("three.json", b"[3]"));
    let entries = parse_entries(&buffer);
    assert_eq!(entries.len(), 3);
    assert_eq!(entries[0].filename.as_deref(), Some("one.txt"));
    assert_eq!(entries[1].filename.as_deref(), Some("two.bin"));
    assert_eq!(entries[2].filename.as_deref(), Some("three.json"));
    assert_eq!(entries[0].content, b"first");
    assert_eq!(entries[1].content, &[0, 1, 2]);
    assert_eq!(entries[2].content, b"[3]");
}

#[test]
fn test_process_text_leaf() {
    let data = b"line one\nline two";
    let steps = process_file(data, Some("notes.txt"), None, 0);
    assert_eq!(steps.len(), 2);
    assert!(is_enter(&steps[0], 0, FileType::Text, Some("notes.txt"), 17));
    match &steps[1] {
        Step::Text { depth, lines, more } => {
            assert_eq!(*depth, 0);
            assert_eq!(lines, &vec!["line one".to_string(), "line two".to_string()]);
            assert_eq!(*more, 0);
        }
        other => panic!("unexpected step {:?}", other),
    }
}

#[test]
fn test_process_text_shows_five_lines() {
    let steps = process_file(b"1\n2\r\n3\n\n5\n6\n7\n", None, None, 0);
    match &steps[1] {
        Step::Text { lines, more, .. } => {
            assert_eq!(lines, &vec!["1", "2", "3", "", "5"]);
            assert_eq!(*more, 2);
        }
        other => panic!("unexpected step {:?}", other),
    }
}

#[test]
fn test_process_saves_where_output_is_given() {
    let root: Vec<Folder> = Vec::new();
    let steps = process_file(b"plain words", Some("a.txt"), Some(&root), 0);
    assert_eq!(steps.len(), 3);
    match &steps[1] {
        Step::Save { place, name, data } => {
            assert!(place.is_empty());
            assert_eq!(name, "a.txt");
            assert_eq!(data, b"plain words");
        }
        other => panic!("unexpected step {:?}", other),
    }
    let unnamed = process_file(b"plain words", None, Some(&root), 0);
    assert_eq!(unnamed.len(), 2);
    assert!(is_enter(&unnamed[0], 0, FileType::Text, None, 11));
}

#[test]
fn test_process_json_is_pretty_printed() {
    let steps = process_file(b"{\"b\":[1,2],\"a\":true}", Some("cfg.json"), None, 2);
    assert_eq!(steps.len(), 2);
    assert!(is_enter(&steps[0], 2, FileType::Json, Some("cfg.json"), 20));
    match &steps[1] {
        Step::Text { depth, lines, more } => {
            assert_eq!(*depth, 2);
            assert_eq!(lines, &vec!["{", "  \"a\": true,", "  \"b\": [", "    1,", "    2", "  ]", "}"]);
            assert_eq!(*more, 0);
        }
        other => panic!("unexpected step {:?}", other),
    }
}

#[test]
fn test_process_json_shows_twenty_lines() {
    let steps = process_file(b"[1,2,3,4,5,6,7,8,9,10,11,12,13,14,15,16,17,18,19,20,21]", None, None, 0);
    assert!(is_enter(&steps[0], 0, FileType::Json, None, 55));
    match &steps[1] {
        Step::Text { lines, more, .. } => {
            assert_eq!(lines.len(), 20);
            assert_eq!(lines[0], "[");
            assert_eq!(lines[1], "  1,");
            assert_eq!(lines[19], "  19,");
            assert_eq!(*more, 3);
        }
        other => panic!("unexpected step {:?}", other),
    }
}

#[test]
fn test_process_json_by_name_only() {
    let steps = process_file(b"not json at all", Some("broken.json"), None, 0);
    assert_eq!(steps.len(), 2);
    assert!(is_enter(&steps[0], 0, FileType::Json, Some("broken.json"), 15));
    assert!(is_remark(&steps[1], 0, Remark::InvalidJson));
    let binary = process_file(&[0xff, 0xfe, 0xfd, 0xfc], Some("raw.json"), None, 0);
    assert_eq!(binary.len(), 1);
    assert!(is_enter(&binary[0], 0, FileType::Json, Some("raw.json"), 4));
}

#[test]
fn test_process_gzip_is_kept() {
    let steps = process_file(&[0x1f, 0x8b, 8, 0, 0], Some("x.gz"), None, 1);
    assert_eq!(steps.len(), 2);
    assert!(is_enter(&steps[0], 1, FileType::Gzip, Some("x.gz"), 5));
    assert!(is_remark(&steps[1], 1, Remark::GzipKept));
}

#[test]
fn test_process_firmware_preview() {
    let mut data = vec![0x34, 0x12, 0xef, 0xbe];
    data.extend_from_slice(&[0xaa; 96]);
    let steps = process_file(&data, Some("gimbal.upg"), None, 0);
    assert_eq!(steps.len(), 3);
    assert!(is_enter(&steps[0], 0, FileType::UpgGimbal, Some("gimbal.upg"), 100));
    assert!(is_remark(&steps[1], 0, Remark::BinaryFirmware));
    match &steps[2] {
        Step::Hexdump { depth, rows, more } => {
            assert_eq!(*depth, 0);
            assert_eq!(rows.len(), 3);
            assert_eq!(rows[0].offset, 0);
            assert_eq!(rows[0].bytes, &data[..16]);
            assert_eq!(rows[0].text, "4...............");
            assert_eq!(rows[2].offset, 32);
            assert_eq!(rows[2].bytes, &data[32..48]);
            assert_eq!(*more, 52);
        }
        other => panic!("unexpected step {:?}", other),
    }
}

#[test]
fn test_process_unknown_preview_of_short_buffer() {
    let steps = process_file(&[0xde, 0xad], None, None, 0);
    assert_eq!(steps.len(), 3);
    assert!(is_enter(&steps[0], 0, FileType::Unknown, None, 2));
    assert!(is_remark(&steps[1], 0, Remark::UnknownFormat));
    match &steps[2] {
        Step::Hexdump { rows, more, .. } => {
            assert_eq!(rows.len(), 1);
            assert_eq!(rows[0].bytes, &[0xde, 0xad]);
            assert_eq!(rows[0].text, "..");
            assert_eq!(*more, 0);
        }
        other => panic!("unexpected step {:?}", other),
    }
}

#[test]
fn test_process_container_with_two_entries() {
    let mut data = container("a.txt", b"hello there");
    data.extend_from_slice(&container("B.TXT", &[0x02, 0xaa, 0x55, 0xaa, 1]));
    let root: Vec<Folder> = Vec::new();
    let steps = process_file(&data, Some("fw.bin"), Some(&root), 0);
    assert!(is_enter(&steps[0], 0, FileType::AutelContainer, Some("fw.bin"), data.len()));
    assert!(matches!(
        &steps[1],
        Step::Count { depth: 0, kind: FolderKind::Container, count: 2 }
    ));
    match &steps[2] {
        Step::MakeDir { place } => {
            assert_eq!(place.len(), 1);
            assert_eq!(place[0].kind, FolderKind::Container);
            assert_eq!(place[0].name.as_deref(), Some("fw.bin"));
        }
        other => panic!("unexpected step {:?}", other),
    }
    match &steps[3] {
        Step::Entry { depth, index, count, name, header, meta, size, declared } => {
            assert_eq!((*depth, *index, *count, *size, *declared), (0, 1, 2, 11, 11));
            assert_eq!(name.as_deref(), Some("a.txt"));
            assert_eq!(*header, Some([0xfd, 0xce, 0x69, 0x48]));
            assert_eq!(*meta, Some([0x33, 0xa8, 0x3b, 0x1f]));
        }
        other => panic!("unexpected step {:?}", other),
    }
    assert!(is_enter(&steps[4], 1, FileType::Text, Some("a.txt"), 11));
    match &steps[5] {
        Step::Save { place, name, data } => {
            assert_eq!(place.len(), 1);
            assert_eq!(name, "a.txt");
            assert_eq!(data, b"hello there");
        }
        other => panic!("unexpected step {:?}", other),
    }
    assert!(matches!(&steps[6], Step::Text { depth: 1, .. }));
    assert!(matches!(&steps[7], Step::Entry { index: 2, count: 2, size: 5, .. }));
    assert!(is_enter(&steps[8], 1, FileType::UpgBms, Some("B.TXT"), 5));
    assert!(matches!(&steps[9], Step::Save { .. }));
    assert!(is_remark(&steps[10], 1, Remark::BinaryFirmware));
    assert!(matches!(&steps[11], Step::Hexdump { depth: 1, more: 0, .. }));
    match &steps[12] {
        Step::Summary { depth, groups } => {
            assert_eq!(*depth, 0);
            assert_eq!(groups.len(), 1);
            assert_eq!(groups[0].header, Some([0xfd, 0xce, 0x69, 0x48]));
            assert_eq!(groups[0].meta, Some([0x33, 0xa8, 0x3b, 0x1f]));
            assert_eq!(groups[0].extensions.len(), 1);
            assert_eq!(groups[0].extensions[0].ext, "txt");
            assert_eq!(groups[0].extensions[0].count, 2);
        }
        other => panic!("unexpected step {:?}", other),
    }
    assert_eq!(steps.len(), 13);
}

#[test]
fn test_process_truncated_entry() {
    let data = container_with(b"cut.bin", [0; 4], [9; 4], 1000, b"only these");
    let steps = process_file(&data, None, None, 0);
    assert!(matches!(&steps[2], Step::Entry { index: 1, count: 1, size: 10, declared: 1000, .. }));
    assert!(is_enter(&steps[3], 1, FileType::Text, Some("cut.bin"), 10));
}

#[test]
fn test_process_container_without_entries() {
    let data = b"\"<filetransfer>\" and nothing else that counts";
    let steps = process_autel_container(data, Some("empty.bin"), None, 0);
    assert_eq!(steps.len(), 1);
    assert!(is_remark(&steps[0], 0, Remark::NoEntries));
}

#[test]
fn test_process_nested_container() {
    let inner = container("leaf.txt", b"deep text");
    let outer = container("inner.bin", &inner);
    let steps = process_file(&outer, None, None, 0);
    assert!(is_enter(&steps[0], 0, FileType::AutelContainer, None, outer.len()));
    assert!(matches!(&steps[1], Step::Count { depth: 0, count: 1, .. }));
    assert!(matches!(&steps[2], Step::Entry { depth: 0, index: 1, .. }));
    assert!(is_enter(&steps[3], 1, FileType::AutelContainer, Some("inner.bin"), inner.len()));
    assert!(matches!(&steps[4], Step::Count { depth: 1, count: 1, .. }));
    assert!(matches!(&steps[5], Step::Entry { depth: 1, index: 1, .. }));
    assert!(is_enter(&steps[6], 2, FileType::Text, Some("leaf.txt"), 9));
    assert!(matches!(&steps[7], Step::Text { depth: 2, .. }));
    assert!(matches!(&steps[8], Step::Summary { depth: 1, .. }));
    assert!(matches!(&steps[9], Step::Summary { depth: 0, .. }));
    assert_eq!(steps.len(), 10);
}

#[test]
fn test_process_too_deep_is_not_unpacked() {
    let data = container("leaf.txt", b"deep text");
    let root: Vec<Folder> = Vec::new();
    let steps = process_file(&data, Some("c.bin"), Some(&root), MAX_DEPTH);
    assert_eq!(steps.len(), 3);
    assert!(is_enter(&steps[0], MAX_DEPTH, FileType::AutelContainer, Some("c.bin"), data.len()));
    assert!(matches!(&steps[1], Step::Save { .. }));
    assert!(is_remark(&steps[2], MAX_DEPTH, Remark::TooDeep));
    let just_below = process_file(&data, Some("c.bin"), None, MAX_DEPTH - 1);
    assert!(matches!(&just_below[1], Step::Count { count: 1, .. }));
    assert!(is_enter(&just_below[3], MAX_DEPTH, FileType::Text, Some("leaf.txt"), 9));
}

#[test]
fn test_process_zip_without_directory() {
    let data = b"PK\x03\x04 but no directory follows";
    let root: Vec<Folder> = Vec::new();
    let steps = process_file(data, Some("half.zip"), Some(&root), 0);
    assert_eq!(steps.len(), 3);
    assert!(is_enter(&steps[0], 0, FileType::Zip, Some("half.zip"), data.len()));
    assert!(is_remark(&steps[1], 0, Remark::NoDirectory));
    assert!(matches!(&steps[2], Step::Save { .. }));
}

#[test]
fn test_process_zip_that_cannot_be_opened() {
    let mut data = b"PK\x03\x04".to_vec();
    data.extend_from_slice(&[0x41; 40]);
    data.extend_from_slice(b"PK\x05\x06");
    data.extend_from_slice(&[0xff; 18]);
    let steps = process_zip(&data, Some("bad.zip"), None, 0);
    assert_eq!(steps.len(), 1);
    match &steps[0] {
        Step::ArchiveFailed { depth, message } => {
            assert_eq!(*depth, 0);
            assert!(!message.is_empty());
        }
        other => panic!("unexpected step {:?}", other),
    }
}

#[test]
fn test_process_zip_members() {
    let data = archive(
        &[("docs/", b""), ("docs/readme.txt", b"read me"), ("fw/esc.bin", &[0, 0, 0, 0, 0x15, 9])],
        CompressionMethod::Stored,
    );
    let root: Vec<Folder> = Vec::new();
    let steps = process_file(&data, Some("pack.zip"), Some(&root), 0);
    assert!(is_enter(&steps[0], 0, FileType::Zip, Some("pack.zip"), data.len()));
    assert!(matches!(
        &steps[1],
        Step::Count { depth: 0, kind: FolderKind::Archive, count: 3 }
    ));
    match &steps[2] {
        Step::MakeDir { place } => {
            assert_eq!(place.len(), 1);
            assert_eq!(place[0].kind, FolderKind::Archive);
            assert_eq!(place[0].name.as_deref(), Some("pack.zip"));
        }
        other => panic!("unexpected step {:?}", other),
    }
    match &steps[3] {
        Step::Save { place, name, data: saved } => {
            assert!(place.is_empty());
            assert_eq!(name, "pack.zip");
            assert_eq!(saved, &data);
        }
        other => panic!("unexpected step {:?}", other),
    }
    match &steps[4] {
        Step::Member { depth, name, size, kind } => {
            assert_eq!(*depth, 0);
            assert_eq!(name, "docs/readme.txt");
            assert_eq!(*size, 7);
            assert_eq!(*kind, FileType::Text);
        }
        other => panic!("unexpected step {:?}", other),
    }
    match &steps[5] {
        Step::Save { place, name, data: saved } => {
            assert_eq!(place.len(), 1);
            assert_eq!(name, "docs/readme.txt");
            assert_eq!(saved, b"read me");
        }
        other => panic!("unexpected step {:?}", other),
    }
    match &steps[6] {
        Step::Member { name, size, kind, .. } => {
            assert_eq!(name, "fw/esc.bin");
            assert_eq!(*size, 6);
            assert_eq!(*kind, FileType::UpgEsc);
        }
        other => panic!("unexpected step {:?}", other),
    }
    assert!(matches!(&steps[7], Step::Save { .. }));
    assert_eq!(steps.len(), 8);
}

#[test]
fn test_process_zip_with_deflated_container() {
    let inner = container("motor.txt", &[b'm'; 300]);
    let data = archive(&[("nested/fw.bin", &inner)], CompressionMethod::Deflated);
    assert!(data.len() < inner.len());
    let steps = process_zip(&data, None, None, 0);
    assert!(matches!(&steps[0], Step::Count { depth: 0, count: 1, .. }));
    assert!(is_enter(&steps[1], 1, FileType::AutelContainer, Some("fw.bin"), inner.len()));
    assert!(matches!(&steps[2], Step::Count { depth: 1, count: 1, .. }));
    assert!(matches!(&steps[3], Step::Entry { depth: 1, size: 300, .. }));
    assert!(is_enter(&steps[4], 2, FileType::Text, Some("motor.txt"), 300));
    assert!(matches!(&steps[5], Step::Text { depth: 2, .. }));
    assert!(matches!(&steps[6], Step::Summary { depth: 1, .. }));
    assert_eq!(steps.len(), 7);
}

#[test]
fn test_nested_member_goes_by_its_file_name() {
    let inner = archive(&[("leaf.txt", b"leaf text")], CompressionMethod::Stored);
    let data = archive(&[("d/e/x.zip", &inner), ("top.zip", &inner)], CompressionMethod::Stored);
    let root: Vec<Folder> = Vec::new();
    let steps = process_zip(&data, Some("outer.zip"), Some(&root), 0);
    assert!(matches!(&steps[0], Step::Count { depth: 0, count: 2, .. }));
    assert!(matches!(&steps[1], Step::MakeDir { .. }));
    assert!(matches!(&steps[2], Step::Save { .. }));
    assert!(is_enter(&steps[3], 1, FileType::Zip, Some("x.zip"), inner.len()));
    assert!(matches!(&steps[4], Step::Count { depth: 1, count: 1, .. }));
    match &steps[5] {
        Step::MakeDir { place } => {
            assert_eq!(place.len(), 3);
            assert_eq!(place[0].kind, FolderKind::Archive);
            assert_eq!(place[0].name.as_deref(), Some("outer.zip"));
            assert_eq!(place[1].kind, FolderKind::Directory);
            assert_eq!(place[1].name.as_deref(), Some("d/e"));
            assert_eq!(place[2].kind, FolderKind::Archive);
            assert_eq!(place[2].name.as_deref(), Some("x.zip"));
        }
        other => panic!("unexpected step {:?}", other),
    }
    match &steps[6] {
        Step::Save { place, name, data: saved } => {
            assert_eq!(place.len(), 2);
            assert_eq!(place[1].kind, FolderKind::Directory);
            assert_eq!(place[1].name.as_deref(), Some("d/e"));
            assert_eq!(name, "x.zip");
            assert_eq!(saved, &inner);
        }
        other => panic!("unexpected step {:?}", other),
    }
    match &steps[7] {
        Step::Member { depth, name, size, kind } => {
            assert_eq!((*depth, *size, *kind), (1, 9, FileType::Text));
            assert_eq!(name, "leaf.txt");
        }
        other => panic!("unexpected step {:?}", other),
    }
    assert!(matches!(&steps[8], Step::Save { .. }));
    assert!(is_enter(&steps[9], 1, FileType::Zip, Some("top.zip"), inner.len()));
    match &steps[11] {
        Step::MakeDir { place } => {
            assert_eq!(place.len(), 2);
            assert_eq!(place[1].kind, FolderKind::Archive);
            assert_eq!(place[1].name.as_deref(), Some("top.zip"));
        }
        other => panic!("unexpected step {:?}", other),
    }
    assert_eq!(steps.len(), 15);
}

#[test]
fn test_process_member_is_cut_at_the_last_slash() {
    let inner = container("leaf.txt", b"text");
    let root: Vec<Folder> = Vec::new();
    let steps = process_member("a/b/c.bin".to_string(), 0, inner.clone(), Some(&root), 0);
    assert!(is_enter(&steps[0], 1, FileType::AutelContainer, Some("c.bin"), inner.len()));
    match &steps[2] {
        Step::MakeDir { place } => {
            assert_eq!(place.len(), 2);
            assert_eq!(place[0].kind, FolderKind::Directory);
            assert_eq!(place[0].name.as_deref(), Some("a/b"));
            assert_eq!(place[1].kind, FolderKind::Container);
            assert_eq!(place[1].name.as_deref(), Some("c.bin"));
        }
        other => panic!("unexpected step {:?}", other),
    }
    let rooted = process_member("/c.bin".to_string(), 0, inner.clone(), Some(&root), 0);
    assert!(is_enter(&rooted[0], 1, FileType::AutelContainer, Some("c.bin"), inner.len()));
    match &rooted[2] {
        Step::MakeDir { place } => {
            assert_eq!(place.len(), 2);
            assert_eq!(place[0].kind, FolderKind::Directory);
            assert_eq!(place[0].name.as_deref(), Some(""));
        }
        other => panic!("unexpected step {:?}", other),
    }
    let unsaved = process_member("a/b/c.bin".to_string(), 0, inner.clone(), None, 0);
    assert!(is_enter(&unsaved[0], 1, FileType::AutelContainer, Some("c.bin"), inner.len()));
    assert!(matches!(&unsaved[2], Step::Entry { depth: 1, .. }));
}

#[test]
fn test_process_zip_with_trailing_bytes() {
    let mut data = archive(&[("a.txt", b"alpha")], CompressionMethod::Stored);
    let zip_len = data.len();
    data.extend_from_slice(&[0u8; 37]);
    let steps = process_zip(&data, Some("padded.zip"), None, 0);
    assert!(matches!(&steps[0], Step::Count { count: 1, .. }));
    assert!(matches!(&steps[1], Step::Member { size: 5, kind: FileType::Text, .. }));
    assert_eq!(steps.len(), 2);
    assert_eq!(zip_len + 37, data.len());
}

#[test]
fn test_process_member_leaf_and_nested() {
    let root: Vec<Folder> = Vec::new();
    let leaf = process_member("x/data.json".to_string(), 6, b"[1, 2]".to_vec(), Some(&root), 3);
    assert_eq!(leaf.len(), 2);
    assert!(matches!(&leaf[0], Step::Member { depth: 3, size: 6, kind: FileType::Json, .. }));
    match &leaf[1] {
        Step::Save { name, data, .. } => {
            assert_eq!(name, "x/data.json");
            assert_eq!(data, b"[1, 2]");
        }
        other => panic!("unexpected step {:?}", other),
    }
    let inner = container("leaf.txt", b"text");
    let nested = process_member("c.bin".to_string(), inner.len() as u64, inner.clone(), None, 3);
    assert!(is_enter(&nested[0], 4, FileType::AutelContainer, Some("c.bin"), inner.len()));
    let too_deep = process_member("c.bin".to_string(), 0, inner, None, MAX_DEPTH);
    assert_eq!(too_deep.len(), 1);
    assert!(is_remark(&too_deep[0], MAX_DEPTH, Remark::TooDeep));
}

#[test]
fn test_processing_is_repeatable() {
    let data = archive(&[("a.json", b"{\"k\": [1, 2]}")], CompressionMethod::Deflated);
    let first = process_file(&data, Some("r.zip"), None, 0);
    let second = process_file(&data, Some("r.zip"), None, 0);
    assert_eq!(format!("{:?}", first), format!("{:?}", second));
}
