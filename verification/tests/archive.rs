use mpq_folder_win::archive::{
    MpqArchiveDescriptor, MpqArchiveError, MpqEntry, PLACEHOLDER_FILE_NAME, PLACEHOLDER_HEADER,
};
use mpq_folder_win::storage::MpqStorage;
use std::sync::Arc;

#[test]
fn entry_from_bytes_keeps_path_and_bytes() {
    let e = MpqEntry::from_bytes("a/b.bin".to_string(), vec![1, 2, 3, 4, 5]);
    assert_eq!(e.path(), "a/b.bin");
    assert_eq!(e.data(), &[1u8, 2, 3, 4, 5][..]);
    assert_eq!(e.uncompressed_size(), 5);
    assert_eq!(e.compressed_size(), 5);
}

#[test]
fn entry_from_empty_bytes_has_size_zero() {
    let e = MpqEntry::from_bytes("empty".to_string(), Vec::new());
    assert_eq!(e.uncompressed_size(), 0);
    assert!(e.data().is_empty());
}

#[test]
fn entry_from_text_holds_utf8() {
    let e = MpqEntry::from_text("note.txt", "h\u{e9}llo".to_string());
    assert_eq!(e.path(), "note.txt");
    assert_eq!(e.data(), "h\u{e9}llo".as_bytes());
    assert_eq!(e.uncompressed_size(), 6);
}

#[test]
fn entry_clone_shares_content() {
    let e = MpqEntry::from_bytes("x".to_string(), vec![9, 8, 7]);
    let c = e.clone();
    assert_eq!(c.path(), "x");
    assert_eq!(c.data(), e.data());
    assert!(Arc::ptr_eq(&e.shared_data(), &c.shared_data()));
}

#[test]
fn descriptor_keeps_order() {
    let d = MpqArchiveDescriptor::new(vec![
        MpqEntry::from_bytes("b".to_string(), vec![1]),
        MpqEntry::from_bytes("a".to_string(), vec![2, 2]),
        MpqEntry::from_bytes("c".to_string(), vec![3, 3, 3]),
    ]);
    let paths: Vec<&str> = d.entries().iter().map(|e| e.path()).collect();
    assert_eq!(paths, vec!["b", "a", "c"]);
}

#[test]
fn empty_descriptor_has_nothing() {
    let d = MpqArchiveDescriptor::new(Vec::new());
    assert!(d.entries().is_empty());
    assert_eq!(d.total_uncompressed_size(), 0);
    assert!(d.find_entry("anything").is_none());
}

#[test]
fn total_size_is_sum_of_sizes() {
    let d = MpqArchiveDescriptor::new(vec![
        MpqEntry::from_bytes("intro.txt".to_string(), vec![0; 10]),
        MpqEntry::from_bytes("war3map.j".to_string(), vec![0; 500]),
        MpqEntry::from_bytes("scripts/common.j".to_string(), vec![0; 200]),
    ]);
    assert_eq!(d.total_uncompressed_size(), 710);
}

#[test]
fn find_entry_ignores_ascii_case() {
    let d = MpqArchiveDescriptor::new(vec![
        MpqEntry::from_bytes("Scripts/Common.j".to_string(), vec![1]),
        MpqEntry::from_bytes("other".to_string(), vec![2]),
    ]);
    assert_eq!(d.find_entry("scripts/common.J").unwrap().data(), &[1u8][..]);
    assert_eq!(d.find_entry("OTHER").unwrap().data(), &[2u8][..]);
    assert!(d.find_entry("scripts").is_none());
    assert!(d.find_entry("scripts\\common.j").is_none());
}

#[test]
fn find_entry_takes_first_of_duplicates() {
    let d = MpqArchiveDescriptor::new(vec![
        MpqEntry::from_bytes("dup.txt".to_string(), vec![1]),
        MpqEntry::from_bytes("DUP.TXT".to_string(), vec![2]),
    ]);
    assert_eq!(d.find_entry("Dup.Txt").unwrap().path(), "dup.txt");
    assert_eq!(d.position_of(&['D', 'U', 'P', '.', 't', 'x', 't']), Some(0));
}

#[test]
fn find_entry_folds_ascii_letters_only() {
    let d = MpqArchiveDescriptor::new(vec![MpqEntry::from_bytes("\u{c9}t\u{e9}".to_string(), vec![1])]);
    assert!(d.find_entry("\u{c9}T\u{e9}").is_some());
    assert!(d.find_entry("\u{e9}t\u{e9}").is_none());
}

#[test]
fn placeholder_has_one_entry_of_documented_name() {
    let d = MpqArchiveDescriptor::placeholder("load failed: boom");
    assert_eq!(d.entries().len(), 1);
    let e = &d.entries()[0];
    assert_eq!(e.path(), "TEST.txt");
    assert_eq!(e.path(), PLACEHOLDER_FILE_NAME);
    let body = "MPQ archive preview is not implemented yet.\r\nload failed: boom\r\n";
    assert_eq!(e.data(), body.as_bytes());
    assert_eq!(e.uncompressed_size(), body.len() as u64);
    let root = MpqStorage::open_root(Arc::new(d));
    assert_eq!(root.stat().size, body.len() as u64);
}

#[test]
fn placeholder_body_begins_with_header() {
    let d = MpqArchiveDescriptor::placeholder("");
    let expected = format!("{}\r\n\r\n", PLACEHOLDER_HEADER);
    assert_eq!(d.entries()[0].data(), expected.as_bytes());
}

#[test]
fn placeholder_from_path_names_the_path() {
    let d = MpqArchiveDescriptor::placeholder_from_path("C:\\maps\\a.w3x");
    let body = "MPQ archive preview is not implemented yet.\r\nSource archive path: C:\\maps\\a.w3x\r\n";
    assert_eq!(d.entries()[0].data(), body.as_bytes());
}

#[test]
fn placeholder_from_stream_names_the_length() {
    let d = MpqArchiveDescriptor::placeholder_from_stream(8192);
    let body = "MPQ archive preview is not implemented yet.\r\nSource archive provided via stream (8192 bytes).\r\n";
    assert_eq!(d.entries()[0].data(), body.as_bytes());
}

#[test]
fn placeholder_from_stream_writes_decimal() {
    for len in [0usize, 7, 10, 99, 100, 1234567890] {
        let d = MpqArchiveDescriptor::placeholder_from_stream(len);
        let body = format!(
            "MPQ archive preview is not implemented yet.\r\nSource archive provided via stream ({} bytes).\r\n",
            len
        );
        assert_eq!(d.entries()[0].data(), body.as_bytes());
    }
}

#[test]
fn load_from_path_gives_placeholder() {
    let d = MpqArchiveDescriptor::load_from_path("x.mpq").unwrap();
    assert_eq!(d.entries().len(), 1);
    assert_eq!(d.entries()[0].path(), "TEST.txt");
    let body = "MPQ archive preview is not implemented yet.\r\nSource archive path: x.mpq\r\n";
    assert_eq!(d.entries()[0].data(), body.as_bytes());
}

#[test]
fn load_from_bytes_gives_placeholder() {
    let d = MpqArchiveDescriptor::load_from_bytes(&[0u8; 42]).unwrap();
    assert_eq!(d.entries().len(), 1);
    let body = "MPQ archive preview is not implemented yet.\r\nSource archive provided via stream (42 bytes).\r\n";
    assert_eq!(d.entries()[0].data(), body.as_bytes());
}

#[test]
fn descriptor_clone_has_same_entries() {
    let d = MpqArchiveDescriptor::new(vec![MpqEntry::from_bytes("a".to_string(), vec![1, 2])]);
    let c = d.clone();
    assert_eq!(c.entries().len(), 1);
    assert_eq!(c.entries()[0].path(), "a");
    assert_eq!(c.total_uncompressed_size(), 2);
}

#[test]
fn error_messages() {
    assert_eq!(MpqArchiveError::Io("disk gone".to_string()).message(), "I/O error: disk gone");
    assert_eq!(
        MpqArchiveError::Unsupported("version 9").message(),
        "Unsupported archive: version 9"
    );
    assert_eq!(
        MpqArchiveError::Corrupted("bad header".to_string()).message(),
        "Corrupted archive: bad header"
    );
}

#[test]
fn failed_load_becomes_placeholder() {
    let failed: Result<MpqArchiveDescriptor, MpqArchiveError> =
        Err(MpqArchiveError::Corrupted("hash table out of range".to_string()));
    let d = MpqArchiveDescriptor::or_placeholder(failed);
    assert_eq!(d.entries().len(), 1);
    assert_eq!(d.entries()[0].path(), "TEST.txt");
    let body = "MPQ archive preview is not implemented yet.\r\nCorrupted archive: hash table out of range\r\n";
    assert_eq!(d.entries()[0].data(), body.as_bytes());
    let root = MpqStorage::open_root(Arc::new(d));
    assert_eq!(root.stat().size, body.len() as u64);
    assert_eq!(root.stat().size, root.descriptor().entries()[0].uncompressed_size());
}

#[test]
fn failed_read_becomes_placeholder() {
    let d = MpqArchiveDescriptor::or_placeholder(Err(MpqArchiveError::Io("access denied".to_string())));
    let body = "MPQ archive preview is not implemented yet.\r\nI/O error: access denied\r\n";
    assert_eq!(d.entries().len(), 1);
    assert_eq!(d.entries()[0].data(), body.as_bytes());
    let d = MpqArchiveDescriptor::or_placeholder(Err(MpqArchiveError::Unsupported("MPQ v4")));
    let body = "MPQ archive preview is not implemented yet.\r\nUnsupported archive: MPQ v4\r\n";
    assert_eq!(d.entries()[0].data(), body.as_bytes());
}

#[test]
fn good_load_is_kept() {
    let loaded = Ok(MpqArchiveDescriptor::new(vec![
        MpqEntry::from_bytes("a".to_string(), vec![1]),
        MpqEntry::from_bytes("b".to_string(), vec![2]),
    ]));
    let d = MpqArchiveDescriptor::or_placeholder(loaded);
    assert_eq!(d.entries().len(), 2);
    assert_eq!(d.entries()[1].path(), "b");
}

#[test]
fn entry_needs_a_path() {
    assert!(MpqEntry::checked_from_bytes(String::new(), vec![1, 2]).is_none());
    let e = MpqEntry::checked_from_bytes("a".to_string(), vec![1, 2]).unwrap();
    assert_eq!(e.path(), "a");
    assert_eq!(e.data(), &[1u8, 2][..]);
}
