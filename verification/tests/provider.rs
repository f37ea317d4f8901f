use mpq_folder_win::archive::{MpqArchiveDescriptor, MpqArchiveError, MpqEntry};
use mpq_folder_win::provider::{MpqShellProvider, EMPTY_STREAM_DETAIL, STREAM_SOURCE_NAME};
use mpq_folder_win::storage::MpqStorageError;
use std::sync::Arc;

fn loaded() -> MpqShellProvider {
    let mut p = MpqShellProvider::new();
    p.set_state_from_descriptor(
        Some("C:\\maps\\melee.w3x".to_string()),
        None,
        Arc::new(MpqArchiveDescriptor::new(vec![
            MpqEntry::from_bytes("war3map.j".to_string(), vec![1; 5]),
            MpqEntry::from_bytes("./hidden.txt".to_string(), vec![2; 6]),
            MpqEntry::from_bytes("scripts/common.j".to_string(), vec![3; 7]),
        ])),
    );
    p
}

#[test]
fn new_provider_serves_placeholder() {
    let p = MpqShellProvider::new();
    let d = p.descriptor();
    assert_eq!(d.entries().len(), 1);
    assert_eq!(d.entries()[0].path(), "TEST.txt");
    let body = "MPQ archive preview is not implemented yet.\r\nMPQ handler not initialized\r\n";
    assert_eq!(d.entries()[0].data(), body.as_bytes());
    assert_eq!(p.current_file(), None);
    assert_eq!(p.friendly_storage_name(), "MPQ archive (stream source)");
    assert_eq!(p.friendly_storage_name(), STREAM_SOURCE_NAME);
}

#[test]
fn initialize_with_path_keeps_the_path() {
    let mut p = MpqShellProvider::new();
    assert!(p.initialize_with_path("D:\\a.mpq").is_ok());
    assert_eq!(p.current_file(), Some("D:\\a.mpq".to_string()));
    assert_eq!(p.friendly_storage_name(), "D:\\a.mpq");
    let body = "MPQ archive preview is not implemented yet.\r\nSource archive path: D:\\a.mpq\r\n";
    assert_eq!(p.descriptor().entries()[0].data(), body.as_bytes());
    assert_eq!(p.stat().display_name, "D:\\a.mpq");
    assert_eq!(p.stat().size, body.len() as u64);
    assert!(p.stat().is_container);
}

#[test]
fn initialize_with_stream_forgets_the_path() {
    let mut p = MpqShellProvider::new();
    p.initialize_with_path("D:\\a.mpq").unwrap();
    assert!(p.initialize_with_stream(vec![0u8; 300]).is_ok());
    assert_eq!(p.current_file(), None);
    assert_eq!(p.friendly_storage_name(), "MPQ archive (stream source)");
    let body = "MPQ archive preview is not implemented yet.\r\nSource archive provided via stream (300 bytes).\r\n";
    assert_eq!(p.descriptor().entries()[0].data(), body.as_bytes());
}

#[test]
fn initialize_with_empty_stream_is_refused() {
    let mut p = MpqShellProvider::new();
    p.initialize_with_path("D:\\a.mpq").unwrap();
    match p.initialize_with_stream(Vec::new()) {
        Err(MpqArchiveError::Corrupted(detail)) => assert_eq!(detail, EMPTY_STREAM_DETAIL),
        other => panic!("unexpected: {:?}", other),
    }
    assert_eq!(p.current_file(), Some("D:\\a.mpq".to_string()));
}

#[test]
fn earlier_descriptor_outlives_a_new_initialization() {
    let mut p = loaded();
    let before = p.descriptor();
    p.initialize_with_path("other.mpq").unwrap();
    assert_eq!(before.entries().len(), 3);
    assert_eq!(p.descriptor().entries().len(), 1);
}

#[test]
fn root_stream_by_name() {
    let p = loaded();
    assert_eq!(p.open_stream("WAR3MAP.J").unwrap().bytes(), &[1u8; 5][..]);
    assert_eq!(p.open_stream("scripts/common.j").unwrap().bytes(), &[3u8; 7][..]);
}

#[test]
fn root_stream_tries_dot_slash() {
    let p = loaded();
    assert_eq!(p.open_stream("hidden.txt").unwrap().bytes(), &[2u8; 6][..]);
    assert_eq!(p.open_stream("./hidden.txt").unwrap().bytes(), &[2u8; 6][..]);
}

#[test]
fn root_stream_errors() {
    let p = loaded();
    assert_eq!(p.open_stream("").err(), Some(MpqStorageError::InvalidArgument));
    assert_eq!(p.open_stream("nope.txt").err(), Some(MpqStorageError::NotFound));
    assert_eq!(p.open_stream("scripts").err(), Some(MpqStorageError::NotFound));
}

#[test]
fn root_storage_by_name() {
    let p = loaded();
    assert_eq!(p.open_storage("").err(), Some(MpqStorageError::InvalidArgument));
    let s = p.open_storage("scripts").unwrap();
    assert_eq!(s.prefix(), "scripts");
    assert_eq!(s.stat().size, 7);
    let upper = p.open_storage("SCRIPTS").unwrap();
    assert_eq!(upper.prefix(), "SCRIPTS");
    assert_eq!(upper.stat().size, 7);
}

#[test]
fn root_storage_of_unknown_name_is_not_found() {
    let p = loaded();
    assert_eq!(p.open_storage("not-there").err(), Some(MpqStorageError::NotFound));
    assert_eq!(p.open_storage("war3map.j").err(), Some(MpqStorageError::NotFound));
    assert_eq!(p.open_storage("scripts/common.j").err(), Some(MpqStorageError::NotFound));
    assert_eq!(p.open_storage("scripts/").err(), Some(MpqStorageError::NotFound));
    let fresh = MpqShellProvider::new();
    assert_eq!(fresh.open_storage("nope").err(), Some(MpqStorageError::NotFound));
    assert_eq!(fresh.open_storage("TEST.txt").err(), Some(MpqStorageError::NotFound));
    assert_eq!(fresh.open_storage("").err(), Some(MpqStorageError::InvalidArgument));
}

#[test]
fn root_storage_is_what_the_root_view_opens() {
    let p = loaded();
    let root = mpq_folder_win::storage::MpqStorage::open_root(p.descriptor());
    for name in ["scripts", "Scripts", ".", "nope", "war3map.j", "./hidden.txt"] {
        let by_provider = p.open_storage(name).map(|s| s.prefix().to_string());
        let by_view = root.open_storage(name).map(|s| s.prefix().to_string());
        assert_eq!(by_provider, by_view, "{name}");
    }
}

#[test]
fn root_stream_tries_backslashes_as_the_root_view_does() {
    let mut p = MpqShellProvider::new();
    p.set_state_from_descriptor(
        None,
        None,
        Arc::new(MpqArchiveDescriptor::new(vec![
            MpqEntry::from_bytes("dir\\f.txt".to_string(), vec![4; 3]),
            MpqEntry::from_bytes("./dir/f.txt".to_string(), vec![5; 2]),
            MpqEntry::from_bytes("./g.txt".to_string(), vec![6; 1]),
        ])),
    );
    assert_eq!(p.open_stream("dir/f.txt").unwrap().bytes(), &[4u8; 3][..]);
    assert_eq!(p.open_stream("DIR\\F.TXT").unwrap().bytes(), &[4u8; 3][..]);
    assert_eq!(p.open_stream("g.txt").unwrap().bytes(), &[6u8; 1][..]);
    assert_eq!(p.open_stream("dir/g.txt").err(), Some(MpqStorageError::NotFound));
    let root = mpq_folder_win::storage::MpqStorage::open_root(p.descriptor());
    assert_eq!(root.open_stream_by_path("dir/f.txt").unwrap().bytes(), &[4u8; 3][..]);
}

#[test]
fn root_enumeration_and_stat() {
    let p = loaded();
    let mut c = p.enum_elements();
    let (stats, all) = c.next(3);
    assert!(all);
    let names: Vec<&str> = stats.iter().map(|s| s.display_name.as_str()).collect();
    assert_eq!(names, vec![".", "scripts", "war3map.j"]);
    let stat = p.stat();
    assert_eq!(stat.display_name, "C:\\maps\\melee.w3x");
    assert_eq!(stat.size, 18);
    assert!(stat.is_container);
}

#[test]
fn pidl_bytes_do_not_touch_the_archive() {
    let mut p = loaded();
    p.set_root_pidl_bytes(Some(vec![1, 0]));
    assert_eq!(p.descriptor().entries().len(), 3);
    p.set_root_pidl_bytes(None);
    assert_eq!(p.current_file(), Some("C:\\maps\\melee.w3x".to_string()));
}

#[test]
fn display_name_of_placeholder_is_known() {
    assert!(MpqShellProvider::parses_display_name("TEST.txt"));
    assert!(MpqShellProvider::parses_display_name("test.TXT"));
    assert!(!MpqShellProvider::parses_display_name("TEST.tx"));
    assert!(!MpqShellProvider::parses_display_name(""));
}

#[test]
fn default_provider_is_a_new_provider() {
    let p = MpqShellProvider::default();
    assert_eq!(p.current_file(), None);
    assert_eq!(p.descriptor().entries().len(), 1);
    assert_eq!(p.descriptor().entries()[0].path(), "TEST.txt");
}

#[test]
fn initialize_with_wide_path_decodes_the_path() {
    let mut p = MpqShellProvider::new();
    let units: Vec<u16> = "D:\\maps\\\u{e9}t\u{e9}.w3x".encode_utf16().collect();
    assert!(p.initialize_with_wide_path(&units).is_ok());
    assert_eq!(p.current_file(), Some("D:\\maps\\\u{e9}t\u{e9}.w3x".to_string()));
    assert!(p.initialize_with_wide_path(&[0x61, 0xD800]).is_ok());
    assert_eq!(p.current_file(), Some("a\u{FFFD}".to_string()));
}
