use mpq_folder_win::archive::{MpqArchiveDescriptor, MpqEntry};
use mpq_folder_win::enumerate::{EnumItem, MpqEnumElements};
use mpq_folder_win::storage::{MpqStat, MpqStorage};
use std::sync::Arc;

fn six() -> Arc<MpqArchiveDescriptor> {
    Arc::new(MpqArchiveDescriptor::new(vec![
        MpqEntry::from_bytes("one.txt".to_string(), vec![0; 1]),
        MpqEntry::from_bytes("two.txt".to_string(), vec![0; 2]),
        MpqEntry::from_bytes("zoo/tiger".to_string(), vec![0; 30]),
        MpqEntry::from_bytes("three.txt".to_string(), vec![0; 3]),
        MpqEntry::from_bytes("Art/pic.blp".to_string(), vec![0; 40]),
        MpqEntry::from_bytes("four.txt".to_string(), vec![0; 4]),
        MpqEntry::from_bytes("art/deep/other.blp".to_string(), vec![0; 50]),
    ]))
}

fn shape(stats: &[MpqStat]) -> Vec<(String, u64, bool)> {
    stats.iter().map(|s| (s.display_name.clone(), s.size, s.is_container)).collect()
}

fn row(name: &str, size: u64, container: bool) -> (String, u64, bool) {
    (name.to_string(), size, container)
}

#[test]
fn cursor_walks_directories_then_files() {
    let mut c = MpqEnumElements::new(six(), String::new());
    assert_eq!(c.len(), 6);
    assert_eq!(c.position(), 0);
    let (stats, all) = c.next(6);
    assert!(all);
    assert_eq!(
        shape(&stats),
        vec![
            row("Art", 0, true),
            row("zoo", 0, true),
            row("one.txt", 1, false),
            row("two.txt", 2, false),
            row("three.txt", 3, false),
            row("four.txt", 4, false),
        ]
    );
    assert_eq!(c.position(), 6);
}

#[test]
fn file_items_show_last_segment_only() {
    let mut c = MpqEnumElements::new(six(), "art".to_string());
    let (stats, all) = c.next(10);
    assert!(!all);
    assert_eq!(shape(&stats), vec![row("deep", 0, true), row("pic.blp", 40, false)]);
}

#[test]
fn stat_for_file_takes_what_follows_last_separator() {
    let name = |path: &str| {
        MpqEnumElements::stat_for_file(&MpqEntry::from_bytes(path.to_string(), vec![0; 2])).display_name
    };
    assert_eq!(name("plain"), "plain");
    assert_eq!(name("a/b/c.txt"), "c.txt");
    assert_eq!(name("a\\b\\c.txt"), "c.txt");
    assert_eq!(name("a/b\\c"), "c");
    assert_eq!(name("a\\b/c"), "c");
    assert_eq!(name("a/b/"), "");
    assert_eq!(name("/lead"), "lead");
    let stat = MpqEnumElements::stat_for_file(&MpqEntry::from_bytes("x/y".to_string(), vec![0; 9]));
    assert_eq!(stat.size, 9);
    assert!(!stat.is_container);
}

#[test]
fn stat_for_dir_has_no_size() {
    let stat = MpqEnumElements::stat_for_dir("scripts");
    assert_eq!(stat.display_name, "scripts");
    assert_eq!(stat.size, 0);
    assert!(stat.is_container);
}

#[test]
fn next_in_parts() {
    let mut c = MpqEnumElements::new(six(), String::new());
    let (stats, all) = c.next(1);
    assert!(all);
    assert_eq!(shape(&stats), vec![row("Art", 0, true)]);
    let (stats, all) = c.next(2);
    assert!(all);
    assert_eq!(shape(&stats), vec![row("zoo", 0, true), row("one.txt", 1, false)]);
    assert_eq!(c.position(), 3);
    let (stats, all) = c.next(5);
    assert!(!all);
    assert_eq!(stats.len(), 3);
    assert_eq!(c.position(), 6);
}

#[test]
fn next_of_nothing_is_satisfied() {
    let mut c = MpqEnumElements::new(six(), String::new());
    let (stats, all) = c.next(0);
    assert!(stats.is_empty());
    assert!(all);
    assert_eq!(c.position(), 0);
    c.skip(6);
    let (stats, all) = c.next(0);
    assert!(stats.is_empty());
    assert!(all);
}

#[test]
fn exhausted_after_repeated_next() {
    let mut c = MpqEnumElements::new(six(), String::new());
    for _ in 0..6 {
        let (stats, all) = c.next(1);
        assert_eq!(stats.len(), 1);
        assert!(all);
    }
    let (stats, all) = c.next(1);
    assert!(stats.is_empty());
    assert!(!all);
    assert_eq!(c.position(), 6);
    let (stats, all) = c.next(1);
    assert!(stats.is_empty());
    assert!(!all);
}

#[test]
fn exhausted_after_skip() {
    let mut c = MpqEnumElements::new(six(), String::new());
    assert!(c.skip(6));
    let (stats, all) = c.next(1);
    assert!(stats.is_empty());
    assert!(!all);
    let mut c = MpqEnumElements::new(six(), String::new());
    assert!(!c.skip(100));
    assert_eq!(c.position(), 6);
    let (stats, all) = c.next(1);
    assert!(stats.is_empty());
    assert!(!all);
}

#[test]
fn skip_is_clamped() {
    let mut c = MpqEnumElements::new(six(), String::new());
    assert!(c.skip(0));
    assert_eq!(c.position(), 0);
    assert!(c.skip(4));
    assert_eq!(c.position(), 4);
    assert!(!c.skip(3));
    assert_eq!(c.position(), 6);
    assert!(c.skip(0));
    assert!(!c.skip(1));
    assert!(!c.skip(usize::MAX));
    assert_eq!(c.position(), 6);
}

#[test]
fn reset_goes_back_to_start() {
    let mut c = MpqEnumElements::new(six(), String::new());
    c.skip(5);
    c.reset();
    assert_eq!(c.position(), 0);
    let (stats, _) = c.next(1);
    assert_eq!(shape(&stats), vec![row("Art", 0, true)]);
}

#[test]
fn clone_moves_on_its_own() {
    let mut first = MpqEnumElements::new(six(), String::new());
    assert!(first.skip(2));
    let mut copy = first.clone();
    assert_eq!(copy.position(), 2);
    let (stats, all) = copy.next(3);
    assert!(all);
    assert_eq!(
        shape(&stats),
        vec![row("one.txt", 1, false), row("two.txt", 2, false), row("three.txt", 3, false)]
    );
    assert_eq!(copy.position(), 5);
    assert_eq!(first.position(), 2);
    let (stats, _) = first.next(1);
    assert_eq!(shape(&stats), vec![row("one.txt", 1, false)]);
    assert_eq!(copy.position(), 5);
}

#[test]
fn clone_survives_reset_of_original() {
    let mut first = MpqEnumElements::new(six(), String::new());
    first.skip(3);
    let copy = first.clone();
    first.reset();
    assert_eq!(copy.position(), 3);
    assert_eq!(copy.len(), 6);
}

#[test]
fn cursor_of_empty_directory() {
    let mut c = MpqEnumElements::new(six(), "nothing/here".to_string());
    assert_eq!(c.len(), 0);
    let (stats, all) = c.next(1);
    assert!(stats.is_empty());
    assert!(!all);
    assert!(!c.skip(1));
    assert!(c.skip(0));
}

#[test]
fn enumerate_of_a_view_lists_that_view() {
    let root = MpqStorage::open_root(six());
    let mut c = root.enumerate();
    assert_eq!(c.len(), 6);
    let zoo = MpqStorage::new(six(), "zoo".to_string());
    let mut z = zoo.enumerate();
    let (stats, all) = z.next(1);
    assert!(all);
    assert_eq!(shape(&stats), vec![row("tiger", 30, false)]);
    let (stats, _) = c.next(2);
    assert_eq!(shape(&stats), vec![row("Art", 0, true), row("zoo", 0, true)]);
}

#[test]
fn items_are_directories_then_files() {
    let c = MpqEnumElements::new(six(), String::new());
    let seen: Vec<String> = c
        .items()
        .iter()
        .map(|item| match item {
            EnumItem::Dir(name) => format!("dir {}", name),
            EnumItem::File(index) => format!("file {}", index),
        })
        .collect();
    assert_eq!(seen, vec!["dir Art", "dir zoo", "file 0", "file 1", "file 3", "file 5"]);
}

#[test]
fn step_back_puts_items_back() {
    let mut c = MpqEnumElements::new(six(), String::new());
    c.skip(5);
    c.step_back(2);
    assert_eq!(c.position(), 3);
    let (stats, _) = c.next(1);
    assert_eq!(shape(&stats), vec![row("two.txt", 2, false)]);
    c.step_back(0);
    assert_eq!(c.position(), 4);
    c.step_back(4);
    assert_eq!(c.position(), 0);
}

#[test]
fn step_back_stops_at_the_start() {
    let mut c = MpqEnumElements::new(six(), String::new());
    c.skip(2);
    c.step_back(3);
    assert_eq!(c.position(), 0);
    c.step_back(usize::MAX);
    assert_eq!(c.position(), 0);
    assert_eq!(c.len(), 6);
    let (stats, all) = c.next(1);
    assert!(all);
    assert_eq!(shape(&stats), vec![row("Art", 0, true)]);
}

#[test]
fn a_batch_can_be_put_back_in_part() {
    let mut c = MpqEnumElements::new(six(), String::new());
    c.skip(1);
    let (stats, _) = c.next_wide(4);
    assert_eq!(stats.len(), 4);
    c.step_back(stats.len() - 1);
    assert_eq!(c.position(), 2);
}
