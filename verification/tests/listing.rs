use mpq_folder_win::archive::{MpqArchiveDescriptor, MpqEntry};
use mpq_folder_win::listing::list_children;

fn archive(paths: &[&str]) -> MpqArchiveDescriptor {
    MpqArchiveDescriptor::new(
        paths.iter().map(|p| MpqEntry::from_bytes(p.to_string(), vec![0u8; 3])).collect(),
    )
}

fn names(list: &[&str]) -> Vec<String> {
    list.iter().map(|s| s.to_string()).collect()
}

#[test]
fn root_lists_directories_then_files() {
    let d = archive(&["intro.txt", "war3map.j", "scripts/common.j"]);
    let (dirs, files) = list_children(&d, "");
    assert_eq!(dirs, names(&["scripts"]));
    assert_eq!(files, vec![0usize, 1]);
}

#[test]
fn sub_directory_lists_its_file() {
    let d = archive(&["intro.txt", "war3map.j", "scripts/common.j"]);
    let (dirs, files) = list_children(&d, "scripts");
    assert!(dirs.is_empty());
    assert_eq!(files, vec![2usize]);
}

#[test]
fn empty_archive_lists_nothing() {
    let d = archive(&[]);
    let (dirs, files) = list_children(&d, "");
    assert!(dirs.is_empty());
    assert!(files.is_empty());
    let (dirs, files) = list_children(&d, "x");
    assert!(dirs.is_empty());
    assert!(files.is_empty());
}

#[test]
fn unknown_prefix_lists_nothing() {
    let d = archive(&["a/b", "c"]);
    let (dirs, files) = list_children(&d, "nope");
    assert!(dirs.is_empty());
    assert!(files.is_empty());
}

#[test]
fn directories_are_sorted_ignoring_case() {
    let d = archive(&["zeta/1", "Alpha/1", "beta/1", "Gamma/1", "alpha2/1"]);
    let (dirs, files) = list_children(&d, "");
    assert_eq!(dirs, names(&["Alpha", "alpha2", "beta", "Gamma", "zeta"]));
    assert!(files.is_empty());
}

#[test]
fn directory_names_are_one_per_casing_first_seen() {
    let d = archive(&["Units/a", "units/b", "UNITS/c", "maps/x", "Maps/y"]);
    let (dirs, _) = list_children(&d, "");
    assert_eq!(dirs, names(&["maps", "Units"]));
}

#[test]
fn shorter_name_sorts_first() {
    let d = archive(&["ab/x", "a/x", "abc/x", "B/x"]);
    let (dirs, _) = list_children(&d, "");
    assert_eq!(dirs, names(&["a", "ab", "abc", "B"]));
}

#[test]
fn files_keep_archive_order() {
    let d = archive(&["z.txt", "d/x", "a.txt", "m.txt", "d/y"]);
    let (dirs, files) = list_children(&d, "");
    assert_eq!(dirs, names(&["d"]));
    assert_eq!(files, vec![0usize, 2, 3]);
    let (dirs, files) = list_children(&d, "d");
    assert!(dirs.is_empty());
    assert_eq!(files, vec![1usize, 4]);
}

#[test]
fn nested_directories_show_one_level() {
    let d = archive(&["a/b/c/d.txt", "a/b/e.txt", "a/f.txt"]);
    let (dirs, files) = list_children(&d, "");
    assert_eq!(dirs, names(&["a"]));
    assert!(files.is_empty());
    let (dirs, files) = list_children(&d, "a");
    assert_eq!(dirs, names(&["b"]));
    assert_eq!(files, vec![2usize]);
    let (dirs, files) = list_children(&d, "a/b");
    assert_eq!(dirs, names(&["c"]));
    assert_eq!(files, vec![1usize]);
    let (dirs, files) = list_children(&d, "a/b/c");
    assert!(dirs.is_empty());
    assert_eq!(files, vec![0usize]);
}

#[test]
fn prefix_is_matched_ignoring_case() {
    let d = archive(&["Scripts/Common.j", "scripts/blizzard.j", "SCRIPTS/ai/x.ai"]);
    let (dirs, files) = list_children(&d, "sCrIpTs");
    assert_eq!(dirs, names(&["ai"]));
    assert_eq!(files, vec![0usize, 1]);
    assert_eq!(list_children(&d, "scripts"), list_children(&d, "SCRIPTS"));
}

#[test]
fn backslash_splits_at_root() {
    let d = archive(&["dir\\file.txt", "plain.txt"]);
    let (dirs, files) = list_children(&d, "");
    assert_eq!(dirs, names(&["dir"]));
    assert_eq!(files, vec![1usize]);
    let (dirs, files) = list_children(&d, "dir");
    assert!(dirs.is_empty());
    assert!(files.is_empty());
}

#[test]
fn backslash_splits_below_a_prefix() {
    let d = archive(&["a/b\\c.txt", "a/d.txt"]);
    let (dirs, files) = list_children(&d, "a");
    assert_eq!(dirs, names(&["b"]));
    assert_eq!(files, vec![1usize]);
}

#[test]
fn entry_that_is_the_directory_itself_is_skipped() {
    let d = archive(&["a/", "a//", "a/x"]);
    let (dirs, files) = list_children(&d, "a");
    assert!(dirs.is_empty());
    assert_eq!(files, vec![2usize]);
}

#[test]
fn root_takes_paths_as_they_are() {
    let d = archive(&["/lead/x", "trail/", "/"]);
    let (dirs, files) = list_children(&d, "");
    assert!(dirs.is_empty());
    assert_eq!(files, vec![1usize, 2]);
}

#[test]
fn no_directory_has_an_empty_name() {
    let d = archive(&["/a/b", "\\\\server\\share", "x//y", "p/\\/q/r"]);
    let (dirs, files) = list_children(&d, "");
    assert_eq!(dirs, names(&["p", "x"]));
    assert!(files.is_empty());
    let (dirs, files) = list_children(&d, "p");
    assert_eq!(dirs, names(&["q"]));
    assert!(files.is_empty());
    let (dirs, files) = list_children(&d, "x");
    assert!(dirs.is_empty());
    assert_eq!(files, vec![2usize]);
}

#[test]
fn trailing_slash_of_prefix_does_not_matter() {
    let d = archive(&["a/b/c", "a/d"]);
    assert_eq!(list_children(&d, "a/"), list_children(&d, "a"));
    let (dirs, files) = list_children(&d, "a/");
    assert_eq!(dirs, names(&["b"]));
    assert_eq!(files, vec![1usize]);
}

#[test]
fn listing_is_the_same_each_time() {
    let d = archive(&["b/1", "A/2", "c.txt", "a/3", "B/4", "d.txt", "C/x/y"]);
    let first = list_children(&d, "");
    for _ in 0..5 {
        assert_eq!(list_children(&d, ""), first);
    }
    assert_eq!(first.0, names(&["A", "b", "C"]));
    assert_eq!(first.1, vec![2usize, 5]);
}

#[test]
fn duplicate_paths_are_both_listed() {
    let d = archive(&["same.txt", "same.txt", "SAME.TXT"]);
    let (dirs, files) = list_children(&d, "");
    assert!(dirs.is_empty());
    assert_eq!(files, vec![0usize, 1, 2]);
}
