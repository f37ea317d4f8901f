//! What holds of the library as a whole, proved from the contracts of its
//! functions.

use vstd::prelude::*;
use crate::archive::{
    find_index, is_first_match, lemma_find_index_some, placeholder_entries, total_size, EntryView,
    PLACEHOLDER_FILE_NAME,
};
use crate::enumerate::CursorView;
use crate::listing::{
    directory_names, directory_segment, file_indices, first_gives, gives_like, holds_index,
    holds_like, holds_name, is_file_child, lemma_directory_names_complete, lists_directories,
    lists_files, sorted_by_fold,
};
use crate::path::{
    directory_lead, falls_under, join_spec, lemma_first_separator, lemma_first_separator_is,
    lemma_join_like, lemma_relative_ignores_prefix_case, lemma_trim_end_separators_is,
    lemma_trim_start_separators_is, relative_spec,
};
use crate::storage::{
    has_directory, resolve_child, same_child, size_under, with_backslashes, ChildView,
};
use crate::text::{
    eq_ignore_case, fold, fold_char, fold_less, is_separator, lemma_eq_ignore_case_reflexive,
    lemma_eq_ignore_case_symmetric, lemma_eq_ignore_case_transitive, lemma_fold_keeps_separators,
    lemma_lex_irreflexive, lemma_lex_total, lemma_trim_end_char_is, lemma_trim_start_char_is,
    name_before,
};

verus! {

/// A name of one segment: not empty and without a separator.
pub open spec fn is_name(name: Seq<char>) -> bool {
    name.len() > 0 && forall|i: int| 0 <= i < name.len() ==> !is_separator(#[trigger] name[i])
}

/// The path of the given segments: the segments with `/` between them.
pub open spec fn joined(segments: Seq<Seq<char>>) -> Seq<char>
    decreases segments.len(),
{
    if segments.len() == 0 {
        Seq::empty()
    } else if segments.len() == 1 {
        segments[0]
    } else {
        joined(segments.drop_last()) + seq!['/'] + segments.last()
    }
}

/// Some entry lies below `prefix` and has `name` as its first segment
/// behind the prefix, with more segments behind it.
pub open spec fn is_directory_of_an_entry(entries: Seq<EntryView>, prefix: Seq<char>, name: Seq<char>) -> bool {
    exists|at: int|
        0 <= at < entries.len() && falls_under(prefix, entries[at].path) && #[trigger] directory_segment(
            prefix,
            entries[at].path,
        ) == Some(name)
}

/// Two sorted lists of names that hold the same names are the same list.
pub proof fn lemma_sorted_names_unique(a: Seq<Seq<char>>, b: Seq<Seq<char>>)
    requires
        sorted_by_fold(a),
        sorted_by_fold(b),
        forall|k: int| 0 <= k < a.len() ==> holds_name(b, #[trigger] a[k]),
        forall|k: int| 0 <= k < b.len() ==> holds_name(a, #[trigger] b[k]),
    ensures
        a == b,
    decreases a.len(),
{
    if a.len() == 0 {
        if b.len() > 0 {
            assert(holds_name(a, b[0]));
        }
        assert(a =~= b);
    } else {
        assert(holds_name(b, a[0]));
        let j = choose|j: int| 0 <= j < b.len() && #[trigger] b[j] == a[0];
        assert(holds_name(a, b[0]));
        let i = choose|i: int| 0 <= i < a.len() && #[trigger] a[i] == b[0];
        if i > 0 && j > 0 {
            assert(fold_less(a[0], a[i]));
            assert(fold_less(b[0], b[j]));
            lemma_lex_total(fold(a[0]), fold(b[0]));
        }
        assert(a[0] == b[0]);
        let a1 = a.drop_first();
        let b1 = b.drop_first();
        assert forall|x: int, y: int| 0 <= x < y < a1.len() implies fold_less(
            #[trigger] a1[x],
            #[trigger] a1[y],
        ) by {
            assert(a1[x] == a[x + 1] && a1[y] == a[y + 1]);
        }
        assert forall|x: int, y: int| 0 <= x < y < b1.len() implies fold_less(
            #[trigger] b1[x],
            #[trigger] b1[y],
        ) by {
            assert(b1[x] == b[x + 1] && b1[y] == b[y + 1]);
        }
        assert forall|k: int| 0 <= k < a1.len() implies holds_name(b1, #[trigger] a1[k]) by {
            assert(a1[k] == a[k + 1]);
            assert(holds_name(b, a[k + 1]));
            let m = choose|m: int| 0 <= m < b.len() && #[trigger] b[m] == a[k + 1];
            assert(fold_less(a[0], a[k + 1]));
            lemma_lex_irreflexive(fold(a[0]));
            assert(m > 0);
            assert(b1[m - 1] == a1[k]);
        }
        assert forall|k: int| 0 <= k < b1.len() implies holds_name(a1, #[trigger] b1[k]) by {
            assert(b1[k] == b[k + 1]);
            assert(holds_name(a, b[k + 1]));
            let m = choose|m: int| 0 <= m < a.len() && #[trigger] a[m] == b[k + 1];
            assert(fold_less(b[0], b[k + 1]));
            lemma_lex_irreflexive(fold(b[0]));
            assert(m > 0);
            assert(a1[m - 1] == b1[k]);
        }
        lemma_sorted_names_unique(a1, b1);
        assert(a =~= seq![a[0]] + a1);
        assert(b =~= seq![b[0]] + b1);
    }
}

/// Two ascending lists of indices that hold the same indices are the same
/// list.
pub proof fn lemma_ascending_indices_unique(a: Seq<int>, b: Seq<int>)
    requires
        forall|x: int, y: int| 0 <= x < y < a.len() ==> #[trigger] a[x] < #[trigger] a[y],
        forall|x: int, y: int| 0 <= x < y < b.len() ==> #[trigger] b[x] < #[trigger] b[y],
        forall|k: int| 0 <= k < a.len() ==> holds_index(b, #[trigger] a[k]),
        forall|k: int| 0 <= k < b.len() ==> holds_index(a, #[trigger] b[k]),
    ensures
        a == b,
    decreases a.len(),
{
    if a.len() == 0 {
        if b.len() > 0 {
            assert(holds_index(a, b[0]));
        }
        assert(a =~= b);
    } else {
        assert(holds_index(b, a[0]));
        let j = choose|j: int| 0 <= j < b.len() && #[trigger] b[j] == a[0];
        assert(holds_index(a, b[0]));
        let i = choose|i: int| 0 <= i < a.len() && #[trigger] a[i] == b[0];
        if i > 0 && j > 0 {
            assert(a[0] < a[i]);
            assert(b[0] < b[j]);
        }
        assert(a[0] == b[0]);
        let a1 = a.drop_first();
        let b1 = b.drop_first();
        assert forall|x: int, y: int| 0 <= x < y < a1.len() implies #[trigger] a1[x] < #[trigger] a1[y] by {
            assert(a1[x] == a[x + 1] && a1[y] == a[y + 1]);
        }
        assert forall|x: int, y: int| 0 <= x < y < b1.len() implies #[trigger] b1[x] < #[trigger] b1[y] by {
            assert(b1[x] == b[x + 1] && b1[y] == b[y + 1]);
        }
        assert forall|k: int| 0 <= k < a1.len() implies holds_index(b1, #[trigger] a1[k]) by {
            assert(a1[k] == a[k + 1]);
            assert(holds_index(b, a[k + 1]));
            let m = choose|m: int| 0 <= m < b.len() && #[trigger] b[m] == a[k + 1];
            assert(a[0] < a[k + 1]);
            assert(m > 0);
            assert(b1[m - 1] == a1[k]);
        }
        assert forall|k: int| 0 <= k < b1.len() implies holds_index(a1, #[trigger] b1[k]) by {
            assert(b1[k] == b[k + 1]);
            assert(holds_index(a, b[k + 1]));
            let m = choose|m: int| 0 <= m < a.len() && #[trigger] a[m] == b[k + 1];
            assert(b[0] < b[k + 1]);
            assert(m > 0);
            assert(a1[m - 1] == b1[k]);
        }
        lemma_ascending_indices_unique(a1, b1);
        assert(a =~= seq![a[0]] + a1);
        assert(b =~= seq![b[0]] + b1);
    }
}

/// A name of one list of the directories of `prefix` stands in every other
/// list of them, written the same way.
pub proof fn lemma_listed_name_is_shared(
    entries: Seq<EntryView>,
    prefix: Seq<char>,
    names: Seq<Seq<char>>,
    others: Seq<Seq<char>>,
    k: int,
)
    requires
        lists_directories(entries, prefix, names),
        lists_directories(entries, prefix, others),
        0 <= k < names.len(),
    ensures
        holds_name(others, names[k]),
{
    let name = names[k];
    let at = choose|at: int| first_gives(entries, prefix, at, name);
    assert(first_gives(entries, prefix, at, name));
    assert(holds_like(others, name));
    let m = choose|m: int| 0 <= m < others.len() && eq_ignore_case(#[trigger] others[m], name);
    let other = others[m];
    let at2 = choose|at2: int| first_gives(entries, prefix, at2, other);
    assert(first_gives(entries, prefix, at2, other));
    lemma_eq_ignore_case_symmetric(other, name);
    if at < at2 {
        assert(gives_like(entries, prefix, at, other));
    } else if at2 < at {
        assert(gives_like(entries, prefix, at2, name));
    }
    assert(other == name);
}

/// Listing the children of a directory has one result only: whatever
/// meets the description of the list of its directories and of the list of
/// its files is the same lists, in content and in order. So two listings of
/// one directory of one archive are equal.
pub proof fn listing_is_determined(
    entries: Seq<EntryView>,
    prefix: Seq<char>,
    names: Seq<Seq<char>>,
    files: Seq<int>,
    other_names: Seq<Seq<char>>,
    other_files: Seq<int>,
)
    requires
        lists_directories(entries, prefix, names),
        lists_files(entries, prefix, files),
        lists_directories(entries, prefix, other_names),
        lists_files(entries, prefix, other_files),
    ensures
        names == other_names,
        files == other_files,
{
    assert forall|k: int| 0 <= k < names.len() implies holds_name(other_names, #[trigger] names[k]) by {
        lemma_listed_name_is_shared(entries, prefix, names, other_names, k);
    }
    assert forall|k: int| 0 <= k < other_names.len() implies holds_name(
        names,
        #[trigger] other_names[k],
    ) by {
        lemma_listed_name_is_shared(entries, prefix, other_names, names, k);
    }
    lemma_sorted_names_unique(names, other_names);
    assert forall|k: int| 0 <= k < files.len() implies holds_index(other_files, #[trigger] files[k]) by {
        let j = files[k];
        assert(is_file_child(prefix, entries[j].path));
    }
    assert forall|k: int| 0 <= k < other_files.len() implies holds_index(
        files,
        #[trigger] other_files[k],
    ) by {
        let j = other_files[k];
        assert(is_file_child(prefix, entries[j].path));
    }
    lemma_ascending_indices_unique(files, other_files);
}

/// What a directory lists lies below it: each listed file is an entry
/// whose path begins with the prefix of the directory and a `/`, ASCII
/// case aside, and each listed directory name is the first segment, behind
/// the prefix, of such an entry. Below the root lies everything.
pub proof fn listed_children_lie_below(
    entries: Seq<EntryView>,
    prefix: Seq<char>,
    names: Seq<Seq<char>>,
    files: Seq<int>,
)
    requires
        lists_directories(entries, prefix, names),
        lists_files(entries, prefix, files),
    ensures
        forall|k: int|
            0 <= k < files.len() ==> 0 <= #[trigger] files[k] < entries.len() && falls_under(
                prefix,
                entries[files[k]].path,
            ),
        forall|k: int|
            0 <= k < names.len() ==> is_directory_of_an_entry(entries, prefix, #[trigger] names[k]),
{
    assert forall|k: int| 0 <= k < names.len() implies is_directory_of_an_entry(
        entries,
        prefix,
        #[trigger] names[k],
    ) by {
        let at = choose|at: int| first_gives(entries, prefix, at, names[k]);
        assert(first_gives(entries, prefix, at, names[k]));
        assert(directory_segment(prefix, entries[at].path) == Some(names[k]));
    }
}

/// Every listed directory has a name: its name is not empty and holds no
/// separator.
pub proof fn listed_directories_have_names(entries: Seq<EntryView>, prefix: Seq<char>, names: Seq<Seq<char>>)
    requires
        lists_directories(entries, prefix, names),
    ensures
        forall|k: int| 0 <= k < names.len() ==> is_name(#[trigger] names[k]),
{
    assert forall|k: int| 0 <= k < names.len() implies is_name(#[trigger] names[k]) by {
        let at = choose|at: int| first_gives(entries, prefix, at, names[k]);
        assert(first_gives(entries, prefix, at, names[k]));
        let rel = relative_spec(prefix, entries[at].path)->0;
        lemma_first_separator(rel);
        assert forall|i: int| 0 <= i < names[k].len() implies !is_separator(
            #[trigger] names[k][i],
        ) by {
            assert(names[k][i] == rel[i]);
        }
    }
}

/// The listed directories stand in the order of names: by folded text, and
/// by the text as written where two fold to the same.
pub proof fn listed_directories_stand_in_order(names: Seq<Seq<char>>)
    requires
        sorted_by_fold(names),
    ensures
        forall|i: int, j: int|
            0 <= i < j < names.len() ==> name_before(#[trigger] names[i], #[trigger] names[j]),
{
}

/// Everything lies below the root: the size below the empty prefix is the
/// sum of the sizes of all entries.
pub proof fn root_size_is_total_size(entries: Seq<EntryView>)
    ensures
        size_under(entries, Seq::empty()) == total_size(entries),
    decreases entries.len(),
{
    if entries.len() > 0 {
        root_size_is_total_size(entries.drop_last());
    }
}

/// A placeholder archive holds one entry, which bears the placeholder's
/// name, and the size below its root is the number of bytes of that entry.
pub proof fn placeholder_is_one_entry(message: Seq<char>)
    ensures
        placeholder_entries(message).len() == 1,
        placeholder_entries(message)[0].path == PLACEHOLDER_FILE_NAME@,
        size_under(placeholder_entries(message), Seq::empty()) == placeholder_entries(
            message,
        )[0].data.len(),
{
    let entries = placeholder_entries(message);
    assert(entries.drop_last() =~= Seq::<EntryView>::empty());
    assert(size_under(entries.drop_last(), Seq::empty()) == 0);
}

/// An entry is the first of a path exactly when it is the first of any
/// other casing of that path.
pub proof fn lemma_find_index_like(entries: Seq<EntryView>, name: Seq<char>, other: Seq<char>)
    requires
        eq_ignore_case(name, other),
    ensures
        find_index(entries, name) == find_index(entries, other),
{
    lemma_eq_ignore_case_symmetric(name, other);
    assert forall|j: int| 0 <= j < entries.len() implies eq_ignore_case(
        (#[trigger] entries[j]).path,
        name,
    ) == eq_ignore_case(entries[j].path, other) by {
        if eq_ignore_case(entries[j].path, name) {
            lemma_eq_ignore_case_transitive(entries[j].path, name, other);
        }
        if eq_ignore_case(entries[j].path, other) {
            lemma_eq_ignore_case_transitive(entries[j].path, other, name);
        }
    }
    if exists|i: int| is_first_match(entries, name, i) {
        let i = choose|i: int| is_first_match(entries, name, i);
        assert(is_first_match(entries, other, i));
        lemma_find_index_some(entries, name, i);
        lemma_find_index_some(entries, other, i);
    } else if exists|i: int| is_first_match(entries, other, i) {
        let i = choose|i: int| is_first_match(entries, other, i);
        assert(is_first_match(entries, name, i));
    }
}

/// Writing `\` for `/` in two paths that are equal, ASCII case aside,
/// gives two such paths.
pub proof fn lemma_with_backslashes_like(path: Seq<char>, other: Seq<char>)
    requires
        eq_ignore_case(path, other),
    ensures
        eq_ignore_case(with_backslashes(path), with_backslashes(other)),
{
    let x = with_backslashes(path);
    let y = with_backslashes(other);
    assert forall|i: int| 0 <= i < x.len() implies fold_char(#[trigger] x[i]) == fold_char(y[i]) by {
        assert(fold_char(path[i]) == fold_char(other[i]));
        lemma_fold_keeps_separators(path[i], other[i]);
    }
}

/// A list holds a name in some casing exactly when it holds any other
/// casing of the name in some casing.
pub proof fn lemma_holds_like(names: Seq<Seq<char>>, name: Seq<char>, other: Seq<char>)
    requires
        eq_ignore_case(name, other),
    ensures
        holds_like(names, name) == holds_like(names, other),
{
    lemma_eq_ignore_case_symmetric(name, other);
    if holds_like(names, name) {
        let k = choose|k: int| 0 <= k < names.len() && eq_ignore_case(#[trigger] names[k], name);
        lemma_eq_ignore_case_transitive(names[k], name, other);
    }
    if holds_like(names, other) {
        let k = choose|k: int| 0 <= k < names.len() && eq_ignore_case(#[trigger] names[k], other);
        lemma_eq_ignore_case_transitive(names[k], other, name);
    }
}

/// The children of a directory, and the size below it, do not depend on
/// the casing of its prefix.
pub proof fn directory_ignores_prefix_case(entries: Seq<EntryView>, prefix: Seq<char>, other: Seq<char>)
    requires
        eq_ignore_case(prefix, other),
    ensures
        directory_names(entries, prefix) == directory_names(entries, other),
        file_indices(entries, prefix) == file_indices(entries, other),
        size_under(entries, prefix) == size_under(entries, other),
    decreases entries.len(),
{
    if entries.len() > 0 {
        directory_ignores_prefix_case(entries.drop_last(), prefix, other);
        lemma_relative_ignores_prefix_case(prefix, other, entries.last().path);
    }
}

/// A name resolves to the same child in whatever casing it is written,
/// and in whatever casing the prefix of the directory is written: to the
/// same entry, or to a directory with the same children.
pub proof fn child_resolution_ignores_case(
    entries: Seq<EntryView>,
    prefix: Seq<char>,
    name: Seq<char>,
    other_prefix: Seq<char>,
    other_name: Seq<char>,
)
    requires
        eq_ignore_case(prefix, other_prefix),
        eq_ignore_case(name, other_name),
    ensures
        same_child(
            resolve_child(entries, prefix, name),
            resolve_child(entries, other_prefix, other_name),
        ),
{
    directory_ignores_prefix_case(entries, prefix, other_prefix);
    lemma_holds_like(directory_names(entries, prefix), name, other_name);
    lemma_join_like(prefix, name, other_prefix, other_name);
    let full = join_spec(prefix, name);
    let other_full = join_spec(other_prefix, other_name);
    lemma_find_index_like(entries, full, other_full);
    lemma_with_backslashes_like(full, other_full);
    lemma_find_index_like(entries, with_backslashes(full), with_backslashes(other_full));
}

/// The path of names is not empty and ends in no separator.
pub proof fn lemma_joined_ends_in_name(segments: Seq<Seq<char>>)
    requires
        segments.len() >= 1,
        is_name(segments.last()),
    ensures
        joined(segments).len() > 0,
        !is_separator(joined(segments).last()),
{
    let last = segments.last();
    assert(!is_separator(last[last.len() - 1]));
    if segments.len() > 1 {
        assert(joined(segments).last() == last[last.len() - 1]);
    }
}

/// Joining the path of names with one more name gives the path of them
/// all.
pub proof fn lemma_joined_push(segments: Seq<Seq<char>>, name: Seq<char>)
    requires
        forall|k: int| 0 <= k < segments.len() ==> is_name(#[trigger] segments[k]),
        is_name(name),
    ensures
        join_spec(joined(segments), name) == joined(segments.push(name)),
{
    let all = segments.push(name);
    assert(all.drop_last() =~= segments);
    assert(!is_separator(name[0]));
    lemma_trim_start_char_is(name, '/', 0);
    assert(name.skip(0) =~= name);
    if segments.len() == 0 {
    } else {
        lemma_joined_ends_in_name(segments);
        let prefix = joined(segments);
        lemma_trim_end_char_is(prefix, '/', prefix.len() as int);
        assert(prefix.take(prefix.len() as int) =~= prefix);
        assert(join_spec(prefix, name) =~= prefix + seq!['/'] + name);
    }
}

/// The path of segments is the path of the first of them, a `/`, and the
/// path of the others, wherever the segments are parted.
pub proof fn lemma_joined_split(segments: Seq<Seq<char>>, k: int)
    requires
        0 < k < segments.len(),
    ensures
        joined(segments) == joined(segments.take(k)) + seq!['/'] + joined(segments.skip(k)),
    decreases segments.len(),
{
    let init = segments.drop_last();
    let last = segments.last();
    if k == segments.len() - 1 {
        assert(segments.take(k) =~= init);
        assert(segments.skip(k) =~= seq![last]);
    } else {
        lemma_joined_split(init, k);
        assert(init.take(k) =~= segments.take(k));
        let tail = segments.skip(k);
        assert(tail.drop_last() =~= init.skip(k));
        assert(tail.last() == last);
        assert(joined(tail) == joined(init.skip(k)) + seq!['/'] + last);
        assert(joined(segments) =~= joined(segments.take(k)) + seq!['/'] + joined(tail));
    }
}

/// An entry whose path goes on behind the name of a directory gives that
/// name to the list of directories: below a prefix that is empty or does
/// not end in `/`, the path made of the prefix, a name and more segments
/// has that name as its directory segment.
pub proof fn lemma_segment_below(prefix: Seq<char>, name: Seq<char>, rest: Seq<char>)
    requires
        prefix.len() == 0 || prefix.last() != '/',
        is_name(name),
        rest.len() > 0,
        !is_separator(rest.last()),
    ensures
        directory_segment(prefix, join_spec(prefix, name) + seq!['/'] + rest) == Some(name),
{
    let path = join_spec(prefix, name) + seq!['/'] + rest;
    let tail = name + seq!['/'] + rest;
    assert(!is_separator(name[0]));
    assert forall|j: int| 0 <= j < name.len() implies !is_separator(#[trigger] tail[j]) by {
        assert(tail[j] == name[j]);
    }
    assert(tail[name.len() as int] == '/');
    lemma_first_separator_is(tail, name.len() as int);
    assert(tail.take(name.len() as int) =~= name);
    assert(tail.skip(name.len() as int + 1) =~= rest);
    if prefix.len() == 0 {
        assert(path =~= tail);
    } else {
        lemma_trim_end_char_is(prefix, '/', prefix.len() as int);
        assert(prefix.take(prefix.len() as int) =~= prefix);
        lemma_trim_start_char_is(name, '/', 0);
        assert(name.skip(0) =~= name);
        let lead = directory_lead(prefix);
        assert(path =~= lead + tail);
        assert(path.take(lead.len() as int) =~= lead);
        lemma_eq_ignore_case_reflexive(lead);
        assert(path.skip(lead.len() as int) =~= tail);
        assert(tail[0] == name[0]);
        lemma_trim_start_separators_is(tail, 0);
        assert(tail.skip(0) =~= tail);
        assert(tail[tail.len() - 1] == rest.last());
        lemma_trim_end_separators_is(tail, tail.len() as int);
        assert(tail.take(tail.len() as int) =~= tail);
        assert(relative_spec(prefix, path) == Some(tail));
    }
}

/// One step down towards an entry: where the path of entry `at` is made of
/// names, the name behind its first `k` names, which is not its last, names
/// a directory below the path of those `k` names, and opens the directory
/// of the path of `k + 1` names.
pub proof fn lemma_step_down(entries: Seq<EntryView>, segments: Seq<Seq<char>>, at: int, k: int)
    requires
        forall|i: int| 0 <= i < segments.len() ==> is_name(#[trigger] segments[i]),
        0 <= at < entries.len(),
        entries[at].path == joined(segments),
        0 <= k < segments.len() - 1,
    ensures
        resolve_child(entries, joined(segments.take(k)), segments[k]) == ChildView::Directory(
            joined(segments.take(k + 1)),
        ),
{
    let above = segments.take(k);
    let prefix = joined(above);
    let name = segments[k];
    let below = segments.skip(k + 1);
    assert(above.push(name) =~= segments.take(k + 1));
    assert forall|i: int| 0 <= i < above.len() implies is_name(#[trigger] above[i]) by {
        assert(above[i] == segments[i]);
    }
    lemma_joined_push(above, name);
    lemma_joined_split(segments, k + 1);
    assert(below.last() == segments.last());
    lemma_joined_ends_in_name(below);
    if k > 0 {
        assert(above.last() == segments[k - 1]);
        lemma_joined_ends_in_name(above);
    }
    lemma_segment_below(prefix, name, joined(below));
    lemma_directory_names_complete(entries, prefix, at);
}

/// The way down to an entry leads to it. Where the path of an entry is
/// made of names with `/` between them, and the entry is the first of its
/// path, ASCII case aside: from the root, each name but the last opens the
/// directory of the path so far, and the last name, unless a directory
/// bears it, opens the entry itself. `open_child` then hands out a stream
/// of the bytes of that entry.
pub proof fn path_leads_to_its_entry(entries: Seq<EntryView>, segments: Seq<Seq<char>>, at: int)
    requires
        segments.len() >= 1,
        forall|i: int| 0 <= i < segments.len() ==> is_name(#[trigger] segments[i]),
        is_first_match(entries, joined(segments), at),
        entries[at].path == joined(segments),
        !has_directory(entries, joined(segments.drop_last()), segments.last()),
    ensures
        forall|k: int|
            0 <= k < segments.len() - 1 ==> #[trigger] resolve_child(
                entries,
                joined(segments.take(k)),
                segments[k],
            ) == ChildView::Directory(joined(segments.take(k + 1))),
        resolve_child(entries, joined(segments.drop_last()), segments.last()) == ChildView::File(
            at,
        ),
{
    assert forall|k: int| 0 <= k < segments.len() - 1 implies #[trigger] resolve_child(
        entries,
        joined(segments.take(k)),
        segments[k],
    ) == ChildView::Directory(joined(segments.take(k + 1))) by {
        lemma_step_down(entries, segments, at, k);
    }
    let above = segments.drop_last();
    assert forall|i: int| 0 <= i < above.len() implies is_name(#[trigger] above[i]) by {
        assert(above[i] == segments[i]);
    }
    lemma_joined_push(above, segments.last());
    assert(above.push(segments.last()) =~= segments);
    lemma_find_index_some(entries, joined(segments), at);
}

/// Moving a cursor on twice is moving it on once by the sum. A cursor and
/// its copy are two values: where the copy is moved on, the cursor stays
/// at its own position, and the copy stands where the cursor would after
/// the same moves.
pub proof fn cursor_moves_add_up(cursor: CursorView, first: nat, second: nat)
    requires
        cursor.wf(),
    ensures
        cursor.moved(first).wf(),
        cursor.moved(first).moved(second) == cursor.moved(first + second),
        cursor.moved(first).items() == cursor.items(),
{
}

/// A cursor that was moved on by more items than it had left stands at the
/// end of its items.
pub proof fn cursor_is_exhausted_past_the_end(cursor: CursorView, count: nat)
    requires
        cursor.wf(),
        !cursor.has(count),
    ensures
        cursor.advanced(count) == cursor.items().len(),
{
}

/// A cursor at the end of its items hands out nothing more: asked for one
/// item or more, it gives none, says that the count was not met, and stays
/// where it is.
pub proof fn exhausted_cursor_gives_nothing(cursor: CursorView, count: nat)
    requires
        cursor.position == cursor.items().len(),
        count >= 1,
    ensures
        cursor.emitted(count).len() == 0,
        !cursor.has(count),
        cursor.advanced(count) == cursor.position,
{
}

} // verus!
