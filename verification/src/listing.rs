//! The children of a directory, synthesized from the flat list of entries:
//! the names of the directories directly below it, and the entries that are
//! files directly in it.

use vstd::prelude::*;
use crate::archive::{entry_views, EntryView, MpqArchiveDescriptor};
use crate::path::{
    after_first_segment, first_segment, relative_chars, relative_spec, split_first_segment_chars,
};
use crate::text::{
    chars_of, compare_folded, eq_ignore_case, fold, fold_less, lemma_fold_eq, lemma_lex_total,
    string_of, NameOrder,
};

verus! {

/// The directory directly below `prefix` through which `path` is reached:
/// the first segment of the path relative to `prefix`, where more follows
/// that segment. A directory has a name: an empty first segment is none.
/// `None` too where `path` is not below `prefix`, or is a file directly in
/// it.
pub open spec fn directory_segment(prefix: Seq<char>, path: Seq<char>) -> Option<Seq<char>> {
    match relative_spec(prefix, path) {
        Some(rel) => if after_first_segment(rel).len() > 0 && first_segment(rel).len() > 0 {
            Some(first_segment(rel))
        } else {
            None
        },
        None => None,
    }
}

/// Whether `path` is a file directly in the directory `prefix`: below it,
/// with a relative path that is not empty and has one segment only.
pub open spec fn is_file_child(prefix: Seq<char>, path: Seq<char>) -> bool {
    match relative_spec(prefix, path) {
        Some(rel) => rel.len() > 0 && after_first_segment(rel).len() == 0,
        None => false,
    }
}

/// The indices of the entries that are files directly in `prefix`, in
/// ascending order.
pub open spec fn file_indices(entries: Seq<EntryView>, prefix: Seq<char>) -> Seq<int>
    decreases entries.len(),
{
    if entries.len() == 0 {
        Seq::empty()
    } else {
        let before = file_indices(entries.drop_last(), prefix);
        if is_file_child(prefix, entries.last().path) {
            before.push(entries.len() - 1)
        } else {
            before
        }
    }
}

/// Where `name` belongs in a list of names that is sorted by folded text:
/// the first index at which a name stands that is not before `name`.
pub open spec fn insertion_point(names: Seq<Seq<char>>, name: Seq<char>) -> int
    decreases names.len(),
{
    if names.len() == 0 || !fold_less(names.first(), name) {
        0
    } else {
        1 + insertion_point(names.drop_first(), name)
    }
}

/// The sorted list `names` with `name` added in its place, unless the list
/// already holds that name in some casing: the casing seen first stays.
pub open spec fn insert_name(names: Seq<Seq<char>>, name: Seq<char>) -> Seq<Seq<char>> {
    let at = insertion_point(names, name);
    if at < names.len() && eq_ignore_case(names[at], name) {
        names
    } else {
        names.insert(at, name)
    }
}

/// The names of the directories directly below `prefix`: one name for each
/// first segment that occurs, in the casing of its first occurrence, sorted
/// by folded text.
pub open spec fn directory_names(entries: Seq<EntryView>, prefix: Seq<char>) -> Seq<Seq<char>>
    decreases entries.len(),
{
    if entries.len() == 0 {
        Seq::empty()
    } else {
        let before = directory_names(entries.drop_last(), prefix);
        match directory_segment(prefix, entries.last().path) {
            Some(segment) => insert_name(before, segment),
            None => before,
        }
    }
}

/// The names stand in strictly ascending order of their folded text, so no
/// two of them are equal, ASCII case aside.
pub open spec fn sorted_by_fold(names: Seq<Seq<char>>) -> bool {
    forall|i: int, j: int| 0 <= i < j < names.len() ==> fold_less(#[trigger] names[i], #[trigger] names[j])
}

/// The list holds `name` as it is written.
pub open spec fn holds_name(names: Seq<Seq<char>>, name: Seq<char>) -> bool {
    exists|k: int| 0 <= k < names.len() && #[trigger] names[k] == name
}

/// The list holds `name` in some casing.
pub open spec fn holds_like(names: Seq<Seq<char>>, name: Seq<char>) -> bool {
    exists|k: int| 0 <= k < names.len() && eq_ignore_case(#[trigger] names[k], name)
}

/// Entry `at` gives a directory segment that is `name`, ASCII case aside.
pub open spec fn gives_like(entries: Seq<EntryView>, prefix: Seq<char>, at: int, name: Seq<char>) -> bool {
    directory_segment(prefix, entries[at].path) is Some && eq_ignore_case(
        directory_segment(prefix, entries[at].path)->0,
        name,
    )
}

/// Entry `at` gives the directory segment `name`, and no entry before it
/// gives that name in any casing.
pub open spec fn first_gives(entries: Seq<EntryView>, prefix: Seq<char>, at: int, name: Seq<char>) -> bool {
    &&& 0 <= at < entries.len()
    &&& directory_segment(prefix, entries[at].path) == Some(name)
    &&& forall|j: int| 0 <= j < at ==> !#[trigger] gives_like(entries, prefix, j, name)
}

/// Some entry gives the directory segment `name`, and no entry before it
/// gives that name in any casing.
pub open spec fn first_given(entries: Seq<EntryView>, prefix: Seq<char>, name: Seq<char>) -> bool {
    exists|at: int| first_gives(entries, prefix, at, name)
}

/// `names` is the list of the directories directly below `prefix`: sorted
/// by folded text; each name in the casing of the first entry that gives
/// it; and a name for each segment that some entry gives.
pub open spec fn lists_directories(entries: Seq<EntryView>, prefix: Seq<char>, names: Seq<Seq<char>>) -> bool {
    &&& sorted_by_fold(names)
    &&& forall|k: int| 0 <= k < names.len() ==> first_given(entries, prefix, #[trigger] names[k])
    &&& forall|j: int|
        0 <= j < entries.len() && directory_segment(prefix, (#[trigger] entries[j]).path) is Some
            ==> holds_like(names, directory_segment(prefix, entries[j].path)->0)
}

/// The list holds the index `index`.
pub open spec fn holds_index(indices: Seq<int>, index: int) -> bool {
    exists|k: int| 0 <= k < indices.len() && #[trigger] indices[k] == index
}

/// `indices` is the list of the files directly in `prefix`: ascending
/// indices of entries, each a file directly in `prefix`, and none of those
/// left out.
pub open spec fn lists_files(entries: Seq<EntryView>, prefix: Seq<char>, indices: Seq<int>) -> bool {
    &&& forall|a: int, b: int| 0 <= a < b < indices.len() ==> #[trigger] indices[a] < #[trigger] indices[b]
    &&& forall|k: int|
        0 <= k < indices.len() ==> 0 <= #[trigger] indices[k] < entries.len() && is_file_child(
            prefix,
            entries[indices[k]].path,
        )
    &&& forall|j: int|
        0 <= j < entries.len() && is_file_child(prefix, (#[trigger] entries[j]).path)
            ==> holds_index(indices, j)
}

/// The names that a list of character vectors holds.
pub open spec fn names_of(list: Seq<Vec<char>>) -> Seq<Seq<char>> {
    Seq::new(list.len(), |i: int| list[i]@)
}

/// Indices as mathematical integers.
pub open spec fn indices_of(list: Seq<usize>) -> Seq<int> {
    Seq::new(list.len(), |i: int| list[i] as int)
}

/// Two names that are equal, ASCII case aside, are not before each other
/// by folded text; of two that are not equal so, one is before the other.
pub proof fn lemma_fold_order(a: Seq<char>, b: Seq<char>)
    ensures
        eq_ignore_case(a, b) ==> !fold_less(a, b) && !fold_less(b, a),
        !eq_ignore_case(a, b) ==> (fold_less(a, b) != fold_less(b, a)),
{
    lemma_fold_eq(a, b);
    lemma_lex_total(fold(a), fold(b));
}

/// The insertion point lies within the list or at its end; every name
/// before it is before `name`, and the name at it is not.
pub proof fn lemma_insertion_point(names: Seq<Seq<char>>, name: Seq<char>)
    ensures
        0 <= insertion_point(names, name) <= names.len(),
        forall|j: int| 0 <= j < insertion_point(names, name) ==> fold_less(#[trigger] names[j], name),
        insertion_point(names, name) < names.len() ==> !fold_less(
            names[insertion_point(names, name)],
            name,
        ),
    decreases names.len(),
{
    if names.len() == 0 || !fold_less(names.first(), name) {
    } else {
        let rest = names.drop_first();
        lemma_insertion_point(rest, name);
        assert forall|j: int| 0 <= j < insertion_point(names, name) implies fold_less(
            #[trigger] names[j],
            name,
        ) by {
            if j > 0 {
                assert(names[j] == rest[j - 1]);
            }
        }
        if insertion_point(names, name) < names.len() {
            assert(names[insertion_point(names, name)] == rest[insertion_point(rest, name)]);
        }
    }
}

/// An index before which every name is before `name`, and at which the
/// list ends or a name stands that is not before `name`, is the insertion
/// point.
pub proof fn lemma_insertion_point_is(names: Seq<Seq<char>>, name: Seq<char>, at: int)
    requires
        0 <= at <= names.len(),
        forall|j: int| 0 <= j < at ==> fold_less(#[trigger] names[j], name),
        at < names.len() ==> !fold_less(names[at], name),
    ensures
        insertion_point(names, name) == at,
    decreases names.len(),
{
    if at > 0 {
        assert(fold_less(names[0], name));
        let rest = names.drop_first();
        assert forall|j: int| 0 <= j < at - 1 implies fold_less(#[trigger] rest[j], name) by {
            assert(rest[j] == names[j + 1]);
        }
        if at < names.len() {
            assert(rest[at - 1] == names[at]);
        }
        lemma_insertion_point_is(rest, name, at - 1);
    }
}

/// In a sorted list, only the name at the insertion point can be `name`
/// in some casing.
pub proof fn lemma_like_is_at_insertion_point(names: Seq<Seq<char>>, name: Seq<char>, k: int)
    requires
        sorted_by_fold(names),
        0 <= k < names.len(),
        eq_ignore_case(names[k], name),
    ensures
        k == insertion_point(names, name),
{
    lemma_insertion_point(names, name);
    let at = insertion_point(names, name);
    lemma_fold_order(names[k], name);
    lemma_fold_eq(names[k], name);
    if k < at {
        assert(fold_less(names[k], name));
    } else if k > at {
        assert(fold_less(names[at], names[k]));
        assert(fold(names[k]) == fold(name));
        assert(fold_less(names[at], name));
    }
}

/// Adding a name to a sorted list leaves a sorted list.
pub proof fn lemma_insert_name_sorted(names: Seq<Seq<char>>, name: Seq<char>)
    requires
        sorted_by_fold(names),
    ensures
        sorted_by_fold(insert_name(names, name)),
{
    lemma_insertion_point(names, name);
    let at = insertion_point(names, name);
    let result = insert_name(names, name);
    if at < names.len() && eq_ignore_case(names[at], name) {
    } else {
        assert forall|j: int| at <= j < names.len() implies fold_less(name, #[trigger] names[j]) by {
            lemma_fold_order(names[at], name);
            if j > at {
                assert(fold_less(names[at], names[j]));
                crate::text::lemma_lex_transitive(fold(name), fold(names[at]), fold(names[j]));
            }
        }
        assert forall|i: int, j: int| 0 <= i < j < result.len() implies fold_less(
            #[trigger] result[i],
            #[trigger] result[j],
        ) by {
            if j < at {
                assert(result[i] == names[i] && result[j] == names[j]);
            } else if j == at {
                assert(result[i] == names[i]);
            } else if i < at {
                assert(result[i] == names[i] && result[j] == names[j - 1]);
            } else if i == at {
                assert(result[j] == names[j - 1]);
            } else {
                assert(result[i] == names[i - 1] && result[j] == names[j - 1]);
            }
        }
    }
}

/// Adding a name to a list takes nothing out of it.
pub proof fn lemma_insert_name_keeps(names: Seq<Seq<char>>, name: Seq<char>, kept: Seq<char>)
    requires
        holds_name(names, kept),
    ensures
        holds_name(insert_name(names, name), kept),
{
    lemma_insertion_point(names, name);
    let at = insertion_point(names, name);
    let result = insert_name(names, name);
    let k = choose|k: int| 0 <= k < names.len() && #[trigger] names[k] == kept;
    if at < names.len() && eq_ignore_case(names[at], name) {
        assert(result[k] == kept);
    } else if k < at {
        assert(result[k] == kept);
    } else {
        assert(result[k + 1] == kept);
    }
}

/// After a name was added to a list, the list holds it in some casing.
pub proof fn lemma_insert_name_adds(names: Seq<Seq<char>>, name: Seq<char>)
    ensures
        holds_like(insert_name(names, name), name),
{
    lemma_insertion_point(names, name);
    let at = insertion_point(names, name);
    let result = insert_name(names, name);
    if at < names.len() && eq_ignore_case(names[at], name) {
        assert(eq_ignore_case(result[at], name));
    } else {
        assert(result[at] == name);
        crate::text::lemma_eq_ignore_case_reflexive(name);
        assert(eq_ignore_case(result[at], name));
    }
}

/// What a sorted list holds after a name was added, it held before, or it
/// is the added name and the list did not hold that name in any casing.
pub proof fn lemma_insert_name_origin(names: Seq<Seq<char>>, name: Seq<char>, m: int)
    requires
        sorted_by_fold(names),
        0 <= m < insert_name(names, name).len(),
    ensures
        holds_name(names, insert_name(names, name)[m]) || (insert_name(names, name)[m] == name
            && !holds_like(names, name)),
{
    lemma_insertion_point(names, name);
    let at = insertion_point(names, name);
    let result = insert_name(names, name);
    if at < names.len() && eq_ignore_case(names[at], name) {
        assert(names[m] == result[m]);
    } else if m < at {
        assert(names[m] == result[m]);
    } else if m > at {
        assert(names[m - 1] == result[m]);
    } else {
        assert(result[m] == name);
        if holds_like(names, name) {
            let k = choose|k: int| 0 <= k < names.len() && eq_ignore_case(#[trigger] names[k], name);
            lemma_like_is_at_insertion_point(names, name, k);
        }
    }
}

/// The names that `directory_names` gives are sorted.
pub proof fn lemma_directory_names_sorted(entries: Seq<EntryView>, prefix: Seq<char>)
    ensures
        sorted_by_fold(directory_names(entries, prefix)),
    decreases entries.len(),
{
    if entries.len() > 0 {
        let init = entries.drop_last();
        lemma_directory_names_sorted(init, prefix);
        match directory_segment(prefix, entries.last().path) {
            None => {},
            Some(segment) => {
                lemma_insert_name_sorted(directory_names(init, prefix), segment);
            },
        }
    }
}

/// What an entry gives, it gives in a longer list of entries too.
pub proof fn lemma_first_gives_extends(
    entries: Seq<EntryView>,
    prefix: Seq<char>,
    at: int,
    name: Seq<char>,
)
    requires
        entries.len() > 0,
        first_gives(entries.drop_last(), prefix, at, name),
    ensures
        first_gives(entries, prefix, at, name),
{
    let init = entries.drop_last();
    assert(init[at] == entries[at]);
    assert forall|j: int| 0 <= j < at implies !#[trigger] gives_like(entries, prefix, j, name) by {
        assert(init[j] == entries[j]);
        assert(!gives_like(init, prefix, j, name));
    }
}

/// `directory_names` holds a name for the segment that entry `j` gives.
pub proof fn lemma_directory_names_complete(entries: Seq<EntryView>, prefix: Seq<char>, j: int)
    requires
        0 <= j < entries.len(),
        directory_segment(prefix, entries[j].path) is Some,
    ensures
        holds_like(directory_names(entries, prefix), directory_segment(prefix, entries[j].path)->0),
    decreases entries.len(),
{
    let names = directory_names(entries, prefix);
    let init = entries.drop_last();
    let before = directory_names(init, prefix);
    let last = entries.len() - 1;
    let given = directory_segment(prefix, entries[j].path)->0;
    if j < last {
        assert(init[j] == entries[j]);
        lemma_directory_names_complete(init, prefix, j);
        let b = choose|b: int| 0 <= b < before.len() && eq_ignore_case(#[trigger] before[b], given);
        match directory_segment(prefix, entries.last().path) {
            None => {
                assert(names == before);
            },
            Some(segment) => {
                assert(names == insert_name(before, segment));
                assert(holds_name(before, before[b]));
                lemma_insert_name_keeps(before, segment, before[b]);
                let m = choose|m: int| 0 <= m < names.len() && #[trigger] names[m] == before[b];
                assert(eq_ignore_case(names[m], given));
            },
        }
    } else {
        assert(entries[j] == entries.last());
        assert(names == insert_name(before, given));
        lemma_insert_name_adds(before, given);
    }
}

/// Each name that `directory_names` holds is the segment that some entry
/// gives, in the casing of the first entry that gives it.
pub proof fn lemma_directory_names_sound(entries: Seq<EntryView>, prefix: Seq<char>, k: int)
    requires
        0 <= k < directory_names(entries, prefix).len(),
    ensures
        first_given(entries, prefix, directory_names(entries, prefix)[k]),
    decreases entries.len(),
{
    let names = directory_names(entries, prefix);
    let init = entries.drop_last();
    let before = directory_names(init, prefix);
    let last = entries.len() - 1;
    match directory_segment(prefix, entries.last().path) {
        None => {
            assert(names == before);
            lemma_directory_names_sound(init, prefix, k);
            let at = choose|at: int| first_gives(init, prefix, at, before[k]);
            lemma_first_gives_extends(entries, prefix, at, names[k]);
        },
        Some(segment) => {
            assert(names == insert_name(before, segment));
            lemma_directory_names_sorted(init, prefix);
            lemma_insert_name_origin(before, segment, k);
            if holds_name(before, names[k]) {
                let b = choose|b: int| 0 <= b < before.len() && #[trigger] before[b] == names[k];
                lemma_directory_names_sound(init, prefix, b);
                let at = choose|at: int| first_gives(init, prefix, at, before[b]);
                lemma_first_gives_extends(entries, prefix, at, names[k]);
            } else {
                assert(names[k] == segment && !holds_like(before, segment));
                assert forall|j: int| 0 <= j < last implies !#[trigger] gives_like(
                    entries,
                    prefix,
                    j,
                    segment,
                ) by {
                    if gives_like(entries, prefix, j, segment) {
                        assert(init[j] == entries[j]);
                        let given = directory_segment(prefix, entries[j].path)->0;
                        lemma_directory_names_complete(init, prefix, j);
                        let b = choose|b: int|
                            0 <= b < before.len() && eq_ignore_case(#[trigger] before[b], given);
                        crate::text::lemma_eq_ignore_case_transitive(before[b], given, segment);
                        assert(false);
                    }
                }
                assert(first_gives(entries, prefix, last, names[k]));
            }
        },
    }
}

/// The names that `directory_names` gives are the list of the directories
/// directly below `prefix`.
pub proof fn lemma_directory_names(entries: Seq<EntryView>, prefix: Seq<char>)
    ensures
        lists_directories(entries, prefix, directory_names(entries, prefix)),
{
    let names = directory_names(entries, prefix);
    lemma_directory_names_sorted(entries, prefix);
    assert forall|k: int| 0 <= k < names.len() implies first_given(
        entries,
        prefix,
        #[trigger] names[k],
    ) by {
        lemma_directory_names_sound(entries, prefix, k);
    }
    assert forall|j: int|
        0 <= j < entries.len() && directory_segment(
            prefix,
            (#[trigger] entries[j]).path,
        ) is Some implies holds_like(names, directory_segment(prefix, entries[j].path)->0) by {
        lemma_directory_names_complete(entries, prefix, j);
    }
}

/// The indices that `file_indices` gives are the list of the files
/// directly in `prefix`.
pub proof fn lemma_file_indices(entries: Seq<EntryView>, prefix: Seq<char>)
    ensures
        lists_files(entries, prefix, file_indices(entries, prefix)),
    decreases entries.len(),
{
    let indices = file_indices(entries, prefix);
    if entries.len() > 0 {
        let init = entries.drop_last();
        let before = file_indices(init, prefix);
        let last = entries.len() - 1;
        lemma_file_indices(init, prefix);
        assert forall|k: int| 0 <= k < before.len() implies before[k] < last && init[before[k]]
            == entries[#[trigger] before[k]] by {}
        assert forall|k: int| 0 <= k < indices.len() implies 0 <= #[trigger] indices[k]
            < entries.len() && is_file_child(prefix, entries[indices[k]].path) by {
            if k < before.len() {
                assert(indices[k] == before[k]);
                assert(init[before[k]] == entries[before[k]]);
            }
        }
        assert forall|a: int, b: int| 0 <= a < b < indices.len() implies #[trigger] indices[a]
            < #[trigger] indices[b] by {
            assert(indices[a] == before[a]);
            if b < before.len() {
                assert(indices[b] == before[b]);
            }
        }
        assert forall|j: int|
            0 <= j < entries.len() && is_file_child(
                prefix,
                (#[trigger] entries[j]).path,
            ) implies holds_index(indices, j) by {
            if j < last {
                assert(init[j] == entries[j]);
                let k = choose|k: int| 0 <= k < before.len() && #[trigger] before[k] == j;
                assert(indices[k] == j);
            } else {
                assert(indices[indices.len() - 1] == j);
            }
        }
    }
}

/// Adds a directory name to the sorted list, unless the list holds it.
pub fn insert_directory(dirs: &mut Vec<Vec<char>>, name: Vec<char>)
    ensures
        names_of(final(dirs)@) == insert_name(names_of(old(dirs)@), name@),
{
    let ghost names = names_of(dirs@);
    let mut at: usize = 0;
    let mut found = false;
    while at < dirs.len()
        invariant_except_break
            !found,
        invariant
            at <= dirs.len(),
            dirs@ == old(dirs)@,
            names == names_of(dirs@),
            forall|j: int| 0 <= j < at ==> fold_less(#[trigger] names[j], name@),
        ensures
            at <= dirs.len(),
            dirs@ == old(dirs)@,
            forall|j: int| 0 <= j < at ==> fold_less(#[trigger] names[j], name@),
            at < dirs.len() ==> !fold_less(names[at as int], name@),
            found == (at < dirs.len() && eq_ignore_case(names[at as int], name@)),
        decreases dirs.len() - at,
    {
        let order = compare_folded(dirs[at].as_slice(), name.as_slice());
        assert(names[at as int] == dirs@[at as int]@);
        match order {
            NameOrder::Before => {
                at += 1;
            },
            NameOrder::Same => {
                found = true;
                break ;
            },
            NameOrder::After => {
                break ;
            },
        }
    }
    proof {
        lemma_insertion_point_is(names, name@, at as int);
    }
    if !found {
        dirs.insert(at, name);
        assert(names_of(dirs@) =~= names.insert(at as int, name@));
    }
}

/// Lists the children of the directory `prefix`.
///
/// The first part of the result holds the names of the directories directly
/// below `prefix`. Every entry below `prefix` whose relative path has more
/// than one segment gives its first segment as a name, unless that segment
/// is empty; names that differ in ASCII case only are one name, in the
/// casing of the first entry that gives it; the names are sorted by their
/// folded text.
///
/// The second part holds, in ascending order, the indices of the entries
/// that are files directly in `prefix`.
pub fn list_children(descriptor: &MpqArchiveDescriptor, prefix: &str) -> (children: (
    Vec<String>,
    Vec<usize>,
))
    ensures
        children.0.deep_view() == directory_names(descriptor@, prefix@),
        indices_of(children.1@) == file_indices(descriptor@, prefix@),
        lists_directories(descriptor@, prefix@, children.0.deep_view()),
        lists_files(descriptor@, prefix@, indices_of(children.1@)),
{
    proof {
        lemma_directory_names(descriptor@, prefix@);
        lemma_file_indices(descriptor@, prefix@);
    }
    let prefix_chars = chars_of(prefix);
    let entries = descriptor.entries();
    let mut dirs: Vec<Vec<char>> = Vec::new();
    let mut files: Vec<usize> = Vec::new();
    let mut i: usize = 0;
    assert(names_of(dirs@) =~= directory_names(descriptor@.take(0), prefix@));
    assert(indices_of(files@) =~= file_indices(descriptor@.take(0), prefix@));
    while i < entries.len()
        invariant
            i <= entries.len(),
            prefix_chars@ == prefix@,
            entry_views(entries@) == descriptor@,
            names_of(dirs@) == directory_names(descriptor@.take(i as int), prefix@),
            indices_of(files@) == file_indices(descriptor@.take(i as int), prefix@),
        decreases entries.len() - i,
    {
        let ghost seen = descriptor@.take(i + 1);
        assert(seen.drop_last() =~= descriptor@.take(i as int));
        assert(seen.last() == descriptor@[i as int]);
        let path = chars_of(entries[i].path());
        match relative_chars(prefix_chars.as_slice(), path.as_slice()) {
            Some(rel) => {
                let (segment, rest) = split_first_segment_chars(rel.as_slice());
                if rest.len() > 0 {
                    if segment.len() > 0 {
                        insert_directory(&mut dirs, segment);
                    }
                } else if rel.len() > 0 {
                    let ghost before = indices_of(files@);
                    files.push(i);
                    assert(indices_of(files@) =~= before.push(i as int));
                }
            },
            None => {},
        }
        i += 1;
    }
    assert(descriptor@.take(i as int) =~= descriptor@);
    let mut names: Vec<String> = Vec::new();
    let mut k: usize = 0;
    while k < dirs.len()
        invariant
            k <= dirs.len(),
            names@.len() == k,
            forall|j: int| 0 <= j < k ==> (#[trigger] names@[j])@ == dirs@[j]@,
        decreases dirs.len() - k,
    {
        names.push(string_of(dirs[k].as_slice()));
        k += 1;
    }
    assert(names.deep_view() =~= names_of(dirs@));
    (names, files)
}

} // verus!
