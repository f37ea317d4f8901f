//! A cursor over the children of one directory: the directories first, in
//! their sorted order, then the files in the order of the archive.

use std::sync::Arc;
use vstd::prelude::*;
use crate::archive::{clamp_size, entry_views, EntryView, MpqArchiveDescriptor, MpqEntry};
use crate::listing::{directory_names, file_indices, indices_of, lemma_file_indices, list_children};
use crate::storage::{MpqStat, StatView};
use crate::text::{chars_of, copy_range, is_separator, is_separator_char, string_of};
use crate::wide::{
    can_be_wide, leading_nameable, lemma_leading_nameable_is, wide_stat, WideStat, WideStatView,
};

verus! {

/// What one item of a listing is.
pub enum ItemView {
    /// A directory with this name.
    Dir(Seq<char>),
    /// The entry with this index.
    File(int),
}

/// One item of a listing: a synthesized directory by its name, or a file
/// by the index of its entry.
#[derive(Debug)]
pub enum EnumItem {
    Dir(String),
    File(usize),
}

impl Clone for EnumItem {
    fn clone(&self) -> (item: Self)
        ensures
            item@ == self@,
    {
        match self {
            EnumItem::Dir(name) => EnumItem::Dir(name.clone()),
            EnumItem::File(index) => EnumItem::File(*index),
        }
    }
}

impl View for EnumItem {
    type V = ItemView;

    open spec fn view(&self) -> ItemView {
        match self {
            EnumItem::Dir(name) => ItemView::Dir(name@),
            EnumItem::File(index) => ItemView::File(*index as int),
        }
    }
}

/// The items of the directory `prefix`: its directory names in their
/// order, then the indices of its files in theirs.
pub open spec fn snapshot_items(entries: Seq<EntryView>, prefix: Seq<char>) -> Seq<ItemView> {
    let dirs = directory_names(entries, prefix);
    let files = file_indices(entries, prefix);
    Seq::new(
        dirs.len() + files.len(),
        |i: int|
            if i < dirs.len() {
                ItemView::Dir(dirs[i])
            } else {
                ItemView::File(files[i - dirs.len()])
            },
    )
}

/// The last segment of a path: what follows its last separator of either
/// kind, or the whole path where it holds none.
pub open spec fn last_segment(path: Seq<char>) -> Seq<char>
    decreases path.len(),
{
    if path.len() == 0 || is_separator(path.last()) {
        Seq::empty()
    } else {
        last_segment(path.drop_last()).push(path.last())
    }
}

/// The stat record of a directory of the given name.
pub open spec fn dir_stat(name: Seq<char>) -> StatView {
    StatView { display_name: name, size: 0, is_container: true }
}

/// The stat record of an entry as a file: its last segment as the name,
/// and its size.
pub open spec fn file_stat(entry: EntryView) -> StatView {
    StatView {
        display_name: last_segment(entry.path),
        size: clamp_size(entry.size()),
        is_container: false,
    }
}

/// The stat record of an item.
pub open spec fn item_stat(entries: Seq<EntryView>, item: ItemView) -> StatView {
    match item {
        ItemView::Dir(name) => dir_stat(name),
        ItemView::File(index) => file_stat(entries[index]),
    }
}

/// What a cursor is: the entries of its archive, the prefix of the
/// directory that it lists, and its position in the items of that
/// directory.
pub ghost struct CursorView {
    pub entries: Seq<EntryView>,
    pub prefix: Seq<char>,
    pub position: nat,
}

impl CursorView {
    /// The items that the cursor walks.
    pub open spec fn items(self) -> Seq<ItemView> {
        snapshot_items(self.entries, self.prefix)
    }

    /// The position is within the items or at their end.
    pub open spec fn wf(self) -> bool {
        self.position <= self.items().len()
    }

    /// The position of the cursor after it was moved on by `count`: not
    /// beyond the end.
    pub open spec fn advanced(self, count: nat) -> nat {
        if self.position + count <= self.items().len() {
            self.position + count
        } else {
            self.items().len()
        }
    }

    /// The cursor after it was moved on by `count`.
    pub open spec fn moved(self, count: nat) -> CursorView {
        CursorView { position: self.advanced(count), ..self }
    }

    /// Whether `count` more items are left.
    pub open spec fn has(self, count: nat) -> bool {
        self.position + count <= self.items().len()
    }

    /// The stat records of the items that `next` hands out for `count`.
    pub open spec fn emitted(self, count: nat) -> Seq<StatView> {
        Seq::new(
            (self.advanced(count) - self.position) as nat,
            |k: int| item_stat(self.entries, self.items()[self.position + k]),
        )
    }

    /// The number of items that `next_wide` hands out for `count`: those
    /// of `emitted` that stand before the first whose name cannot be made
    /// wide.
    pub open spec fn nameable(self, count: nat) -> nat {
        leading_nameable(self.emitted(count))
    }

    /// The wide stat records that `next_wide` hands out for `count`.
    pub open spec fn emitted_wide(self, count: nat) -> Seq<WideStatView> {
        Seq::new(self.nameable(count), |k: int| wide_stat(self.emitted(count)[k]))
    }

    /// How `next_wide` ends for `count`.
    pub open spec fn batch_end(self, count: nat) -> BatchEnd {
        if self.nameable(count) < self.emitted(count).len() {
            BatchEnd::NameRefused
        } else if self.has(count) {
            BatchEnd::Satisfied
        } else {
            BatchEnd::Exhausted
        }
    }
}

/// How a batch of items with wide names ended.
#[derive(Debug, Clone, Copy, PartialEq, Eq, Structural)]
pub enum BatchEnd {
    /// All items that were asked for were handed out.
    Satisfied,
    /// The end of the items came first.
    Exhausted,
    /// The next item has a name that cannot be made wide.
    NameRefused,
}

/// The views of the wide stat records of a list.
pub open spec fn wide_stats_of(list: Seq<WideStat>) -> Seq<WideStatView> {
    Seq::new(list.len(), |i: int| list[i]@)
}

/// The cursor at the start of the directory `prefix`.
pub open spec fn initial_cursor(entries: Seq<EntryView>, prefix: Seq<char>) -> CursorView {
    CursorView { entries, prefix, position: 0 }
}

/// The views of the items of a list.
pub open spec fn items_of(list: Seq<EnumItem>) -> Seq<ItemView> {
    Seq::new(list.len(), |i: int| list[i]@)
}

/// The views of the stat records of a list.
pub open spec fn stats_of(list: Seq<MpqStat>) -> Seq<StatView> {
    Seq::new(list.len(), |i: int| list[i]@)
}

/// A suffix of `path` that holds no separator, and before which a separator
/// stands or the path begins, is its last segment.
pub proof fn lemma_last_segment_is(path: Seq<char>, from: int)
    requires
        0 <= from <= path.len(),
        forall|j: int| from <= j < path.len() ==> !is_separator(#[trigger] path[j]),
        from > 0 ==> is_separator(path[from - 1]),
    ensures
        last_segment(path) == path.skip(from),
    decreases path.len() - from,
{
    if from == path.len() {
        assert(path.skip(from) =~= Seq::<char>::empty());
    } else {
        assert(!is_separator(path.last()));
        let init = path.drop_last();
        assert forall|j: int| from <= j < init.len() implies !is_separator(#[trigger] init[j]) by {
            assert(init[j] == path[j]);
        }
        if from > 0 {
            assert(init[from - 1] == path[from - 1]);
        }
        lemma_last_segment_is(init, from);
        assert(init.skip(from).push(path.last()) =~= path.skip(from));
    }
}

/// A resumable cursor over the children of one directory. The items are
/// fixed when the cursor is made; only the position moves.
#[derive(Debug)]
pub struct MpqEnumElements {
    descriptor: Arc<MpqArchiveDescriptor>,
    prefix: String,
    items: Arc<Vec<EnumItem>>,
    position: usize,
}

impl View for MpqEnumElements {
    type V = CursorView;

    closed spec fn view(&self) -> CursorView {
        CursorView {
            entries: self.descriptor@,
            prefix: self.prefix@,
            position: self.position as nat,
        }
    }
}

impl Clone for MpqEnumElements {
    /// A cursor over the same items at the same position, which moves on
    /// its own from then on.
    fn clone(&self) -> (cursor: Self)
        ensures
            cursor@ == self@,
    {
        proof {
            use_type_invariant(self);
        }
        Self {
            descriptor: self.descriptor.clone(),
            prefix: self.prefix.clone(),
            items: self.items.clone(),
            position: self.position,
        }
    }
}

impl MpqEnumElements {
    #[verifier::type_invariant]
    spec fn inv(&self) -> bool {
        &&& items_of(self.items@) == snapshot_items(self.descriptor@, self.prefix@)
        &&& self.position <= self.items@.len()
    }

    /// A cursor over the children of the directory `prefix`, at its start.
    pub fn new(descriptor: Arc<MpqArchiveDescriptor>, prefix: String) -> (cursor: Self)
        ensures
            cursor@ == initial_cursor(descriptor@, prefix@),
            cursor@.wf(),
    {
        let (dirs, files) = list_children(&descriptor, prefix.as_str());
        let ghost names = directory_names(descriptor@, prefix@);
        let ghost indices = file_indices(descriptor@, prefix@);
        let mut items: Vec<EnumItem> = Vec::new();
        let mut i: usize = 0;
        while i < dirs.len()
            invariant
                i <= dirs.len(),
                dirs.deep_view() == names,
                items@.len() == i,
                forall|j: int| 0 <= j < i ==> (#[trigger] items@[j])@ == ItemView::Dir(names[j]),
            decreases dirs.len() - i,
        {
            assert(dirs.deep_view()[i as int] == dirs@[i as int]@);
            items.push(EnumItem::Dir(dirs[i].clone()));
            i += 1;
        }
        let mut k: usize = 0;
        while k < files.len()
            invariant
                k <= files.len(),
                indices_of(files@) == indices,
                names.len() == dirs.len(),
                items@.len() == dirs.len() + k,
                forall|j: int| 0 <= j < dirs.len() ==> (#[trigger] items@[j])@ == ItemView::Dir(names[j]),
                forall|j: int|
                    dirs.len() <= j < dirs.len() + k ==> (#[trigger] items@[j])@ == ItemView::File(
                        indices[j - dirs.len()],
                    ),
            decreases files.len() - k,
        {
            assert(indices_of(files@)[k as int] == files@[k as int]);
            items.push(EnumItem::File(files[k]));
            k += 1;
        }
        assert(indices.len() == files.len()) by {
            assert(indices_of(files@).len() == files@.len());
        }
        assert(items_of(items@) =~= snapshot_items(descriptor@, prefix@));
        Self { descriptor, prefix, items: Arc::new(items), position: 0 }
    }

    /// The stat record of a directory: its name, no size, and the mark of
    /// a container.
    pub fn stat_for_dir(name: &str) -> (stat: MpqStat)
        ensures
            stat@ == dir_stat(name@),
    {
        MpqStat { display_name: String::from_str(name), size: 0, is_container: true }
    }

    /// The stat record of a file: the last segment of the entry's path as
    /// its name, the entry's size, and the mark of a leaf.
    pub fn stat_for_file(entry: &MpqEntry) -> (stat: MpqStat)
        ensures
            stat@ == file_stat(entry@),
    {
        let path = chars_of(entry.path());
        let mut from: usize = path.len();
        while from > 0 && !is_separator_char(path[from - 1])
            invariant
                from <= path.len(),
                forall|j: int| from <= j < path.len() ==> !is_separator(#[trigger] path@[j]),
            decreases from,
        {
            from -= 1;
        }
        proof {
            lemma_last_segment_is(path@, from as int);
        }
        let name = copy_range(path.as_slice(), from, path.len());
        assert(path@.subrange(from as int, path.len() as int) =~= path@.skip(from as int));
        MpqStat {
            display_name: string_of(name.as_slice()),
            size: entry.uncompressed_size(),
            is_container: false,
        }
    }

    /// The items that the cursor walks, as they were when it was made:
    /// the directories in their order, then the files in theirs.
    pub fn items(&self) -> (items: &[EnumItem])
        ensures
            items_of(items@) == self@.items(),
    {
        proof {
            use_type_invariant(self);
        }
        self.items.as_slice()
    }

    /// The number of items that the cursor walks.
    pub fn len(&self) -> (len: usize)
        ensures
            len == self@.items().len(),
            self@.wf(),
    {
        proof {
            use_type_invariant(self);
            assert(items_of(self.items@).len() == self.items@.len());
        }
        self.items.len()
    }

    /// The number of items that the cursor has passed.
    pub fn position(&self) -> (position: usize)
        ensures
            position == self@.position,
            self@.wf(),
    {
        proof {
            use_type_invariant(self);
            assert(items_of(self.items@).len() == self.items@.len());
        }
        self.position
    }

    /// Hands out the stat records of up to `count` items from the position
    /// on and moves the position behind them. The flag says whether all
    /// `count` items were there; it is false exactly when the end came
    /// first.
    pub fn next(&mut self, count: usize) -> (emitted: (Vec<MpqStat>, bool))
        ensures
            final(self)@ == old(self)@.moved(count as nat),
            stats_of(emitted.0@) == old(self)@.emitted(count as nat),
            emitted.1 == old(self)@.has(count as nat),
    {
        proof {
            use_type_invariant(&*self);
            assert(items_of(self.items@).len() == self.items@.len());
            lemma_file_indices(self.descriptor@, self.prefix@);
        }
        let ghost view = self@;
        let ghost items = view.items();
        let start = self.position;
        let left = self.items.len() - start;
        let taken = if count <= left {
            count
        } else {
            left
        };
        let end = start + taken;
        let entries = self.descriptor.entries();
        let mut stats: Vec<MpqStat> = Vec::new();
        let mut i: usize = start;
        while i < end
            invariant
                start <= i <= end <= self.items@.len(),
                view == self@,
                items == view.items(),
                items == items_of(self.items@),
                entry_views(entries@) == view.entries,
                forall|k: int|
                    0 <= k < file_indices(view.entries, view.prefix).len() ==> 0
                        <= #[trigger] file_indices(view.entries, view.prefix)[k]
                        < view.entries.len(),
                stats@.len() == i - start,
                forall|k: int| 0 <= k < i - start ==> (#[trigger] stats@[k])@ == item_stat(
                    view.entries,
                    items[start + k],
                ),
            decreases end - i,
        {
            assert(items[i as int] == self.items@[i as int]@);
            let stat = match &self.items[i] {
                EnumItem::Dir(name) => Self::stat_for_dir(name.as_str()),
                EnumItem::File(index) => {
                    proof {
                        let dirs = directory_names(view.entries, view.prefix);
                        let files = file_indices(view.entries, view.prefix);
                        assert(items == snapshot_items(view.entries, view.prefix));
                        assert(items.len() == dirs.len() + files.len());
                        assert(self.items@[i as int]@ == ItemView::File(*index as int));
                        if i < dirs.len() {
                            assert(items[i as int] == ItemView::Dir(dirs[i as int]));
                        }
                        assert(items[i as int] == ItemView::File(files[i - dirs.len()]));
                        assert(0 <= files[i - dirs.len()] < view.entries.len());
                    }
                    Self::stat_for_file(&entries[*index])
                },
            };
            stats.push(stat);
            i += 1;
        }
        self.position = end;
        assert(stats_of(stats@) =~= view.emitted(count as nat));
        (stats, taken == count)
    }

    /// As `next`, with the names as zero-terminated wide strings. An item
    /// whose name cannot be made wide ends the batch: the items before it
    /// are handed out, and the cursor stays in front of it.
    pub fn next_wide(&mut self, count: usize) -> (batch: (Vec<WideStat>, BatchEnd))
        ensures
            final(self)@ == old(self)@.moved(old(self)@.nameable(count as nat)),
            final(self)@.position == old(self)@.position + old(self)@.nameable(count as nat),
            wide_stats_of(batch.0@) == old(self)@.emitted_wide(count as nat),
            batch.1 == old(self)@.batch_end(count as nat),
    {
        let ghost before = self@;
        let mut ahead = self.clone();
        let start = ahead.position();
        let (stats, satisfied) = ahead.next(count);
        let ghost wanted = before.emitted(count as nat);
        assert(stats_of(stats@).len() == stats@.len());
        let mut made: Vec<WideStat> = Vec::new();
        let mut refused = false;
        let mut i: usize = 0;
        while i < stats.len()
            invariant_except_break
                !refused,
            invariant
                i <= stats.len(),
                stats_of(stats@) == wanted,
                made@.len() == i,
                forall|j: int| 0 <= j < i ==> can_be_wide((#[trigger] wanted[j]).display_name),
                forall|j: int| 0 <= j < i ==> (#[trigger] made@[j])@ == wide_stat(wanted[j]),
            ensures
                i <= stats.len(),
                made@.len() == i,
                forall|j: int| 0 <= j < i ==> can_be_wide((#[trigger] wanted[j]).display_name),
                forall|j: int| 0 <= j < i ==> (#[trigger] made@[j])@ == wide_stat(wanted[j]),
                refused == (i < stats.len()),
                refused ==> !can_be_wide(wanted[i as int].display_name),
            decreases stats.len() - i,
        {
            assert(wanted[i as int] == stats@[i as int]@);
            match stats[i].wide() {
                Some(wide) => {
                    made.push(wide);
                    i += 1;
                },
                None => {
                    refused = true;
                    break ;
                },
            }
        }
        proof {
            lemma_leading_nameable_is(wanted, i as int);
            assert(wide_stats_of(made@) =~= before.emitted_wide(count as nat));
        }
        self.skip(made.len());
        let end = if refused {
            BatchEnd::NameRefused
        } else if satisfied {
            BatchEnd::Satisfied
        } else {
            BatchEnd::Exhausted
        };
        (made, end)
    }

    /// Moves the position on by `count`, but not beyond the end. Says
    /// whether `count` items were there to be skipped.
    pub fn skip(&mut self, count: usize) -> (skipped: bool)
        ensures
            final(self)@ == old(self)@.moved(count as nat),
            skipped == old(self)@.has(count as nat),
    {
        proof {
            use_type_invariant(&*self);
            assert(items_of(self.items@).len() == self.items@.len());
        }
        let left = self.items.len() - self.position;
        if count <= left {
            self.position = self.position + count;
            true
        } else {
            self.position = self.items.len();
            false
        }
    }

    /// Moves the position back by `count`, but not before the start. With
    /// it a caller puts back items that it was handed and could not take.
    pub fn step_back(&mut self, count: usize)
        ensures
            final(self)@ == (CursorView {
                position: if old(self)@.position >= count {
                    (old(self)@.position - count) as nat
                } else {
                    0
                },
                ..old(self)@
            }),
    {
        proof {
            use_type_invariant(&*self);
        }
        if self.position >= count {
            self.position = self.position - count;
        } else {
            self.position = 0;
        }
    }

    /// Moves the position back to the start.
    pub fn reset(&mut self)
        ensures
            final(self)@ == initial_cursor(old(self)@.entries, old(self)@.prefix),
    {
        proof {
            use_type_invariant(&*self);
        }
        self.position = 0;
    }
}

} // verus!
