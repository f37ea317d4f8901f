//! A view of one directory of an archive: it resolves names to
//! sub-directories and to streams, and reports the size of what lies below.

use std::sync::Arc;
use vstd::prelude::*;
use crate::archive::{clamp_size, entry_views, find_index, EntryView, MpqArchiveDescriptor};
use crate::enumerate::MpqEnumElements;
use crate::listing::{directory_names, holds_like, list_children};
use crate::path::{directory_lead_chars, falls_under, join_chars, join_spec};
use crate::text::{chars_of, chars_start_with_ignore_case, eq_ignore_case, str_eq_ignore_case, string_of};

verus! {

/// Why a name could not be resolved.
#[derive(Debug, Clone, Copy, PartialEq, Eq, Structural)]
pub enum MpqStorageError {
    /// No directory and no file of that name lies in the directory.
    NotFound,
    /// The name is not one that can name anything: it is empty.
    InvalidArgument,
}

/// What a stat record says.
pub ghost struct StatView {
    pub display_name: Seq<char>,
    pub size: u64,
    pub is_container: bool,
}

/// What is known of a directory or of a file without opening it.
#[derive(Debug)]
pub struct MpqStat {
    pub display_name: String,
    pub size: u64,
    pub is_container: bool,
}

impl View for MpqStat {
    type V = StatView;

    open spec fn view(&self) -> StatView {
        StatView {
            display_name: self.display_name@,
            size: self.size,
            is_container: self.is_container,
        }
    }
}

/// What a stream is: the bytes it reads from, and how many of them have
/// been read.
pub ghost struct StreamView {
    pub bytes: Seq<u8>,
    pub position: nat,
}

/// A readable view of the bytes of one entry. The bytes are shared with
/// the archive; the read position belongs to this stream alone.
#[derive(Debug)]
pub struct MpqStream {
    data: Arc<Vec<u8>>,
    position: usize,
}

impl View for MpqStream {
    type V = StreamView;

    closed spec fn view(&self) -> StreamView {
        StreamView { bytes: self.data@, position: self.position as nat }
    }
}

impl MpqStream {
    #[verifier::type_invariant]
    spec fn inv(&self) -> bool {
        self.position <= self.data@.len()
    }

    /// A stream over `data` that has read nothing yet.
    pub fn new(data: Arc<Vec<u8>>) -> (stream: Self)
        ensures
            stream@ == (StreamView { bytes: data@, position: 0 }),
    {
        Self { data, position: 0 }
    }

    /// All bytes of the stream, whatever has been read.
    pub fn bytes(&self) -> (bytes: &[u8])
        ensures
            bytes@ == self@.bytes,
    {
        self.data.as_slice()
    }

    /// The number of bytes of the stream.
    pub fn len(&self) -> (len: usize)
        ensures
            len == self@.bytes.len(),
    {
        self.data.len()
    }

    /// The number of bytes read so far.
    pub fn position(&self) -> (position: usize)
        ensures
            position == self@.position,
            position <= self@.bytes.len(),
    {
        proof {
            use_type_invariant(self);
        }
        self.position
    }

    /// Reads up to `count` bytes from the read position on and moves the
    /// position behind them. Fewer bytes are read only at the end.
    pub fn read(&mut self, count: usize) -> (read: Vec<u8>)
        ensures
            final(self)@.bytes == old(self)@.bytes,
            final(self)@.position == old(self)@.position + read@.len(),
            read@.len() == if old(self)@.position + count <= old(self)@.bytes.len() {
                count as int
            } else {
                old(self)@.bytes.len() - old(self)@.position
            },
            read@ == old(self)@.bytes.subrange(
                old(self)@.position as int,
                final(self)@.position as int,
            ),
    {
        proof {
            use_type_invariant(&*self);
        }
        let start = self.position;
        let available = self.data.len() - start;
        let taken = if count <= available {
            count
        } else {
            available
        };
        let end = start + taken;
        let mut read: Vec<u8> = Vec::new();
        let mut i: usize = start;
        while i < end
            invariant
                start <= i <= end <= self.data@.len(),
                read@ == self.data@.subrange(start as int, i as int),
            decreases end - i,
        {
            read.push(self.data[i]);
            i += 1;
        }
        self.position = end;
        read
    }
}

/// What a name in a directory resolves to.
pub enum ChildView {
    /// The sub-directory with this prefix.
    Directory(Seq<char>),
    /// The entry with this index.
    File(int),
    /// Nothing.
    Missing,
}

/// Whether a directory of that name, ASCII case aside, lies directly below
/// `prefix`.
pub open spec fn has_directory(entries: Seq<EntryView>, prefix: Seq<char>, name: Seq<char>) -> bool {
    holds_like(directory_names(entries, prefix), name)
}

/// `path` with `\` in place of every `/`.
pub open spec fn with_backslashes(path: Seq<char>) -> Seq<char> {
    Seq::new(path.len(), |i: int| if path[i] == '/' { '\\' } else { path[i] })
}

/// The entry that `name` in the directory `prefix` names as a file: the
/// first entry whose path is the joined path, ASCII case aside, or else
/// the first whose path is the joined path written with `\`.
pub open spec fn stream_index(entries: Seq<EntryView>, prefix: Seq<char>, name: Seq<char>) -> Option<int> {
    match find_index(entries, join_spec(prefix, name)) {
        Some(i) => Some(i),
        None => find_index(entries, with_backslashes(join_spec(prefix, name))),
    }
}

/// What `name` resolves to in the directory `prefix`. A directory of that
/// name goes before a file of that name.
pub open spec fn resolve_child(entries: Seq<EntryView>, prefix: Seq<char>, name: Seq<char>) -> ChildView {
    if has_directory(entries, prefix, name) {
        ChildView::Directory(join_spec(prefix, name))
    } else {
        match stream_index(entries, prefix, name) {
            Some(i) => ChildView::File(i),
            None => ChildView::Missing,
        }
    }
}

/// Two names resolve to the same thing: both to nothing, both to the same
/// entry, or both to a directory, under prefixes that are equal, ASCII case
/// aside, and so have the same children.
pub open spec fn same_child(a: ChildView, b: ChildView) -> bool {
    match (a, b) {
        (ChildView::Directory(p), ChildView::Directory(q)) => eq_ignore_case(p, q),
        (ChildView::File(i), ChildView::File(j)) => i == j,
        (ChildView::Missing, ChildView::Missing) => true,
        _ => false,
    }
}

/// The sum of the sizes of the entries that lie below `prefix`.
pub open spec fn size_under(entries: Seq<EntryView>, prefix: Seq<char>) -> nat
    decreases entries.len(),
{
    if entries.len() == 0 {
        0
    } else {
        let before = size_under(entries.drop_last(), prefix);
        if falls_under(prefix, entries.last().path) {
            before + entries.last().size()
        } else {
            before
        }
    }
}

/// What a storage view is: the entries of its archive and the prefix of
/// its directory. The root has the empty prefix.
pub ghost struct StorageView {
    pub entries: Seq<EntryView>,
    pub prefix: Seq<char>,
}

/// A handle on one directory of an archive. It holds no copy of its
/// children: each query reads the entries of the archive.
#[derive(Debug)]
pub struct MpqStorage {
    descriptor: Arc<MpqArchiveDescriptor>,
    prefix: String,
}

/// What `open_child` hands back.
#[derive(Debug)]
pub enum MpqChild {
    Directory(MpqStorage),
    File(MpqStream),
}

impl View for MpqStorage {
    type V = StorageView;

    closed spec fn view(&self) -> StorageView {
        StorageView { entries: self.descriptor@, prefix: self.prefix@ }
    }
}

impl Clone for MpqStorage {
    /// A second handle on the same directory.
    fn clone(&self) -> (storage: Self)
        ensures
            storage@ == self@,
    {
        Self { descriptor: self.descriptor.clone(), prefix: self.prefix.clone() }
    }
}

/// The characters of `with_backslashes(path)`.
pub fn backslash_chars(path: &[char]) -> (r: Vec<char>)
    ensures
        r@ == with_backslashes(path@),
{
    let mut r: Vec<char> = Vec::new();
    let mut i: usize = 0;
    while i < path.len()
        invariant
            i <= path.len(),
            r@ == with_backslashes(path@).take(i as int),
        decreases path.len() - i,
    {
        let c = path[i];
        r.push(if c == '/' { '\\' } else { c });
        i += 1;
        assert(r@ =~= with_backslashes(path@).take(i as int));
    }
    assert(with_backslashes(path@).take(i as int) =~= with_backslashes(path@));
    r
}

impl MpqStorage {
    /// The view of the directory `prefix` of the archive.
    pub fn new(descriptor: Arc<MpqArchiveDescriptor>, prefix: String) -> (storage: Self)
        ensures
            storage@ == (StorageView { entries: descriptor@, prefix: prefix@ }),
    {
        Self { descriptor, prefix }
    }

    /// The view of the root directory of the archive.
    pub fn open_root(descriptor: Arc<MpqArchiveDescriptor>) -> (storage: Self)
        ensures
            storage@ == (StorageView { entries: descriptor@, prefix: Seq::empty() }),
    {
        Self { descriptor, prefix: String::new() }
    }

    /// The archive that the view reads.
    pub fn descriptor(&self) -> (descriptor: &Arc<MpqArchiveDescriptor>)
        ensures
            descriptor@ == self@.entries,
    {
        &self.descriptor
    }

    /// The prefix of the directory; empty for the root.
    pub fn prefix(&self) -> (prefix: &str)
        ensures
            prefix@ == self@.prefix,
    {
        self.prefix.as_str()
    }

    /// Opens the file that `name` names in this directory: the first entry
    /// whose path is the joined path of prefix and name, ASCII case aside,
    /// or else the first whose path is that path with `\` for `/`. Each
    /// call gives a stream of its own, at the start of the entry's bytes.
    pub fn open_stream_by_path(&self, name: &str) -> (opened: Result<MpqStream, MpqStorageError>)
        ensures
            match stream_index(self@.entries, self@.prefix, name@) {
                Some(i) => opened is Ok && opened->Ok_0@ == (StreamView {
                    bytes: self@.entries[i].data,
                    position: 0,
                }),
                None => opened == Err::<MpqStream, MpqStorageError>(MpqStorageError::NotFound),
            },
    {
        let prefix = chars_of(self.prefix.as_str());
        let wanted = chars_of(name);
        let full = join_chars(prefix.as_slice(), wanted.as_slice());
        let entries = self.descriptor.entries();
        match self.descriptor.position_of(full.as_slice()) {
            Some(i) => Ok(MpqStream::new(entries[i].shared_data())),
            None => {
                let other = backslash_chars(full.as_slice());
                match self.descriptor.position_of(other.as_slice()) {
                    Some(i) => Ok(MpqStream::new(entries[i].shared_data())),
                    None => Err(MpqStorageError::NotFound),
                }
            },
        }
    }

    /// Opens the sub-directory `name` of this directory. The name has to
    /// be, ASCII case aside, one of the directory names that `list_children`
    /// gives for this directory.
    pub fn open_storage(&self, name: &str) -> (opened: Result<MpqStorage, MpqStorageError>)
        ensures
            has_directory(self@.entries, self@.prefix, name@) ==> opened is Ok && opened->Ok_0@ == (
            StorageView { entries: self@.entries, prefix: join_spec(self@.prefix, name@) }),
            !has_directory(self@.entries, self@.prefix, name@) ==> opened == Err::<
                MpqStorage,
                MpqStorageError,
            >(MpqStorageError::NotFound),
    {
        let (dirs, _files) = list_children(&self.descriptor, self.prefix.as_str());
        let wanted = chars_of(name);
        let ghost names = directory_names(self@.entries, self@.prefix);
        let mut k: usize = 0;
        while k < dirs.len()
            invariant
                k <= dirs.len(),
                wanted@ == name@,
                dirs.deep_view() == names,
                names == directory_names(self@.entries, self@.prefix),
                forall|j: int| 0 <= j < k ==> !eq_ignore_case(#[trigger] names[j], name@),
            decreases dirs.len() - k,
        {
            assert(dirs.deep_view()[k as int] == dirs@[k as int]@);
            if str_eq_ignore_case(dirs[k].as_str(), wanted.as_slice()) {
                assert(eq_ignore_case(
                    directory_names(self@.entries, self@.prefix)[k as int],
                    name@,
                ));
                let prefix = chars_of(self.prefix.as_str());
                let joined = join_chars(prefix.as_slice(), wanted.as_slice());
                return Ok(MpqStorage::new(self.descriptor.clone(), string_of(joined.as_slice())));
            }
            k += 1;
        }
        Err(MpqStorageError::NotFound)
    }

    /// Resolves `name` in this directory: to the sub-directory of that name
    /// where there is one, else to the file of that name, else to nothing.
    pub fn open_child(&self, name: &str) -> (opened: Result<MpqChild, MpqStorageError>)
        ensures
            match resolve_child(self@.entries, self@.prefix, name@) {
                ChildView::Directory(prefix) => opened matches Ok(MpqChild::Directory(storage))
                    && storage@ == (StorageView { entries: self@.entries, prefix }),
                ChildView::File(i) => opened matches Ok(MpqChild::File(stream)) && stream@ == (
                StreamView { bytes: self@.entries[i].data, position: 0 }),
                ChildView::Missing => opened matches Err(MpqStorageError::NotFound),
            },
    {
        match self.open_storage(name) {
            Ok(storage) => Ok(MpqChild::Directory(storage)),
            Err(_) => match self.open_stream_by_path(name) {
                Ok(stream) => Ok(MpqChild::File(stream)),
                Err(error) => Err(error),
            },
        }
    }

    /// The stat record of this directory: its prefix as the name, the sum
    /// of the sizes of all entries below it (the largest `u64` where the sum
    /// is beyond it), and the mark of a container.
    pub fn stat(&self) -> (stat: MpqStat)
        ensures
            stat@ == (StatView {
                display_name: self@.prefix,
                size: clamp_size(size_under(self@.entries, self@.prefix)),
                is_container: true,
            }),
    {
        let prefix = chars_of(self.prefix.as_str());
        let lead = directory_lead_chars(prefix.as_slice());
        let entries = self.descriptor.entries();
        let ghost all = self@.entries;
        let mut total: u64 = 0;
        let mut i: usize = 0;
        while i < entries.len()
            invariant
                i <= entries.len(),
                all == self@.entries,
                prefix@ == self@.prefix,
                lead@ == crate::path::directory_lead(self@.prefix),
                entry_views(entries@) == all,
                total == clamp_size(size_under(all.take(i as int), self@.prefix)),
            decreases entries.len() - i,
        {
            assert(all.take(i + 1).drop_last() =~= all.take(i as int));
            let under = if prefix.len() == 0 {
                true
            } else {
                let path = chars_of(entries[i].path());
                chars_start_with_ignore_case(path.as_slice(), lead.as_slice())
            };
            if under {
                total = total.saturating_add(entries[i].uncompressed_size());
            }
            i += 1;
        }
        assert(all.take(i as int) =~= all);
        MpqStat { display_name: self.prefix.clone(), size: total, is_container: true }
    }

    /// A cursor over the children of this directory, at its start.
    pub fn enumerate(&self) -> (cursor: MpqEnumElements)
        ensures
            cursor@ == crate::enumerate::initial_cursor(self@.entries, self@.prefix),
    {
        MpqEnumElements::new(self.descriptor.clone(), self.prefix.clone())
    }
}

} // verus!
