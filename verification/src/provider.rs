//! The state of one shell provider and what it answers at the root of its
//! archive.

use std::sync::Arc;
use vstd::prelude::*;
use vstd::string::StringExecFns;
use crate::archive::{
    clamp_size, find_index, path_message, placeholder_entries, stream_message, total_size,
    EntryView, MpqArchiveDescriptor, MpqArchiveError,
};
use crate::enumerate::{initial_cursor, MpqEnumElements};
use crate::storage::{
    has_directory, stream_index, MpqStat, MpqStorage, MpqStorageError, MpqStream, StatView,
    StorageView, StreamView,
};
use crate::text::{chars_of, str_eq_ignore_case};
use crate::wide::{decode_utf16_lossy, text_of_wide};

verus! {

/// The name under which an archive is shown that came as a stream and so
/// has no path.
pub const STREAM_SOURCE_NAME: &'static str = "MPQ archive (stream source)";

/// The message of the placeholder archive of a provider that was not
/// initialized yet.
pub const NOT_INITIALIZED_MESSAGE: &'static str = "MPQ handler not initialized";

/// What is said of a stream that holds no byte.
pub const EMPTY_STREAM_DETAIL: &'static str = "the stream is empty";

/// What the state of a provider is.
pub ghost struct ProviderView {
    /// The path of the archive file, where the archive came from a file.
    pub path: Option<Seq<char>>,
    /// The bytes of the archive, where it came as a stream.
    pub stream: Option<Seq<u8>>,
    /// The entries of the archive.
    pub entries: Seq<EntryView>,
    /// The identifier list under which the shell knows the root folder.
    pub root_pidl: Option<Seq<u8>>,
}

/// The name under which the root of an archive is shown: the path of its
/// file, or `STREAM_SOURCE_NAME` where it has none.
pub open spec fn friendly_name(path: Option<Seq<char>>) -> Seq<char> {
    match path {
        Some(path) => path,
        None => STREAM_SOURCE_NAME@,
    }
}

/// The entry that `name` names at the root of a provider: the entry that
/// the name names in the root view, or else the first entry whose path is
/// `name` behind `./`, ASCII case aside.
pub open spec fn root_stream_index(entries: Seq<EntryView>, name: Seq<char>) -> Option<int> {
    match stream_index(entries, Seq::empty(), name) {
        Some(i) => Some(i),
        None => find_index(entries, seq!['.', '/'] + name),
    }
}

/// The source and the archive that a provider serves. A provider starts
/// with a placeholder archive and takes a new archive each time it is
/// initialized; views and cursors handed out before keep the archive that
/// they were made of.
#[derive(Debug)]
pub struct MpqShellProvider {
    path_utf8: Option<String>,
    stream_data: Option<Arc<Vec<u8>>>,
    archive: Arc<MpqArchiveDescriptor>,
    root_pidl: Option<Vec<u8>>,
}

impl View for MpqShellProvider {
    type V = ProviderView;

    closed spec fn view(&self) -> ProviderView {
        ProviderView {
            path: match self.path_utf8 {
                Some(path) => Some(path@),
                None => None,
            },
            stream: match self.stream_data {
                Some(data) => Some(data@),
                None => None,
            },
            entries: self.archive@,
            root_pidl: match self.root_pidl {
                Some(data) => Some(data@),
                None => None,
            },
        }
    }
}

impl Default for MpqShellProvider {
    /// A provider that was not initialized.
    fn default() -> (provider: Self)
        ensures
            provider@ == (ProviderView {
                path: None,
                stream: None,
                entries: placeholder_entries(NOT_INITIALIZED_MESSAGE@),
                root_pidl: None,
            }),
    {
        Self::new()
    }
}

impl MpqShellProvider {
    /// A provider that was not initialized: without a source, serving the
    /// placeholder archive that says so.
    pub fn new() -> (provider: Self)
        ensures
            provider@ == (ProviderView {
                path: None,
                stream: None,
                entries: placeholder_entries(NOT_INITIALIZED_MESSAGE@),
                root_pidl: None,
            }),
    {
        Self {
            path_utf8: None,
            stream_data: None,
            archive: Arc::new(MpqArchiveDescriptor::placeholder(NOT_INITIALIZED_MESSAGE)),
            root_pidl: None,
        }
    }

    /// Replaces the source and the archive; the identifier list stays.
    pub fn set_state_from_descriptor(
        &mut self,
        path: Option<String>,
        stream_data: Option<Arc<Vec<u8>>>,
        descriptor: Arc<MpqArchiveDescriptor>,
    )
        ensures
            final(self)@ == (ProviderView {
                path: match path {
                    Some(path) => Some(path@),
                    None => None,
                },
                stream: match stream_data {
                    Some(data) => Some(data@),
                    None => None,
                },
                entries: descriptor@,
                root_pidl: old(self)@.root_pidl,
            }),
    {
        self.path_utf8 = path;
        self.stream_data = stream_data;
        self.archive = descriptor;
    }

    /// Takes the archive file at `path` as the source.
    pub fn initialize_with_path(&mut self, path: &str) -> (done: Result<(), MpqArchiveError>)
        ensures
            done is Ok,
            final(self)@ == (ProviderView {
                path: Some(path@),
                stream: None,
                entries: placeholder_entries(path_message(path@)),
                root_pidl: old(self)@.root_pidl,
            }),
    {
        match MpqArchiveDescriptor::load_from_path(path) {
            Ok(descriptor) => {
                self.set_state_from_descriptor(
                    Some(String::from_str(path)),
                    None,
                    Arc::new(descriptor),
                );
                Ok(())
            },
            Err(error) => Err(error),
        }
    }

    /// Takes the archive file whose path the shell gave in wide units as the
    /// source.
    pub fn initialize_with_wide_path(&mut self, units: &[u16]) -> (done: Result<(), MpqArchiveError>)
        ensures
            done is Ok,
            final(self)@ == (ProviderView {
                path: Some(decode_utf16_lossy(units@)),
                stream: None,
                entries: placeholder_entries(path_message(decode_utf16_lossy(units@))),
                root_pidl: old(self)@.root_pidl,
            }),
    {
        let path = text_of_wide(units);
        self.initialize_with_path(path.as_str())
    }

    /// Takes the bytes of a stream as the source. An empty stream is no
    /// archive: it is refused and the state stays as it was.
    pub fn initialize_with_stream(&mut self, data: Vec<u8>) -> (done: Result<(), MpqArchiveError>)
        ensures
            data@.len() == 0 ==> final(self)@ == old(self)@ && (done matches Err(
                MpqArchiveError::Corrupted(detail),
            ) && detail@ == EMPTY_STREAM_DETAIL@),
            data@.len() > 0 ==> done is Ok && final(self)@ == (ProviderView {
                path: None,
                stream: Some(data@),
                entries: placeholder_entries(stream_message(data@.len())),
                root_pidl: old(self)@.root_pidl,
            }),
    {
        if data.len() == 0 {
            return Err(MpqArchiveError::Corrupted(String::from_str(EMPTY_STREAM_DETAIL)));
        }
        match MpqArchiveDescriptor::load_from_bytes(data.as_slice()) {
            Ok(descriptor) => {
                self.set_state_from_descriptor(None, Some(Arc::new(data)), Arc::new(descriptor));
                Ok(())
            },
            Err(error) => Err(error),
        }
    }

    /// Keeps the identifier list under which the shell knows the root
    /// folder.
    pub fn set_root_pidl_bytes(&mut self, data: Option<Vec<u8>>)
        ensures
            final(self)@ == (ProviderView {
                root_pidl: match data {
                    Some(data) => Some(data@),
                    None => None,
                },
                ..old(self)@
            }),
    {
        self.root_pidl = data;
    }

    /// The archive that the provider serves.
    pub fn descriptor(&self) -> (descriptor: Arc<MpqArchiveDescriptor>)
        ensures
            descriptor@ == self@.entries,
    {
        self.archive.clone()
    }

    /// The path of the archive file, where the archive came from a file.
    pub fn current_file(&self) -> (path: Option<String>)
        ensures
            path is Some == self@.path is Some,
            path is Some ==> path->0@ == self@.path->0,
    {
        match &self.path_utf8 {
            Some(path) => Some(path.clone()),
            None => None,
        }
    }

    /// The name under which the root of the archive is shown.
    pub fn friendly_storage_name(&self) -> (name: String)
        ensures
            name@ == friendly_name(self@.path),
    {
        match &self.path_utf8 {
            Some(path) => path.clone(),
            None => String::from_str(STREAM_SOURCE_NAME),
        }
    }

    /// Opens the entry that `name` names at the root. The root is a view
    /// like any other: the first entry whose path is `name`, ASCII case
    /// aside, is opened, or else the first whose path is `name` with `\`
    /// for `/`. Where neither is there, the first entry whose path is `./`
    /// and `name` is opened. An empty name is refused.
    pub fn open_stream(&self, name: &str) -> (opened: Result<MpqStream, MpqStorageError>)
        ensures
            name@.len() == 0 ==> opened matches Err(MpqStorageError::InvalidArgument),
            name@.len() > 0 ==> match root_stream_index(self@.entries, name@) {
                Some(i) => opened is Ok && opened->Ok_0@ == (StreamView {
                    bytes: self@.entries[i].data,
                    position: 0,
                }),
                None => opened matches Err(MpqStorageError::NotFound),
            },
    {
        if name.is_empty() {
            return Err(MpqStorageError::InvalidArgument);
        }
        let root = MpqStorage::open_root(self.archive.clone());
        match root.open_stream_by_path(name) {
            Ok(stream) => Ok(stream),
            Err(_) => {
                let wanted = chars_of(name);
                let mut other: Vec<char> = Vec::new();
                other.push('.');
                other.push('/');
                let mut k: usize = 0;
                while k < wanted.len()
                    invariant
                        k <= wanted.len(),
                        other@ == seq!['.', '/'] + wanted@.take(k as int),
                    decreases wanted.len() - k,
                {
                    other.push(wanted[k]);
                    k += 1;
                    assert(other@ =~= seq!['.', '/'] + wanted@.take(k as int));
                }
                assert(wanted@.take(k as int) =~= wanted@);
                let entries = self.archive.entries();
                match self.archive.position_of(other.as_slice()) {
                    Some(i) => Ok(MpqStream::new(entries[i].shared_data())),
                    None => Err(MpqStorageError::NotFound),
                }
            },
        }
    }

    /// Opens the directory `name` of the root. The root is a view like any
    /// other: the name has to be, ASCII case aside, one of the directory
    /// names that `list_children` gives for the root. An empty name is
    /// refused.
    pub fn open_storage(&self, name: &str) -> (opened: Result<MpqStorage, MpqStorageError>)
        ensures
            name@.len() == 0 ==> opened matches Err(MpqStorageError::InvalidArgument),
            name@.len() > 0 && has_directory(self@.entries, Seq::empty(), name@) ==> opened is Ok
                && opened->Ok_0@ == (StorageView { entries: self@.entries, prefix: name@ }),
            name@.len() > 0 && !has_directory(self@.entries, Seq::empty(), name@) ==> opened matches Err(
                MpqStorageError::NotFound,
            ),
    {
        if name.is_empty() {
            return Err(MpqStorageError::InvalidArgument);
        }
        MpqStorage::open_root(self.archive.clone()).open_storage(name)
    }

    /// A cursor over the children of the root, at its start.
    pub fn enum_elements(&self) -> (cursor: MpqEnumElements)
        ensures
            cursor@ == initial_cursor(self@.entries, Seq::empty()),
    {
        MpqEnumElements::new(self.archive.clone(), String::new())
    }

    /// The stat record of the root: the friendly name, the sum of the
    /// sizes of all entries (the largest `u64` where the sum is beyond it),
    /// and the mark of a container.
    pub fn stat(&self) -> (stat: MpqStat)
        ensures
            stat@ == (StatView {
                display_name: friendly_name(self@.path),
                size: clamp_size(total_size(self@.entries)),
                is_container: true,
            }),
    {
        MpqStat {
            display_name: self.friendly_storage_name(),
            size: self.archive.total_uncompressed_size(),
            is_container: true,
        }
    }

    /// Whether `name` is the name of the one item that the provider shows
    /// as a shell folder: the placeholder file, ASCII case aside.
    pub fn parses_display_name(name: &str) -> (known: bool)
        ensures
            known == crate::text::eq_ignore_case(name@, crate::archive::PLACEHOLDER_FILE_NAME@),
    {
        let wanted = chars_of(crate::archive::PLACEHOLDER_FILE_NAME);
        str_eq_ignore_case(name, wanted.as_slice())
    }
}

} // verus!
