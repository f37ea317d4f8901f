//! The entries of an opened archive and the descriptor that holds them.

use std::sync::Arc;
use vstd::prelude::*;
use vstd::string::StringExecFns;
use vstd::string::StrSliceExecFns;
use vstd::utf8::encode_utf8;
use crate::text::{chars_of, decimal, eq_ignore_case, push_decimal, str_eq_ignore_case};

verus! {

/// The name of the single entry of a placeholder archive.
pub const PLACEHOLDER_FILE_NAME: &'static str = "TEST.txt";

/// The first line of the single entry of a placeholder archive.
pub const PLACEHOLDER_HEADER: &'static str = "MPQ archive preview is not implemented yet.";

/// What an entry is: its path and its bytes. The size of an entry is the
/// number of its bytes.
pub ghost struct EntryView {
    pub path: Seq<char>,
    pub data: Seq<u8>,
}

impl EntryView {
    /// The size of the entry: the number of its bytes.
    pub open spec fn size(self) -> nat {
        self.data.len()
    }
}

/// One record of an archive: a path, and a shared, immutable byte buffer
/// with its length.
#[derive(Debug)]
pub struct MpqEntry {
    path: String,
    uncompressed_size: u64,
    compressed_size: u64,
    data: Arc<Vec<u8>>,
}

impl View for MpqEntry {
    type V = EntryView;

    closed spec fn view(&self) -> EntryView {
        EntryView { path: self.path@, data: self.data@ }
    }
}

impl Clone for MpqEntry {
    /// A second handle on the same entry: the path is copied, the buffer
    /// is shared.
    fn clone(&self) -> (entry: Self)
        ensures
            entry@ == self@,
    {
        proof {
            use_type_invariant(self);
        }
        Self {
            path: self.path.clone(),
            uncompressed_size: self.uncompressed_size,
            compressed_size: self.compressed_size,
            data: self.data.clone(),
        }
    }
}

impl MpqEntry {
    #[verifier::type_invariant]
    spec fn inv(&self) -> bool {
        &&& self.path@.len() > 0
        &&& self.uncompressed_size == self.data@.len()
        &&& self.compressed_size == self.data@.len()
    }

    /// An entry with the given path and bytes.
    pub fn from_bytes(path: String, bytes: Vec<u8>) -> (entry: Self)
        requires
            path@.len() > 0,
        ensures
            entry@ == (EntryView { path: path@, data: bytes@ }),
    {
        let len = bytes.len() as u64;
        Self { path, uncompressed_size: len, compressed_size: len, data: Arc::new(bytes) }
    }

    /// An entry with the given path and bytes, or `None` where the path is
    /// empty: an entry needs a path.
    pub fn checked_from_bytes(path: String, bytes: Vec<u8>) -> (entry: Option<Self>)
        ensures
            entry is Some == (path@.len() > 0),
            entry is Some ==> entry->0@ == (EntryView { path: path@, data: bytes@ }),
    {
        if path.as_str().is_empty() {
            None
        } else {
            Some(Self::from_bytes(path, bytes))
        }
    }

    /// An entry whose bytes are the UTF-8 encoding of `text`.
    pub fn from_text(path: &str, text: String) -> (entry: Self)
        requires
            path@.len() > 0,
        ensures
            entry@ == (EntryView { path: path@, data: encode_utf8(text@) }),
    {
        Self::from_bytes(String::from_str(path), text.as_str().as_bytes_vec())
    }

    /// The path of the entry as the archive stores it.
    pub fn path(&self) -> (path: &str)
        ensures
            path@ == self@.path,
            path@.len() > 0,
    {
        proof {
            use_type_invariant(self);
        }
        self.path.as_str()
    }

    /// The number of bytes of the entry.
    pub fn uncompressed_size(&self) -> (size: u64)
        ensures
            size == self@.size(),
    {
        proof {
            use_type_invariant(self);
        }
        self.uncompressed_size
    }

    /// The number of bytes that the entry takes in the archive, which is
    /// the number of its bytes.
    pub fn compressed_size(&self) -> (size: u64)
        ensures
            size == self@.size(),
    {
        proof {
            use_type_invariant(self);
        }
        self.compressed_size
    }

    /// The bytes of the entry.
    pub fn data(&self) -> (data: &[u8])
        ensures
            data@ == self@.data,
    {
        self.data.as_slice()
    }

    /// The shared buffer of the entry; no byte is copied.
    pub fn shared_data(&self) -> (data: Arc<Vec<u8>>)
        ensures
            data@ == self@.data,
    {
        self.data.clone()
    }
}

/// What the entries of a list are.
pub open spec fn entry_views(entries: Seq<MpqEntry>) -> Seq<EntryView> {
    Seq::new(entries.len(), |i: int| entries[i]@)
}

/// The sum of the sizes of the given entries.
pub open spec fn total_size(entries: Seq<EntryView>) -> nat
    decreases entries.len(),
{
    if entries.len() == 0 {
        0
    } else {
        total_size(entries.drop_last()) + entries.last().size()
    }
}

/// A size as a `u64` holds it: sizes beyond the largest `u64` are held as
/// the largest `u64`.
pub open spec fn clamp_size(n: nat) -> u64 {
    if n <= u64::MAX {
        n as u64
    } else {
        u64::MAX
    }
}

/// `i` is the first entry whose path is `name`, ASCII case aside.
pub open spec fn is_first_match(entries: Seq<EntryView>, name: Seq<char>, i: int) -> bool {
    &&& 0 <= i < entries.len()
    &&& eq_ignore_case(entries[i].path, name)
    &&& forall|j: int| 0 <= j < i ==> !eq_ignore_case(#[trigger] entries[j].path, name)
}

/// The index of the first entry whose path is `name`, ASCII case aside, or
/// `None` where no entry has that path.
pub open spec fn find_index(entries: Seq<EntryView>, name: Seq<char>) -> Option<int> {
    if exists|i: int| is_first_match(entries, name, i) {
        Some(choose|i: int| is_first_match(entries, name, i))
    } else {
        None
    }
}

/// The first match is `find_index`.
pub proof fn lemma_find_index_some(entries: Seq<EntryView>, name: Seq<char>, i: int)
    requires
        is_first_match(entries, name, i),
    ensures
        find_index(entries, name) == Some(i),
{
    let k = choose|k: int| is_first_match(entries, name, k);
    if k < i {
        assert(!eq_ignore_case(entries[k].path, name));
    } else if i < k {
        assert(!eq_ignore_case(entries[i].path, name));
    }
}

/// Without an entry of that path `find_index` is `None`.
pub proof fn lemma_find_index_none(entries: Seq<EntryView>, name: Seq<char>)
    requires
        forall|j: int| 0 <= j < entries.len() ==> !eq_ignore_case(#[trigger] entries[j].path, name),
    ensures
        find_index(entries, name) is None,
{
}

/// The text of the single entry of a placeholder archive: the header line
/// and the message, each followed by a carriage return and a line feed.
pub open spec fn placeholder_body(message: Seq<char>) -> Seq<char> {
    PLACEHOLDER_HEADER@ + seq!['\r', '\n'] + message + seq!['\r', '\n']
}

/// The entries of the placeholder archive that carries `message`.
pub open spec fn placeholder_entries(message: Seq<char>) -> Seq<EntryView> {
    seq![
        EntryView { path: PLACEHOLDER_FILE_NAME@, data: encode_utf8(placeholder_body(message)) },
    ]
}

/// The message of the placeholder archive that stands for the file `path`.
pub open spec fn path_message(path: Seq<char>) -> Seq<char> {
    "Source archive path: "@ + path
}

/// The message of the placeholder archive that stands for a stream of
/// `len` bytes.
pub open spec fn stream_message(len: nat) -> Seq<char> {
    "Source archive provided via stream ("@ + decimal(len) + " bytes)."@
}

/// The complete, ordered set of entries of one opened archive. It does not
/// change once it is built, and its entries are shared by every copy.
#[derive(Debug)]
pub struct MpqArchiveDescriptor {
    entries: Arc<Vec<MpqEntry>>,
}

impl View for MpqArchiveDescriptor {
    type V = Seq<EntryView>;

    closed spec fn view(&self) -> Seq<EntryView> {
        entry_views(self.entries@)
    }
}

impl Clone for MpqArchiveDescriptor {
    /// A second handle on the same entries.
    fn clone(&self) -> (descriptor: Self)
        ensures
            descriptor@ == self@,
    {
        Self { entries: self.entries.clone() }
    }
}

impl MpqArchiveDescriptor {
    /// The descriptor of the given entries, in their order.
    pub fn new(entries: Vec<MpqEntry>) -> (descriptor: Self)
        ensures
            descriptor@ == entry_views(entries@),
    {
        Self { entries: Arc::new(entries) }
    }

    /// A descriptor of one entry that explains why no real content is
    /// shown: the entry is named `PLACEHOLDER_FILE_NAME` and holds the
    /// header line and `message`.
    pub fn placeholder(message: &str) -> (descriptor: Self)
        ensures
            descriptor@ == placeholder_entries(message@),
    {
        let mut body = String::from_str(PLACEHOLDER_HEADER);
        body.push('\r');
        body.push('\n');
        body.append(message);
        body.push('\r');
        body.push('\n');
        assert(body@ =~= placeholder_body(message@));
        proof {
            reveal_strlit("TEST.txt");
        }
        let mut entries: Vec<MpqEntry> = Vec::new();
        entries.push(MpqEntry::from_text(PLACEHOLDER_FILE_NAME, body));
        let ghost held = entries@;
        let descriptor = Self::new(entries);
        assert(descriptor@[0] == held[0]@);
        assert(descriptor@ =~= placeholder_entries(message@));
        descriptor
    }

    /// The placeholder for an archive file at `path`.
    pub fn placeholder_from_path(path: &str) -> (descriptor: Self)
        ensures
            descriptor@ == placeholder_entries(path_message(path@)),
    {
        let mut message = String::from_str("Source archive path: ");
        message.append(path);
        Self::placeholder(message.as_str())
    }

    /// The placeholder for an archive handed over as a stream of `len`
    /// bytes.
    pub fn placeholder_from_stream(len: usize) -> (descriptor: Self)
        ensures
            descriptor@ == placeholder_entries(stream_message(len as nat)),
    {
        let mut message = String::from_str("Source archive provided via stream (");
        push_decimal(&mut message, len as u64);
        message.append(" bytes).");
        Self::placeholder(message.as_str())
    }

    /// Opens the archive file at `path`. The container format is not read:
    /// the result is always the placeholder for that path.
    pub fn load_from_path(path: &str) -> (loaded: Result<Self, MpqArchiveError>)
        ensures
            loaded is Ok,
            loaded->Ok_0@ == placeholder_entries(path_message(path@)),
    {
        Ok(Self::placeholder_from_path(path))
    }

    /// Opens an archive held in memory. The container format is not read:
    /// the result is always the placeholder for a stream of that many
    /// bytes.
    pub fn load_from_bytes(bytes: &[u8]) -> (loaded: Result<Self, MpqArchiveError>)
        ensures
            loaded is Ok,
            loaded->Ok_0@ == placeholder_entries(stream_message(bytes@.len())),
    {
        Ok(Self::placeholder_from_stream(bytes.len()))
    }

    /// What a load has come to: the archive that was loaded, or, where the
    /// load failed, the placeholder archive that says why. So there is a
    /// descriptor to show whatever happened.
    pub fn or_placeholder(loaded: Result<Self, MpqArchiveError>) -> (descriptor: Self)
        ensures
            descriptor@ == match loaded {
                Ok(archive) => archive@,
                Err(error) => placeholder_entries(error_text(error)),
            },
    {
        match loaded {
            Ok(archive) => archive,
            Err(error) => Self::placeholder(error.message().as_str()),
        }
    }

    /// The entries in their order.
    pub fn entries(&self) -> (entries: &[MpqEntry])
        ensures
            entry_views(entries@) == self@,
    {
        self.entries.as_slice()
    }

    /// The sum of the sizes of all entries, or the largest `u64` where the
    /// sum is beyond it.
    pub fn total_uncompressed_size(&self) -> (total: u64)
        ensures
            total == clamp_size(total_size(self@)),
    {
        let entries = self.entries();
        let mut total: u64 = 0;
        let mut i: usize = 0;
        while i < entries.len()
            invariant
                i <= entries.len(),
                entry_views(entries@) == self@,
                total == clamp_size(total_size(self@.take(i as int))),
            decreases entries.len() - i,
        {
            assert(self@.take(i + 1).drop_last() =~= self@.take(i as int));
            total = total.saturating_add(entries[i].uncompressed_size());
            i += 1;
        }
        assert(self@.take(i as int) =~= self@);
        total
    }

    /// The index of the first entry whose path is `name`, ASCII case
    /// aside.
    pub fn position_of(&self, name: &[char]) -> (found: Option<usize>)
        ensures
            found is Some == find_index(self@, name@) is Some,
            found is Some ==> found->0 == find_index(self@, name@)->0,
            found is Some ==> found->0 < self@.len(),
    {
        let entries = self.entries();
        let mut i: usize = 0;
        while i < entries.len()
            invariant
                i <= entries.len(),
                entry_views(entries@) == self@,
                forall|j: int| 0 <= j < i ==> !eq_ignore_case(#[trigger] self@[j].path, name@),
            decreases entries.len() - i,
        {
            if str_eq_ignore_case(entries[i].path(), name) {
                proof {
                    lemma_find_index_some(self@, name@, i as int);
                }
                return Some(i);
            }
            i += 1;
        }
        proof {
            lemma_find_index_none(self@, name@);
        }
        None
    }

    /// The first entry whose path is `name`, ASCII case aside.
    pub fn find_entry(&self, name: &str) -> (found: Option<&MpqEntry>)
        ensures
            found is Some == find_index(self@, name@) is Some,
            found is Some ==> found->0@ == self@[find_index(self@, name@)->0],
    {
        let wanted = chars_of(name);
        match self.position_of(wanted.as_slice()) {
            Some(i) => Some(&self.entries()[i]),
            None => None,
        }
    }
}

/// Why an archive could not be prepared.
#[derive(Debug)]
pub enum MpqArchiveError {
    /// The source could not be read; the text is that of the I/O error.
    Io(String),
    /// The source is an archive of a kind that is not handled.
    Unsupported(&'static str),
    /// The source is damaged.
    Corrupted(String),
}

/// The text of an error.
pub open spec fn error_text(error: MpqArchiveError) -> Seq<char> {
    match error {
        MpqArchiveError::Io(detail) => "I/O error: "@ + detail@,
        MpqArchiveError::Unsupported(reason) => "Unsupported archive: "@ + reason@,
        MpqArchiveError::Corrupted(detail) => "Corrupted archive: "@ + detail@,
    }
}

impl MpqArchiveError {
    /// The error as a line of text.
    pub fn message(&self) -> (text: String)
        ensures
            text@ == error_text(*self),
    {
        match self {
            MpqArchiveError::Io(detail) => String::from_str("I/O error: ").concat(detail.as_str()),
            MpqArchiveError::Unsupported(reason) => String::from_str("Unsupported archive: ").concat(
                reason,
            ),
            MpqArchiveError::Corrupted(detail) => String::from_str("Corrupted archive: ").concat(
                detail.as_str(),
            ),
        }
    }
}

} // verus!
