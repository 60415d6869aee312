//! Data model of the object store: object kinds, tree entries, and the error
//! taxonomy. Names, digests and contents are byte sequences throughout: blob
//! contents are opaque binary data, tree entry names are the exact on-disk
//! name bytes, and digests are carried as 40 lowercase hex digit bytes.

use vstd::prelude::*;

verus! {

/// The mode tag recorded for a tree entry.
#[derive(Clone, Copy, Debug, PartialEq, Eq, Structural)]
pub enum TreeEntryMode {
    RegularFile,
    ExecutableFile,
    SymbolicLink,
    Directory,
}

/// Opaque file content stored as an object. `size` is the byte length that
/// the object header declared, and always equals `contents.len()`.
#[derive(Debug, PartialEq, Eq)]
pub struct Blob {
    pub size: u64,
    pub contents: Vec<u8>,
}

/// One entry of a directory snapshot. `object_sha` is the digest of the
/// referenced blob or tree, as 40 lowercase hex digit bytes.
#[derive(Debug, PartialEq, Eq)]
pub struct TreeEntry {
    pub mode: TreeEntryMode,
    pub name: Vec<u8>,
    pub object_sha: Vec<u8>,
}

/// A directory snapshot: an ordered sequence of entries.
#[derive(Debug, PartialEq, Eq)]
pub struct Tree {
    pub entries: Vec<TreeEntry>,
}

/// A commit record: one tree, zero or more parents, optional author and
/// committer identity lines, and a free-text message.
#[derive(Debug, PartialEq, Eq)]
pub struct Commit {
    pub tree: Vec<u8>,
    pub parents: Vec<Vec<u8>>,
    pub author: Option<Vec<u8>>,
    pub committer: Option<Vec<u8>>,
    pub message: Vec<u8>,
}

/// An immutable, hash-identified unit of storage.
#[derive(Debug, PartialEq, Eq)]
pub enum Object {
    Blob(Blob),
    Tree(Tree),
    Commit(Commit),
}

/// The closed error taxonomy of the store.
#[derive(Clone, Copy, Debug, PartialEq, Eq, Structural)]
pub enum ObjError {
    /// The object path is absent on read.
    NotFound,
    /// Decompression failed, the header or a tree entry is malformed, the
    /// declared length disagrees with the content, or a tree entry was cut
    /// short.
    Corrupt,
    /// The decoded kind tag is none of `blob`, `tree`, `commit`.
    UnsupportedKind,
    /// A tree entry mode string outside the closed mode set.
    UnsupportedMode,
    /// The declared length handed to an encode does not equal the number of
    /// content bytes.
    LengthMismatch,
    /// Directory creation, temporary file creation, or rename failed.
    IOFailure,
}

/// Mathematical value of a tree entry.
#[verifier::ext_equal]
pub ghost struct TreeEntryV {
    pub mode: TreeEntryMode,
    pub name: Seq<u8>,
    pub sha: Seq<u8>,
}

/// Mathematical value of a blob.
#[verifier::ext_equal]
pub ghost struct BlobV {
    pub size: nat,
    pub contents: Seq<u8>,
}

/// Mathematical value of a commit.
#[verifier::ext_equal]
pub ghost struct CommitV {
    pub tree: Seq<u8>,
    pub parents: Seq<Seq<u8>>,
    pub author: Option<Seq<u8>>,
    pub committer: Option<Seq<u8>>,
    pub message: Seq<u8>,
}

/// Mathematical value of an object.
#[verifier::ext_equal]
pub ghost enum ObjectV {
    Blob(BlobV),
    Tree(Seq<TreeEntryV>),
    Commit(CommitV),
}

impl View for TreeEntry {
    type V = TreeEntryV;

    open spec fn view(&self) -> TreeEntryV {
        TreeEntryV { mode: self.mode, name: self.name@, sha: self.object_sha@ }
    }
}

impl View for Blob {
    type V = BlobV;

    open spec fn view(&self) -> BlobV {
        BlobV { size: self.size as nat, contents: self.contents@ }
    }
}

impl View for Commit {
    type V = CommitV;

    open spec fn view(&self) -> CommitV {
        CommitV {
            tree: self.tree@,
            parents: self.parents@.map_values(|p: Vec<u8>| p@),
            author: match self.author {
                Some(a) => Some(a@),
                None => None,
            },
            committer: match self.committer {
                Some(c) => Some(c@),
                None => None,
            },
            message: self.message@,
        }
    }
}

impl View for Tree {
    type V = Seq<TreeEntryV>;

    open spec fn view(&self) -> Seq<TreeEntryV> {
        self.entries@.map_values(|e: TreeEntry| e@)
    }
}

impl View for Object {
    type V = ObjectV;

    open spec fn view(&self) -> ObjectV {
        match self {
            Object::Blob(b) => ObjectV::Blob(b@),
            Object::Tree(t) => ObjectV::Tree(t@),
            Object::Commit(c) => ObjectV::Commit(c@),
        }
    }
}

/// A well-formed blob declares exactly its content length.
pub open spec fn wf_blob(b: BlobV) -> bool {
    b.size == b.contents.len()
}

/// True of a byte that is a lowercase hex digit.
pub open spec fn is_lower_hex_digit(b: u8) -> bool {
    (48 <= b <= 57) || (97 <= b <= 102)
}

/// True of a byte sequence of exactly 40 lowercase hex digits: the external
/// representation of a digest.
pub open spec fn is_hex40(s: Seq<u8>) -> bool {
    s.len() == 40 && forall|i: int| 0 <= i < s.len() ==> is_lower_hex_digit(#[trigger] s[i])
}

/// A name acceptable in a tree entry built by this store: a non-empty path
/// segment, so it holds neither a NUL terminator nor a path separator.
pub open spec fn valid_entry_name(n: Seq<u8>) -> bool {
    n.len() > 0 && forall|i: int| 0 <= i < n.len() ==> #[trigger] n[i] != 0 && n[i] != 47
}

/// An entry the tree builder accepts: a valid path-segment name and a
/// 40-digit lowercase hex digest.
pub open spec fn entry_ok(e: TreeEntryV) -> bool {
    valid_entry_name(e.name) && is_hex40(e.sha)
}

/// An entry as decode produces it: the name holds no NUL byte (it was read up
/// to a NUL terminator) and the digest is 40 lowercase hex digits.
pub open spec fn wf_entry(e: TreeEntryV) -> bool {
    (forall|i: int| 0 <= i < e.name.len() ==> #[trigger] e.name[i] != 0) && is_hex40(e.sha)
}

} // verus!
