//! The operations callers see: printing a blob, listing a tree, hashing a
//! file's content, building a tree object, and building a commit. Each works
//! on plain bytes; opening files and persisting the results is the caller's
//! part.

use vstd::prelude::*;
use crate::codec::blob_kind;
use crate::codec::blob_kind_vec;
use crate::codec::commit_kind;
use crate::codec::commit_kind_vec;
use crate::codec::frame_bytes;
use crate::codec::tree_kind;
use crate::codec::tree_kind_vec;
use crate::commit::commit_text;
use crate::commit::format_commit;
use crate::commit::opt_bytes;
use crate::store::ObjectWrite;
use crate::store::dir_path_of;
use crate::store::file_path_of;
use crate::store::object_digest;
use crate::store::read_object;
use crate::store::spec_decode;
use crate::tree::entry_leq;
use crate::tree::evs;
use crate::tree::serialize_entries;
use crate::tree::sort_entries;
use crate::tree::tree_bytes;
use crate::types::ObjError;
use crate::types::Object;
use crate::types::ObjectV;
use crate::types::TreeEntry;
use crate::types::TreeEntryMode;
use crate::types::TreeEntryV;
use crate::types::entry_ok;
use crate::types::valid_entry_name;
use crate::types::wf_entry;
use crate::util::copy_range;
use crate::util::is_valid_sha;
use crate::zlib::inflate_of;

verus! {

/// The blob payload of a compressed object file: its content bytes,
/// verbatim. Any other object kind is unsupported here; decode failures pass
/// through.
pub fn cat_file(z: &Vec<u8>) -> (r: Result<Vec<u8>, ObjError>)
    ensures
        (spec_decode(z@) matches Ok(o) && o is Blob) ==> (r matches Ok(c) && c@ == spec_decode(
            z@,
        ).unwrap()->Blob_0.contents),
        (spec_decode(z@) matches Ok(o) && !(o is Blob)) ==> r == Err::<Vec<u8>, ObjError>(
            ObjError::UnsupportedKind,
        ),
        spec_decode(z@) matches Err(e) ==> r == Err::<Vec<u8>, ObjError>(e),
{
    match read_object(z) {
        Ok(Object::Blob(b)) => Ok(b.contents),
        Ok(_) => Err(ObjError::UnsupportedKind),
        Err(e) => Err(e),
    }
}

/// The mode column `ls-tree` prints: six digits, zero-padded.
pub open spec fn ls_mode_bytes(m: TreeEntryMode) -> Seq<u8> {
    match m {
        TreeEntryMode::RegularFile => seq![49u8, 48u8, 48u8, 54u8, 52u8, 52u8],
        TreeEntryMode::ExecutableFile => seq![49u8, 48u8, 48u8, 55u8, 53u8, 53u8],
        TreeEntryMode::SymbolicLink => seq![49u8, 50u8, 48u8, 48u8, 48u8, 48u8],
        TreeEntryMode::Directory => seq![48u8, 52u8, 48u8, 48u8, 48u8, 48u8],
    }
}

/// The kind column: `tree` for a directory entry, `blob` otherwise.
pub open spec fn ls_kind_word(m: TreeEntryMode) -> Seq<u8> {
    match m {
        TreeEntryMode::Directory => seq![116u8, 114u8, 101u8, 101u8],
        _ => seq![98u8, 108u8, 111u8, 98u8],
    }
}

/// One output line of `ls-tree`: the name alone, or
/// `"<mode> <kind> <sha>\t<name>"`.
pub open spec fn ls_line(e: TreeEntryV, name_only: bool) -> Seq<u8> {
    if name_only {
        e.name
    } else {
        ls_mode_bytes(e.mode) + seq![32u8] + ls_kind_word(e.mode) + seq![32u8] + e.sha
            + seq![9u8] + e.name
    }
}

/// The mode column as bytes.
fn ls_mode_vec(m: TreeEntryMode) -> (r: Vec<u8>)
    ensures
        r@ == ls_mode_bytes(m),
{
    let mut v: Vec<u8> = Vec::new();
    match m {
        TreeEntryMode::RegularFile => {
            v.push(49);
            v.push(48);
            v.push(48);
            v.push(54);
            v.push(52);
            v.push(52);
        },
        TreeEntryMode::ExecutableFile => {
            v.push(49);
            v.push(48);
            v.push(48);
            v.push(55);
            v.push(53);
            v.push(53);
        },
        TreeEntryMode::SymbolicLink => {
            v.push(49);
            v.push(50);
            v.push(48);
            v.push(48);
            v.push(48);
            v.push(48);
        },
        TreeEntryMode::Directory => {
            v.push(48);
            v.push(52);
            v.push(48);
            v.push(48);
            v.push(48);
            v.push(48);
        },
    }
    proof {
        assert(v@ =~= ls_mode_bytes(m));
    }
    v
}

/// The kind column as bytes.
fn ls_kind_vec(m: TreeEntryMode) -> (r: Vec<u8>)
    ensures
        r@ == ls_kind_word(m),
{
    let mut v: Vec<u8> = Vec::new();
    match m {
        TreeEntryMode::Directory => {
            v.push(116);
            v.push(114);
            v.push(101);
            v.push(101);
        },
        _ => {
            v.push(98);
            v.push(108);
            v.push(111);
            v.push(98);
        },
    }
    proof {
        assert(v@ =~= ls_kind_word(m));
    }
    v
}

/// The lines `ls-tree` prints for a compressed tree object, in the stored
/// entry order. Any other object kind is unsupported here; decode failures
/// pass through.
pub fn ls_tree(z: &Vec<u8>, name_only: bool) -> (r: Result<Vec<Vec<u8>>, ObjError>)
    ensures
        (spec_decode(z@) matches Ok(o) && o is Tree) ==> (r matches Ok(lines) && {
            let es = spec_decode(z@).unwrap()->Tree_0;
            &&& lines@.len() == es.len()
            &&& forall|i: int| 0 <= i < es.len() ==> #[trigger] lines@[i]@ == ls_line(
                es[i],
                name_only,
            )
        }),
        (spec_decode(z@) matches Ok(o) && !(o is Tree)) ==> r == Err::<Vec<Vec<u8>>, ObjError>(
            ObjError::UnsupportedKind,
        ),
        spec_decode(z@) matches Err(e) ==> r == Err::<Vec<Vec<u8>>, ObjError>(e),
{
    let t = match read_object(z) {
        Ok(Object::Tree(t)) => t,
        Ok(_) => {
            return Err(ObjError::UnsupportedKind);
        },
        Err(e) => {
            return Err(e);
        },
    };
    let mut lines: Vec<Vec<u8>> = Vec::new();
    let mut i: usize = 0;
    while i < t.entries.len()
        invariant
            i <= t.entries@.len(),
            lines@.len() == i,
            forall|k: int| 0 <= k < i ==> #[trigger] lines@[k]@ == ls_line(t@[k], name_only),
        decreases t.entries@.len() - i,
    {
        let e = &t.entries[i];
        if name_only {
            let line = copy_range(&e.name, 0, e.name.len());
            proof {
                assert(line@ =~= t@[i as int].name);
            }
            lines.push(line);
        } else {
            let mut line = ls_mode_vec(e.mode);
            line.push(32);
            let kw = ls_kind_vec(e.mode);
            crate::hashing::append_bytes(&mut line, &kw);
            line.push(32);
            crate::hashing::append_bytes(&mut line, &e.object_sha);
            line.push(9);
            crate::hashing::append_bytes(&mut line, &e.name);
            proof {
                assert(line@ =~= ls_line(t@[i as int], name_only));
            }
            lines.push(line);
        }
        i = i + 1;
    }
    Ok(lines)
}

/// Hashes content as a blob object: the digest of `"blob <len>\0" + content`.
/// With `persist`, the result also carries the compressed frame and its
/// paths.
pub fn hash_object(content: &Vec<u8>, persist: bool) -> (r: ObjectWrite)
    ensures
        r.object_sha@ == object_digest(blob_kind(), content@),
        crate::types::is_hex40(r.object_sha@),
        persist ==> (r.store matches Some(t) && inflate_of(t.compressed@) == Some(
            frame_bytes(blob_kind(), content@),
        ) && t.dir_path@ == dir_path_of(r.object_sha@) && t.file_path@ == file_path_of(
            r.object_sha@,
        )),
        !persist ==> r.store is None,
{
    let kind = blob_kind_vec();
    match crate::store::write(&kind, content.len() as u64, content, persist) {
        Ok(w) => w,
        Err(_) => {
            proof {
                assert(false);
            }
            ObjectWrite { object_sha: Vec::new(), store: None }
        },
    }
}

/// Builds and stores a commit object: the formatted body, framed as kind
/// `commit`, hashed and compressed.
pub fn commit_tree(
    tree_sha: &Vec<u8>,
    parent_sha: &Option<Vec<u8>>,
    identity: &Vec<u8>,
    message: &Vec<u8>,
) -> (r: ObjectWrite)
    ensures
        ({
            let body = commit_text(tree_sha@, opt_bytes(*parent_sha), identity@, message@);
            &&& r.object_sha@ == object_digest(commit_kind(), body)
            &&& crate::types::is_hex40(r.object_sha@)
            &&& r.store matches Some(t) && inflate_of(t.compressed@) == Some(
                frame_bytes(commit_kind(), body),
            ) && t.dir_path@ == dir_path_of(r.object_sha@) && t.file_path@ == file_path_of(
                r.object_sha@,
            )
        }),
{
    let body = format_commit(tree_sha, parent_sha, identity, message);
    let kind = commit_kind_vec();
    match crate::store::write(&kind, body.len() as u64, &body, true) {
        Ok(w) => w,
        Err(_) => {
            proof {
                assert(false);
            }
            ObjectWrite { object_sha: Vec::new(), store: None }
        },
    }
}

/// A directory entry for the tree just built, plus what to persist for it.
#[derive(Debug)]
pub struct TreeWrite {
    pub entry: TreeEntry,
    pub write: ObjectWrite,
}

/// Whether a name is acceptable in an entry built by this store: non-empty,
/// no NUL, no path separator.
pub fn check_name(n: &Vec<u8>) -> (r: bool)
    ensures
        r == valid_entry_name(n@),
{
    if n.len() == 0 {
        return false;
    }
    let mut i: usize = 0;
    while i < n.len()
        invariant
            i <= n@.len(),
            forall|j: int| 0 <= j < i ==> #[trigger] n@[j] != 0 && n@[j] != 47,
        decreases n@.len() - i,
    {
        let c = n[i];
        if c == 0 || c == 47 {
            return false;
        }
        i = i + 1;
    }
    true
}

/// Builds and stores one tree object for a directory: sorts the collected
/// entries by the entry order, serializes them, and frames the bytes as kind
/// `tree`. Returns the directory's own entry — mode `Directory`, the given
/// name, the tree's digest — and what to persist. Rejected as `Corrupt`: a
/// name that is not a path segment, or an entry whose name or digest is not
/// well-formed.
pub fn write_tree(name: &Vec<u8>, entries: Vec<TreeEntry>) -> (r: Result<TreeWrite, ObjError>)
    ensures
        ({
            let ok = valid_entry_name(name@) && forall|i: int|
                0 <= i < entries@.len() ==> entry_ok(#[trigger] entries@[i]@);
            let sorted = evs(entries@).sort_by(entry_leq());
            let bytes = tree_bytes(sorted);
            let sha = object_digest(tree_kind(), bytes);
            &&& !ok ==> r == Err::<TreeWrite, ObjError>(ObjError::Corrupt)
            &&& ok ==> (r matches Ok(tw) && {
                &&& tw.entry@ == (TreeEntryV {
                    mode: TreeEntryMode::Directory,
                    name: name@,
                    sha: sha,
                })
                &&& tw.write.object_sha@ == sha
                &&& tw.write.store matches Some(t) && inflate_of(t.compressed@) == Some(
                    frame_bytes(tree_kind(), bytes),
                ) && t.dir_path@ == dir_path_of(sha) && t.file_path@ == file_path_of(sha)
            })
        }),
{
    if !check_name(name) {
        return Err(ObjError::Corrupt);
    }
    let mut i: usize = 0;
    while i < entries.len()
        invariant
            i <= entries@.len(),
            forall|k: int| 0 <= k < i ==> entry_ok(#[trigger] entries@[k]@),
        decreases entries@.len() - i,
    {
        let e = &entries[i];
        if !check_name(&e.name) || !is_valid_sha(&e.object_sha) {
            proof {
                assert(!entry_ok(entries@[i as int]@));
            }
            return Err(ObjError::Corrupt);
        }
        i = i + 1;
    }
    let sorted = sort_entries(entries);
    proof {
        crate::tree::lemma_entry_le_total_ordering();
        evs(entries@).lemma_sort_by_ensures(entry_leq());
        assert forall|k: int| 0 <= k < sorted@.len() implies wf_entry(#[trigger] sorted@[k]@) by {
            let x = evs(sorted@)[k];
            assert(evs(sorted@).contains(x));
            assert(evs(entries@).contains(x));
            let j = choose|j: int| 0 <= j < evs(entries@).len() && evs(entries@)[j] == x;
            assert(entry_ok(entries@[j]@));
        }
    }
    let bytes = serialize_entries(&sorted);
    let kind = tree_kind_vec();
    let w = match crate::store::write(&kind, bytes.len() as u64, &bytes, true) {
        Ok(w) => w,
        Err(_) => {
            proof {
                assert(false);
            }
            return Err(ObjError::Corrupt);
        },
    };
    let sha_copy = copy_range(&w.object_sha, 0, w.object_sha.len());
    proof {
        assert(sha_copy@ =~= w.object_sha@);
    }
    let entry = TreeEntry {
        mode: TreeEntryMode::Directory,
        name: copy_range(name, 0, name.len()),
        object_sha: sha_copy,
    };
    proof {
        assert(entry@.name =~= name@);
    }
    Ok(TreeWrite { entry: entry, write: w })
}

/// Whether a directory entry name is hidden: it begins with the hidden-file
/// marker.
pub fn is_hidden(name: &Vec<u8>) -> (r: bool)
    ensures
        r == (name@.len() > 0 && name@[0] == 46),
{
    name.len() > 0 && name[0] == 46
}

} // verus!
