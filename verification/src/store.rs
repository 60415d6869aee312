//! The object store's content-addressed write and read paths.
//!
//! Writing frames and hashes the content in one pass, so the digest is known
//! before any path is chosen, then compresses the frame and derives the
//! two-level fan-out paths from the digest. Persisting the compressed bytes
//! at those paths — temporary file, then atomic rename — is the caller's
//! part; everything up to the bytes and paths is computed here.

use vstd::prelude::*;
use crate::codec::blob_kind;
use crate::codec::commit_kind;
use crate::codec::encode_object;
use crate::codec::frame_bytes;
use crate::codec::parse_object;
use crate::codec::spec_parse_object;
use crate::codec::tree_kind;
use crate::hashing::hex_encode;
use crate::hashing::hex_of;
use crate::hashing::lemma_hex_of_len;
use crate::hashing::sha1_of;
use crate::types::ObjError;
use crate::types::Object;
use crate::types::ObjectV;
use crate::util::copy_range;
use crate::zlib::inflate_of;
use crate::zlib::zlib_compress;
use crate::zlib::zlib_decompress;

verus! {

/// The digest of an object with this kind and content: SHA-1 over the
/// uncompressed frame, in hex.
pub open spec fn object_digest(kind: Seq<u8>, content: Seq<u8>) -> Seq<u8> {
    hex_of(sha1_of(frame_bytes(kind, content)))
}

/// `".git/objects/"`.
pub open spec fn objects_prefix() -> Seq<u8> {
    seq![46u8, 103u8, 105u8, 116u8, 47u8, 111u8, 98u8, 106u8, 101u8, 99u8, 116u8, 115u8, 47u8]
}

/// The fan-out directory of a digest: the prefix plus its first two hex
/// digits.
pub open spec fn dir_path_of(sha: Seq<u8>) -> Seq<u8> {
    objects_prefix() + sha.take(2)
}

/// The object file of a digest: its fan-out directory, a separator, and the
/// remaining 38 hex digits.
pub open spec fn file_path_of(sha: Seq<u8>) -> Seq<u8> {
    dir_path_of(sha) + seq![47u8] + sha.skip(2)
}

/// The fan-out directory and object file paths of a digest.
pub fn paths_from_sha(object_sha: &Vec<u8>) -> (r: (Vec<u8>, Vec<u8>))
    requires
        object_sha@.len() >= 2,
    ensures
        r.0@ == dir_path_of(object_sha@),
        r.1@ == file_path_of(object_sha@),
{
    let mut dir: Vec<u8> = Vec::new();
    dir.push(46);
    dir.push(103);
    dir.push(105);
    dir.push(116);
    dir.push(47);
    dir.push(111);
    dir.push(98);
    dir.push(106);
    dir.push(101);
    dir.push(99);
    dir.push(116);
    dir.push(115);
    dir.push(47);
    proof {
        assert(dir@ =~= objects_prefix());
    }
    let prefix = copy_range(object_sha, 0, 2);
    crate::hashing::append_bytes(&mut dir, &prefix);
    proof {
        assert(dir@ =~= dir_path_of(object_sha@));
    }
    let mut file: Vec<u8> = Vec::new();
    crate::hashing::append_bytes(&mut file, &dir);
    file.push(47);
    let rest = copy_range(object_sha, 2, object_sha.len());
    crate::hashing::append_bytes(&mut file, &rest);
    proof {
        assert(rest@ =~= object_sha@.skip(2));
        assert(file@ =~= file_path_of(object_sha@));
    }
    (dir, file)
}

/// Where and what to persist for one object: the compressed frame and the
/// fan-out paths derived from its digest.
#[derive(Debug)]
pub struct StoreTarget {
    pub dir_path: Vec<u8>,
    pub file_path: Vec<u8>,
    pub compressed: Vec<u8>,
}

/// The outcome of a write: the digest, and the bytes and paths to persist
/// when persistence was asked for.
#[derive(Debug)]
pub struct ObjectWrite {
    pub object_sha: Vec<u8>,
    pub store: Option<StoreTarget>,
}

/// Frames, hashes and compresses one object. The digest is the object's
/// identity: the same kind and content always give the same digest. With
/// `persist` the result carries the compressed frame and the paths to
/// install it at; without, only the digest. The declared length must equal
/// the content length, or nothing is computed and the mismatch is reported.
pub fn write(kind: &Vec<u8>, declared_len: u64, content: &Vec<u8>, persist: bool) -> (r: Result<
    ObjectWrite,
    ObjError,
>)
    requires
        kind@ == blob_kind() || kind@ == tree_kind() || kind@ == commit_kind(),
    ensures
        declared_len != content@.len() ==> r == Err::<ObjectWrite, ObjError>(
            ObjError::LengthMismatch,
        ),
        declared_len == content@.len() ==> (r matches Ok(w) && {
            &&& w.object_sha@ == object_digest(kind@, content@)
            &&& crate::types::is_hex40(w.object_sha@)
            &&& persist ==> (w.store matches Some(t) && inflate_of(t.compressed@) == Some(
                frame_bytes(kind@, content@),
            ) && t.dir_path@ == dir_path_of(w.object_sha@) && t.file_path@ == file_path_of(
                w.object_sha@,
            ))
            &&& !persist ==> w.store is None
        }),
{
    if declared_len != content.len() as u64 {
        return Err(ObjError::LengthMismatch);
    }
    let (frame, digest_raw) = encode_object(kind, content);
    let object_sha = hex_encode(&digest_raw);
    proof {
        lemma_hex_of_len(digest_raw@);
        crate::hashing::lemma_hex_of_lower(digest_raw@);
    }
    if persist {
        let compressed = zlib_compress(&frame);
        let (dir_path, file_path) = paths_from_sha(&object_sha);
        Ok(
            ObjectWrite {
                object_sha: object_sha,
                store: Some(
                    StoreTarget {
                        dir_path: dir_path,
                        file_path: file_path,
                        compressed: compressed,
                    },
                ),
            },
        )
    } else {
        Ok(ObjectWrite { object_sha: object_sha, store: None })
    }
}

/// What decoding a compressed object file gives: `Corrupt` if the bytes are
/// no zlib stream, otherwise the parse of the decompressed bytes.
pub open spec fn spec_decode(z: Seq<u8>) -> Result<ObjectV, ObjError> {
    match inflate_of(z) {
        None => Err(ObjError::Corrupt),
        Some(s) => spec_parse_object(s),
    }
}

/// Reading back a written blob gives the blob: any stored stream that
/// decompresses to the frame `write` builds for kind `blob` and some content
/// — the empty content included — decodes to a blob holding exactly that
/// content.
pub proof fn lemma_decode_blob(z: Seq<u8>, content: Seq<u8>)
    requires
        content.len() <= usize::MAX,
        inflate_of(z) == Some(frame_bytes(blob_kind(), content)),
    ensures
        spec_decode(z) == Ok::<ObjectV, ObjError>(
            ObjectV::Blob((crate::types::BlobV { size: content.len(), contents: content })),
        ),
{
    crate::codec::lemma_parse_object_blob(content);
}

/// Reading back a written tree gives its entries: any stored stream that
/// decompresses to the frame `write` builds for kind `tree` over the
/// serialized bytes of well-formed entries decodes to exactly those entries.
pub proof fn lemma_decode_tree(z: Seq<u8>, entries: Seq<crate::types::TreeEntryV>)
    requires
        forall|k: int| 0 <= k < entries.len() ==> crate::types::wf_entry(#[trigger] entries[k]),
        crate::tree::tree_bytes(entries).len() <= usize::MAX,
        inflate_of(z) == Some(frame_bytes(tree_kind(), crate::tree::tree_bytes(entries))),
    ensures
        spec_decode(z) == Ok::<ObjectV, ObjError>(ObjectV::Tree(entries)),
{
    crate::codec::lemma_parse_object_tree(entries);
}

/// Writing one kind and content twice is harmless: both writes carry the
/// same digest, and the two stored streams decode to the same object; for a
/// blob, to the original content both times.
pub proof fn lemma_write_idempotent(
    kind: Seq<u8>,
    content: Seq<u8>,
    first_sha: Seq<u8>,
    second_sha: Seq<u8>,
    first_z: Seq<u8>,
    second_z: Seq<u8>,
)
    requires
        first_sha == object_digest(kind, content),
        second_sha == object_digest(kind, content),
        inflate_of(first_z) == Some(frame_bytes(kind, content)),
        inflate_of(second_z) == Some(frame_bytes(kind, content)),
    ensures
        first_sha == second_sha,
        spec_decode(first_z) == spec_decode(second_z),
        (kind == blob_kind() && content.len() <= usize::MAX) ==> spec_decode(first_z) == Ok::<
            ObjectV,
            ObjError,
        >(ObjectV::Blob((crate::types::BlobV { size: content.len(), contents: content }))),
{
    if kind == blob_kind() && content.len() <= usize::MAX {
        lemma_decode_blob(first_z, content);
    }
}

/// Decompresses and decodes one object file's bytes, exactly as
/// `spec_decode` says.
pub fn read_object(z: &Vec<u8>) -> (r: Result<Object, ObjError>)
    ensures
        r matches Ok(o) ==> spec_decode(z@) == Ok::<ObjectV, ObjError>(o@),
        r matches Err(e) ==> spec_decode(z@) == Err::<ObjectV, ObjError>(e),
{
    match zlib_decompress(z) {
        None => Err(ObjError::Corrupt),
        Some(s) => parse_object(&s),
    }
}

} // verus!
