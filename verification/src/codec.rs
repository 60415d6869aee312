//! The object codec's framing layer.
//!
//! An object's uncompressed bytes are `"<kind> <decimal-length>\0"` followed
//! by the content bytes. Encoding builds exactly that frame and computes its
//! digest in the same pass; parsing recovers the kind tag and the content,
//! holding the declared length against the actual one.

use vstd::prelude::*;
use crate::hashing::HashedWriter;
use crate::hashing::sha1_of;
use crate::types::Blob;
use crate::types::BlobV;
use crate::types::ObjError;
use crate::types::Object;
use crate::types::ObjectV;
use crate::types::Tree;
use crate::types::TreeEntryV;
use crate::tree::tree_bytes;
use crate::util::find_byte;
use crate::util::copy_range;
use crate::util::first_byte;
use crate::util::lemma_first_byte_is;
use crate::util::lemma_first_byte_none;

verus! {

/// A NUL must end the header within this many bytes of the start.
pub const HEADER_LIMIT: usize = 32;

/// True of a byte that is a decimal digit.
pub open spec fn is_dec_digit(b: u8) -> bool {
    48 <= b <= 57
}

/// A non-empty run of decimal digits: the only accepted length segment.
pub open spec fn valid_dec(s: Seq<u8>) -> bool {
    s.len() > 0 && forall|i: int| 0 <= i < s.len() ==> is_dec_digit(#[trigger] s[i])
}

/// The decimal ASCII digits of `n`, most significant first, no sign and no
/// leading zero.
pub open spec fn dec_of(n: nat) -> Seq<u8>
    decreases n,
{
    if n < 10 {
        seq![(48 + n) as u8]
    } else {
        dec_of(n / 10) + seq![(48 + (n % 10)) as u8]
    }
}

/// The number a digit run denotes (non-digit bytes count as zero).
pub open spec fn dec_val(s: Seq<u8>) -> nat
    decreases s.len(),
{
    if s.len() == 0 {
        0
    } else {
        dec_val(s.drop_last()) * 10 + (if 48 <= s.last() <= 57 {
            (s.last() - 48) as nat
        } else {
            0
        })
    }
}

/// The digits of `n` form a valid length segment.
pub proof fn lemma_dec_of_valid(n: nat)
    ensures
        valid_dec(dec_of(n)),
    decreases n,
{
    if n >= 10 {
        lemma_dec_of_valid(n / 10);
        assert forall|i: int| 0 <= i < dec_of(n).len() implies is_dec_digit(
            #[trigger] dec_of(n)[i],
        ) by {
            if i < dec_of(n / 10).len() {
                assert(dec_of(n)[i] == dec_of(n / 10)[i]);
            }
        }
    }
}

/// Reading back the digits of `n` gives `n`.
pub proof fn lemma_dec_val_of(n: nat)
    ensures
        dec_val(dec_of(n)) == n,
    decreases n,
{
    if n < 10 {
        assert(dec_of(n) == seq![(48 + n) as u8]);
        assert(dec_of(n).drop_last() =~= Seq::<u8>::empty());
        assert(dec_of(n).last() == (48 + n) as u8);
        assert(dec_val(dec_of(n)) == dec_val(dec_of(n).drop_last()) * 10 + ((48 + n) as u8
            - 48) as nat);
        assert(dec_val(Seq::<u8>::empty()) == 0);
    } else {
        lemma_dec_val_of(n / 10);
        assert(dec_of(n).drop_last() =~= dec_of(n / 10));
        assert(dec_of(n).last() == (48 + (n % 10)) as u8);
        assert(n == (n / 10) * 10 + (n % 10)) by {
            vstd::arithmetic::div_mod::lemma_fundamental_div_mod(n as int, 10);
        }
    }
}

/// Powers of ten.
pub open spec fn pow10(k: nat) -> nat
    decreases k,
{
    if k == 0 {
        1
    } else {
        10 * pow10((k - 1) as nat)
    }
}

/// A number below the `k`-th power of ten has at most `k` digits.
pub proof fn lemma_dec_of_len(n: nat, k: nat)
    requires
        k >= 1,
        n < pow10(k),
    ensures
        dec_of(n).len() <= k,
    decreases n,
{
    if n >= 10 {
        assert(pow10(k) == 10 * pow10((k - 1) as nat));
        assert(k >= 2) by {
            if k == 1 {
                assert(pow10(1nat) == 10);
            }
        }
        assert(n / 10 < pow10((k - 1) as nat)) by {
            assert(n < 10 * pow10((k - 1) as nat));
        }
        lemma_dec_of_len(n / 10, (k - 1) as nat);
    }
}

/// A digit-run prefix never denotes more than the whole run.
pub proof fn lemma_dec_val_prefix_le(s: Seq<u8>, i: int)
    requires
        0 <= i <= s.len(),
    ensures
        dec_val(s.take(i)) <= dec_val(s),
    decreases s.len(),
{
    if i < s.len() {
        assert(s.drop_last().take(i) =~= s.take(i));
        lemma_dec_val_prefix_le(s.drop_last(), i);
    } else {
        assert(s.take(i) =~= s);
    }
}

/// Appends the decimal digits of `n` to `out`.
pub fn push_dec(n: u64, out: &mut Vec<u8>)
    ensures
        final(out)@ == old(out)@ + dec_of(n as nat),
    decreases n,
{
    if n < 10 {
        out.push((48 + n) as u8);
        proof {
            assert(old(out)@.push((48 + n) as u8) =~= old(out)@ + dec_of(n as nat));
        }
    } else {
        push_dec(n / 10, out);
        out.push((48 + (n % 10)) as u8);
        proof {
            assert((old(out)@ + dec_of((n / 10) as nat)).push((48 + (n % 10)) as u8) =~= old(
                out,
            )@ + dec_of(n as nat));
        }
    }
}

/// Reads a digit run as a number: the value if the run is valid and fits a
/// `u64`, nothing otherwise.
pub fn parse_dec(digits: &Vec<u8>) -> (r: Option<u64>)
    ensures
        r matches Some(v) ==> valid_dec(digits@) && v as nat == dec_val(digits@),
        r is None ==> !valid_dec(digits@) || dec_val(digits@) > u64::MAX,
{
    if digits.len() == 0 {
        return None;
    }
    let mut acc: u128 = 0;
    let mut i: usize = 0;
    while i < digits.len()
        invariant
            i <= digits@.len(),
            digits@.len() > 0,
            acc <= u64::MAX,
            acc as nat == dec_val(digits@.take(i as int)),
            forall|j: int| 0 <= j < i ==> is_dec_digit(#[trigger] digits@[j]),
        decreases digits@.len() - i,
    {
        let d = digits[i];
        if !(48 <= d && d <= 57) {
            return None;
        }
        proof {
            assert(digits@.take(i + 1).drop_last() =~= digits@.take(i as int));
            assert(digits@.take(i + 1).last() == digits@[i as int]);
        }
        acc = acc * 10 + ((d - 48) as u128);
        if acc > u64::MAX as u128 {
            proof {
                lemma_dec_val_prefix_le(digits@, i + 1);
            }
            return None;
        }
        i = i + 1;
    }
    proof {
        assert(digits@.take(digits@.len() as int) =~= digits@);
    }
    Some(acc as u64)
}

/// The kind tag of a blob object.
pub open spec fn blob_kind() -> Seq<u8> {
    seq![98u8, 108u8, 111u8, 98u8]
}

/// The kind tag of a tree object.
pub open spec fn tree_kind() -> Seq<u8> {
    seq![116u8, 114u8, 101u8, 101u8]
}

/// The kind tag of a commit object.
pub open spec fn commit_kind() -> Seq<u8> {
    seq![99u8, 111u8, 109u8, 109u8, 105u8, 116u8]
}

/// The tag `blob` as bytes.
pub fn blob_kind_vec() -> (r: Vec<u8>)
    ensures
        r@ == blob_kind(),
{
    let mut v: Vec<u8> = Vec::new();
    v.push(98);
    v.push(108);
    v.push(111);
    v.push(98);
    proof {
        assert(v@ =~= blob_kind());
    }
    v
}

/// The tag `tree` as bytes.
pub fn tree_kind_vec() -> (r: Vec<u8>)
    ensures
        r@ == tree_kind(),
{
    let mut v: Vec<u8> = Vec::new();
    v.push(116);
    v.push(114);
    v.push(101);
    v.push(101);
    proof {
        assert(v@ =~= tree_kind());
    }
    v
}

/// The tag `commit` as bytes.
pub fn commit_kind_vec() -> (r: Vec<u8>)
    ensures
        r@ == commit_kind(),
{
    let mut v: Vec<u8> = Vec::new();
    v.push(99);
    v.push(111);
    v.push(109);
    v.push(109);
    v.push(105);
    v.push(116);
    proof {
        assert(v@ =~= commit_kind());
    }
    v
}

/// The uncompressed on-disk bytes of an object: header, NUL, content.
pub open spec fn frame_bytes(kind: Seq<u8>, content: Seq<u8>) -> Seq<u8> {
    kind + seq![32u8] + dec_of(content.len()) + seq![0u8] + content
}

/// A kind tag the header parser accepts as text: non-empty printable ASCII.
pub open spec fn kind_textual(k: Seq<u8>) -> bool {
    k.len() > 0 && forall|i: int| 0 <= i < k.len() ==> 33 <= #[trigger] k[i] <= 126
}

/// Whether every byte of `v` is printable ASCII.
pub fn all_printable(v: &Vec<u8>) -> (r: bool)
    ensures
        r == forall|i: int| 0 <= i < v@.len() ==> 33 <= #[trigger] v@[i] <= 126,
{
    let mut t: usize = 0;
    while t < v.len()
        invariant
            t <= v@.len(),
            forall|k: int| 0 <= k < t ==> 33 <= #[trigger] v@[k] <= 126,
        decreases v@.len() - t,
    {
        let c = v[t];
        if c < 33 || c > 126 {
            return false;
        }
        t = t + 1;
    }
    true
}

/// Builds the frame of an object and its digest in one streaming pass
/// through the hashing tee.
pub fn encode_object(kind: &Vec<u8>, content: &Vec<u8>) -> (r: (Vec<u8>, Vec<u8>))
    ensures
        r.0@ == frame_bytes(kind@, content@),
        r.1@ == sha1_of(frame_bytes(kind@, content@)),
        r.1@.len() == 20,
{
    let mut hw = HashedWriter::new();
    hw.write(kind);
    hw.write_byte(32);
    let mut digits: Vec<u8> = Vec::new();
    push_dec(content.len() as u64, &mut digits);
    hw.write(&digits);
    hw.write_byte(0);
    hw.write(content);
    proof {
        assert(hw@ =~= frame_bytes(kind@, content@));
    }
    let (digest, frame) = hw.finalize();
    (frame, digest)
}

/// What parsing the uncompressed bytes of an object gives: the kind tag and
/// the content, or `Corrupt` if no NUL ends the header within
/// `HEADER_LIMIT` bytes, the header has no space, the kind tag is not
/// printable text, the length segment is not a run of decimal digits, or the
/// declared length is not the actual content length.
pub open spec fn spec_parse_frame(s: Seq<u8>) -> Result<(Seq<u8>, Seq<u8>), ObjError> {
    let i = first_byte(s, 0);
    if i == -1 || i >= HEADER_LIMIT {
        Err(ObjError::Corrupt)
    } else {
        let header = s.take(i);
        let j = first_byte(header, 32);
        if j == -1 {
            Err(ObjError::Corrupt)
        } else {
            let kind = header.take(j);
            let digits = header.skip(j + 1);
            let content = s.skip(i + 1);
            if !kind_textual(kind) {
                Err(ObjError::Corrupt)
            } else if !valid_dec(digits) {
                Err(ObjError::Corrupt)
            } else if dec_val(digits) != content.len() {
                Err(ObjError::Corrupt)
            } else {
                Ok((kind, content))
            }
        }
    }
}

/// Splits the uncompressed bytes of an object into kind tag and content,
/// exactly as `spec_parse_frame` says.
pub fn parse_frame(s: &Vec<u8>) -> (r: Result<(Vec<u8>, Vec<u8>), ObjError>)
    ensures
        r matches Ok(p) ==> spec_parse_frame(s@) == Ok::<(Seq<u8>, Seq<u8>), ObjError>((p.0@, p.1@)),
        r matches Err(e) ==> spec_parse_frame(s@) == Err::<(Seq<u8>, Seq<u8>), ObjError>(e),
{
    let nul = find_byte(s, 0, 0);
    let i: usize = match nul {
        None => {
            proof {
                lemma_first_byte_none(s@, 0);
            }
            return Err(ObjError::Corrupt);
        },
        Some(i) => {
            proof {
                lemma_first_byte_is(s@, 0, i as int);
            }
            i
        },
    };
    if i >= HEADER_LIMIT {
        return Err(ObjError::Corrupt);
    }
    let ghost header: Seq<u8> = s@.take(i as int);
    let sp = find_byte(s, 0, 32);
    let j: usize = match sp {
        None => {
            proof {
                assert(forall|k: int| 0 <= k < header.len() ==> header[k] == s@[k]);
                lemma_first_byte_none(header, 32);
            }
            return Err(ObjError::Corrupt);
        },
        Some(j) => {
            if j >= i {
                proof {
                    assert(forall|k: int| 0 <= k < header.len() ==> header[k] == s@[k]);
                    lemma_first_byte_none(header, 32);
                }
                return Err(ObjError::Corrupt);
            }
            proof {
                assert(header[j as int] == s@[j as int]);
                assert(forall|k: int| 0 <= k < header.len() ==> header[k] == s@[k]);
                lemma_first_byte_is(header, 32, j as int);
            }
            j
        },
    };
    let kind = copy_range(s, 0, j);
    let digits = copy_range(s, j + 1, i);
    let content = copy_range(s, i + 1, s.len());
    proof {
        assert(kind@ =~= header.take(j as int));
        assert(digits@ =~= header.skip(j + 1));
        assert(content@ =~= s@.skip(i + 1));
    }
    // The kind tag must be printable text.
    if kind.len() == 0 || !all_printable(&kind) {
        return Err(ObjError::Corrupt);
    }
    // The declared length must be digits denoting the actual content length.
    match parse_dec(&digits) {
        None => Err(ObjError::Corrupt),
        Some(v) => {
            if v != content.len() as u64 {
                return Err(ObjError::Corrupt);
            }
            Ok((kind, content))
        },
    }
}

/// What decoding the uncompressed bytes of an object gives: the frame is
/// split, then the content is parsed by kind; a kind tag outside
/// `blob`/`tree`/`commit` is unsupported.
pub open spec fn spec_parse_object(s: Seq<u8>) -> Result<ObjectV, ObjError> {
    match spec_parse_frame(s) {
        Err(e) => Err(e),
        Ok(p) => {
            if p.0 == blob_kind() {
                Ok(ObjectV::Blob((BlobV { size: p.1.len(), contents: p.1 })))
            } else if p.0 == tree_kind() {
                match crate::tree::spec_parse_tree(p.1) {
                    Ok(es) => Ok(ObjectV::Tree(es)),
                    Err(e) => Err(e),
                }
            } else if p.0 == commit_kind() {
                match crate::commit::spec_parse_commit(p.1) {
                    Ok(c) => Ok(ObjectV::Commit(c)),
                    Err(e) => Err(e),
                }
            } else {
                Err(ObjError::UnsupportedKind)
            }
        },
    }
}

/// Decodes the uncompressed bytes of an object, exactly as
/// `spec_parse_object` says.
pub fn parse_object(s: &Vec<u8>) -> (r: Result<Object, ObjError>)
    ensures
        r matches Ok(o) ==> spec_parse_object(s@) == Ok::<ObjectV, ObjError>(o@),
        r matches Err(e) ==> spec_parse_object(s@) == Err::<ObjectV, ObjError>(e),
{
    let (kind, content) = match parse_frame(s) {
        Ok(p) => p,
        Err(e) => {
            return Err(e);
        },
    };
    let bk = blob_kind_vec();
    let tk = tree_kind_vec();
    let ck = commit_kind_vec();
    if crate::util::vec_eq(&kind, &bk) {
        let size = content.len() as u64;
        return Ok(Object::Blob(Blob { size: size, contents: content }));
    }
    if crate::util::vec_eq(&kind, &tk) {
        return match crate::tree::parse_tree(&content) {
            Ok(entries) => {
                let t = Tree { entries: entries };
                proof {
                    assert(t@ =~= crate::tree::evs(t.entries@));
                }
                Ok(Object::Tree(t))
            },
            Err(e) => Err(e),
        };
    }
    if crate::util::vec_eq(&kind, &ck) {
        return match crate::commit::parse_commit(&content) {
            Ok(c) => Ok(Object::Commit(c)),
            Err(e) => Err(e),
        };
    }
    Err(ObjError::UnsupportedKind)
}

/// The three kind tags are printable text and pairwise distinct.
pub proof fn lemma_kind_tags()
    ensures
        kind_textual(blob_kind()),
        kind_textual(tree_kind()),
        kind_textual(commit_kind()),
        blob_kind() != tree_kind(),
        blob_kind() != commit_kind(),
        tree_kind() != commit_kind(),
{
    assert(blob_kind()[0] == 98);
    assert(tree_kind()[0] == 116);
    assert(blob_kind().len() == 4);
    assert(commit_kind().len() == 6);
    assert(tree_kind().len() == 4);
}

/// A header made of one of the kind tags and any representable length fits
/// the NUL bound.
pub proof fn lemma_header_fits(kind: Seq<u8>, content: Seq<u8>)
    requires
        kind.len() <= 6,
        content.len() <= usize::MAX,
    ensures
        kind.len() + dec_of(content.len()).len() + 1 < HEADER_LIMIT,
{
    reveal_with_fuel(pow10, 21);
    assert(pow10(20) == 100000000000000000000);
    assert(usize::MAX <= u64::MAX);
    assert(content.len() < pow10(20));
    lemma_dec_of_len(content.len(), 20);
}

/// Decoding inverts encoding for a blob: the frame of kind `blob` over any
/// content bytes — the empty sequence included — parses back to a blob
/// holding exactly those bytes.
pub proof fn lemma_parse_object_blob(content: Seq<u8>)
    requires
        content.len() <= usize::MAX,
    ensures
        spec_parse_object(frame_bytes(blob_kind(), content)) == Ok::<ObjectV, ObjError>(
            ObjectV::Blob((BlobV { size: content.len(), contents: content })),
        ),
{
    lemma_kind_tags();
    lemma_header_fits(blob_kind(), content);
    lemma_parse_frame_round_trip(blob_kind(), content);
}

/// Decoding inverts encoding for a tree: the frame of kind `tree` over the
/// serialized bytes of well-formed entries parses back to exactly those
/// entries.
pub proof fn lemma_parse_object_tree(entries: Seq<TreeEntryV>)
    requires
        forall|k: int| 0 <= k < entries.len() ==> crate::types::wf_entry(#[trigger] entries[k]),
        tree_bytes(entries).len() <= usize::MAX,
    ensures
        spec_parse_object(frame_bytes(tree_kind(), tree_bytes(entries))) == Ok::<
            ObjectV,
            ObjError,
        >(ObjectV::Tree(entries)),
{
    lemma_kind_tags();
    lemma_header_fits(tree_kind(), tree_bytes(entries));
    lemma_parse_frame_round_trip(tree_kind(), tree_bytes(entries));
    crate::tree::lemma_parse_tree_of_tree_bytes(entries);
}

/// Parsing inverts framing: the frame of a textual kind tag and any content
/// parses back to exactly that kind tag and content, as long as the header
/// fits the NUL bound.
pub proof fn lemma_parse_frame_round_trip(kind: Seq<u8>, content: Seq<u8>)
    requires
        kind_textual(kind),
        kind.len() + dec_of(content.len()).len() + 1 < HEADER_LIMIT,
    ensures
        spec_parse_frame(frame_bytes(kind, content)) == Ok::<(Seq<u8>, Seq<u8>), ObjError>(
            (kind, content),
        ),
{
    let digits = dec_of(content.len());
    let s = frame_bytes(kind, content);
    let i = kind.len() + 1 + digits.len();
    lemma_dec_of_valid(content.len());
    lemma_dec_val_of(content.len());
    assert(s[i as int] == 0);
    assert forall|k: int| 0 <= k < i implies s[k] != 0 by {
        if k < kind.len() {
            assert(s[k] == kind[k]);
        } else if k == kind.len() {
            assert(s[k] == 32);
        } else {
            assert(s[k] == digits[k - kind.len() - 1]);
            assert(is_dec_digit(digits[k - kind.len() - 1]));
        }
    }
    lemma_first_byte_is(s, 0, i as int);
    let header = s.take(i as int);
    assert(header[kind.len() as int] == 32);
    assert forall|k: int| 0 <= k < kind.len() implies header[k] != 32 by {
        assert(header[k] == kind[k]);
        assert(33 <= kind[k] <= 126);
    }
    lemma_first_byte_is(header, 32, kind.len() as int);
    assert(header.take(kind.len() as int) =~= kind);
    assert(header.skip(kind.len() as int + 1) =~= digits);
    assert(s.skip(i as int + 1) =~= content);
}

} // verus!
