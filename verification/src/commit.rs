//! Commit objects: the textual body layout and its parser.
//!
//! A commit body is `"tree <sha>\n"`, optional `"parent <sha>\n"` lines, an
//! author line, a committer line, a blank line, and the free-text message.

use vstd::prelude::*;
use crate::types::Commit;
use crate::types::CommitV;
use crate::types::ObjError;
use crate::types::is_hex40;
use crate::util::find_byte;
use crate::util::first_byte;
use crate::util::copy_range;
use crate::util::lemma_first_byte_is;
use crate::util::lemma_first_byte_none;
use crate::util::vec_eq;
use crate::util::is_valid_sha;

verus! {

/// `"tree "`.
pub open spec fn tree_label() -> Seq<u8> {
    seq![116u8, 114u8, 101u8, 101u8, 32u8]
}

/// `"parent "`.
pub open spec fn parent_label() -> Seq<u8> {
    seq![112u8, 97u8, 114u8, 101u8, 110u8, 116u8, 32u8]
}

/// `"author "`.
pub open spec fn author_label() -> Seq<u8> {
    seq![97u8, 117u8, 116u8, 104u8, 111u8, 114u8, 32u8]
}

/// `"committer "`.
pub open spec fn committer_label() -> Seq<u8> {
    seq![99u8, 111u8, 109u8, 109u8, 105u8, 116u8, 116u8, 101u8, 114u8, 32u8]
}

/// The view of an optional byte vector.
pub open spec fn opt_bytes(o: Option<Vec<u8>>) -> Option<Seq<u8>> {
    match o {
        Some(v) => Some(v@),
        None => None,
    }
}

/// The views of a vector of byte vectors.
pub open spec fn seqs_view(s: Seq<Vec<u8>>) -> Seq<Seq<u8>> {
    s.map_values(|p: Vec<u8>| p@)
}

/// The exact textual body of a commit referencing `tree`, the optional
/// parent, one identity used for author and committer, and a message.
pub open spec fn commit_text(
    tree: Seq<u8>,
    parent: Option<Seq<u8>>,
    identity: Seq<u8>,
    message: Seq<u8>,
) -> Seq<u8> {
    tree_label() + tree + seq![10u8] + (match parent {
        Some(p) => parent_label() + p + seq![10u8],
        None => seq![],
    }) + author_label() + identity + seq![10u8] + committer_label() + identity + seq![10u8]
        + seq![10u8] + message + seq![10u8]
}

/// Appends one label byte string.
fn push_tree_label(out: &mut Vec<u8>)
    ensures
        final(out)@ == old(out)@ + tree_label(),
{
    out.push(116);
    out.push(114);
    out.push(101);
    out.push(101);
    out.push(32);
    proof {
        assert(out@ =~= old(out)@ + tree_label());
    }
}

/// Appends one label byte string.
fn push_parent_label(out: &mut Vec<u8>)
    ensures
        final(out)@ == old(out)@ + parent_label(),
{
    out.push(112);
    out.push(97);
    out.push(114);
    out.push(101);
    out.push(110);
    out.push(116);
    out.push(32);
    proof {
        assert(out@ =~= old(out)@ + parent_label());
    }
}

/// Appends one label byte string.
fn push_author_label(out: &mut Vec<u8>)
    ensures
        final(out)@ == old(out)@ + author_label(),
{
    out.push(97);
    out.push(117);
    out.push(116);
    out.push(104);
    out.push(111);
    out.push(114);
    out.push(32);
    proof {
        assert(out@ =~= old(out)@ + author_label());
    }
}

/// Appends one label byte string.
fn push_committer_label(out: &mut Vec<u8>)
    ensures
        final(out)@ == old(out)@ + committer_label(),
{
    out.push(99);
    out.push(111);
    out.push(109);
    out.push(109);
    out.push(105);
    out.push(116);
    out.push(116);
    out.push(101);
    out.push(114);
    out.push(32);
    proof {
        assert(out@ =~= old(out)@ + committer_label());
    }
}

/// Formats the exact commit body: tree line, optional parent line, author
/// and committer lines sharing one identity, blank line, message line.
pub fn format_commit(
    tree_sha: &Vec<u8>,
    parent_sha: &Option<Vec<u8>>,
    identity: &Vec<u8>,
    message: &Vec<u8>,
) -> (r: Vec<u8>)
    ensures
        r@ == commit_text(tree_sha@, opt_bytes(*parent_sha), identity@, message@),
{
    let mut out: Vec<u8> = Vec::new();
    push_tree_label(&mut out);
    crate::hashing::append_bytes(&mut out, tree_sha);
    out.push(10);
    match parent_sha {
        Some(p) => {
            push_parent_label(&mut out);
            crate::hashing::append_bytes(&mut out, p);
            out.push(10);
        },
        None => {},
    }
    push_author_label(&mut out);
    crate::hashing::append_bytes(&mut out, identity);
    out.push(10);
    push_committer_label(&mut out);
    crate::hashing::append_bytes(&mut out, identity);
    out.push(10);
    out.push(10);
    crate::hashing::append_bytes(&mut out, message);
    out.push(10);
    proof {
        assert(out@ =~= commit_text(tree_sha@, opt_bytes(*parent_sha), identity@, message@));
    }
    out
}

/// `"tree"`, `"parent"`, `"author"`, `"committer"`: the recognized header
/// keys.
pub open spec fn tree_key() -> Seq<u8> {
    seq![116u8, 114u8, 101u8, 101u8]
}

/// The key of a parent header line.
pub open spec fn parent_key() -> Seq<u8> {
    seq![112u8, 97u8, 114u8, 101u8, 110u8, 116u8]
}

/// The key of the author header line.
pub open spec fn author_key() -> Seq<u8> {
    seq![97u8, 117u8, 116u8, 104u8, 111u8, 114u8]
}

/// The key of the committer header line.
pub open spec fn committer_key() -> Seq<u8> {
    seq![99u8, 111u8, 109u8, 109u8, 105u8, 116u8, 116u8, 101u8, 114u8]
}

/// The key `tree` as bytes.
fn tree_key_vec() -> (r: Vec<u8>)
    ensures
        r@ == tree_key(),
{
    let mut v: Vec<u8> = Vec::new();
    v.push(116);
    v.push(114);
    v.push(101);
    v.push(101);
    proof {
        assert(v@ =~= tree_key());
    }
    v
}

/// The key `parent` as bytes.
fn parent_key_vec() -> (r: Vec<u8>)
    ensures
        r@ == parent_key(),
{
    let mut v: Vec<u8> = Vec::new();
    v.push(112);
    v.push(97);
    v.push(114);
    v.push(101);
    v.push(110);
    v.push(116);
    proof {
        assert(v@ =~= parent_key());
    }
    v
}

/// The key `author` as bytes.
fn author_key_vec() -> (r: Vec<u8>)
    ensures
        r@ == author_key(),
{
    let mut v: Vec<u8> = Vec::new();
    v.push(97);
    v.push(117);
    v.push(116);
    v.push(104);
    v.push(111);
    v.push(114);
    proof {
        assert(v@ =~= author_key());
    }
    v
}

/// The key `committer` as bytes.
fn committer_key_vec() -> (r: Vec<u8>)
    ensures
        r@ == committer_key(),
{
    let mut v: Vec<u8> = Vec::new();
    v.push(99);
    v.push(111);
    v.push(109);
    v.push(109);
    v.push(105);
    v.push(116);
    v.push(116);
    v.push(101);
    v.push(114);
    proof {
        assert(v@ =~= committer_key());
    }
    v
}

/// What parsing a commit body gives, from a position with headers already
/// collected. Header lines run to a blank line, each `key value` split at
/// the first space; `tree` must come exactly once, digests must be 40
/// lowercase hex digits, `author` and `committer` at most once, any other
/// key is malformed; everything after the blank line is the message,
/// verbatim. A body without a blank line is malformed.
pub open spec fn spec_parse_commit_at(
    s: Seq<u8>,
    tree: Option<Seq<u8>>,
    parents: Seq<Seq<u8>>,
    author: Option<Seq<u8>>,
    committer: Option<Seq<u8>>,
) -> Result<CommitV, ObjError>
    decreases s.len(),
{
    let i = first_byte(s, 10);
    if i < 0 || i >= s.len() {
        Err(ObjError::Corrupt)
    } else {
        let line = s.take(i);
        let restl = s.skip(i + 1);
        if line.len() == 0 {
            match tree {
                None => Err(ObjError::Corrupt),
                Some(t) => Ok(
                    (CommitV {
                        tree: t,
                        parents: parents,
                        author: author,
                        committer: committer,
                        message: restl,
                    }),
                ),
            }
        } else {
            let j = first_byte(line, 32);
            if j < 0 {
                Err(ObjError::Corrupt)
            } else {
                let key = line.take(j);
                let val = line.skip(j + 1);
                if key == tree_key() {
                    if tree is Some || !is_hex40(val) {
                        Err(ObjError::Corrupt)
                    } else {
                        spec_parse_commit_at(restl, Some(val), parents, author, committer)
                    }
                } else if key == parent_key() {
                    if !is_hex40(val) {
                        Err(ObjError::Corrupt)
                    } else {
                        spec_parse_commit_at(restl, tree, parents.push(val), author, committer)
                    }
                } else if key == author_key() {
                    if author is Some {
                        Err(ObjError::Corrupt)
                    } else {
                        spec_parse_commit_at(restl, tree, parents, Some(val), committer)
                    }
                } else if key == committer_key() {
                    if committer is Some {
                        Err(ObjError::Corrupt)
                    } else {
                        spec_parse_commit_at(restl, tree, parents, author, Some(val))
                    }
                } else {
                    Err(ObjError::Corrupt)
                }
            }
        }
    }
}

/// What parsing the content of a commit object gives.
pub open spec fn spec_parse_commit(s: Seq<u8>) -> Result<CommitV, ObjError> {
    spec_parse_commit_at(s, None, seq![], None, None)
}

/// How one header line splits: for a key free of newlines and spaces and a
/// value free of newlines, the first newline ends the line, and the first
/// space splits it into exactly the key and the value.
proof fn lemma_commit_line(key: Seq<u8>, val: Seq<u8>, rest: Seq<u8>)
    requires
        key.len() > 0,
        forall|i: int| 0 <= i < key.len() ==> #[trigger] key[i] != 10 && key[i] != 32,
        forall|i: int| 0 <= i < val.len() ==> #[trigger] val[i] != 10,
    ensures
        ({
            let s = key + seq![32u8] + val + seq![10u8] + rest;
            let line = key + seq![32u8] + val;
            &&& first_byte(s, 10) == key.len() + 1 + val.len()
            &&& s.take(key.len() as int + 1 + val.len()) == line
            &&& s.skip(key.len() as int + 1 + val.len() + 1) == rest
            &&& first_byte(line, 32) == key.len()
            &&& line.take(key.len() as int) == key
            &&& line.skip(key.len() as int + 1) == val
        }),
{
    let s = key + seq![32u8] + val + seq![10u8] + rest;
    let line = key + seq![32u8] + val;
    let i = key.len() + 1 + val.len();
    assert(s[i as int] == 10);
    assert forall|k: int| 0 <= k < i implies s[k] != 10 by {
        if k < key.len() {
            assert(s[k] == key[k]);
        } else if k == key.len() {
            assert(s[k] == 32);
        } else {
            assert(s[k] == val[k - key.len() - 1]);
        }
    }
    crate::util::lemma_first_byte_is(s, 10, i as int);
    assert(s.take(i as int) =~= line);
    assert(s.skip(i as int + 1) =~= rest);
    assert(line[key.len() as int] == 32);
    assert forall|k: int| 0 <= k < key.len() implies line[k] != 32 by {
        assert(line[k] == key[k]);
    }
    crate::util::lemma_first_byte_is(line, 32, key.len() as int);
    assert(line.take(key.len() as int) =~= key);
    assert(line.skip(key.len() as int + 1) =~= val);
}

/// A digest in hex holds no newline.
proof fn lemma_hex40_no_newline(sha: Seq<u8>)
    requires
        is_hex40(sha),
    ensures
        forall|i: int| 0 <= i < sha.len() ==> #[trigger] sha[i] != 10,
{
    assert forall|i: int| 0 <= i < sha.len() implies #[trigger] sha[i] != 10 by {
        assert(crate::types::is_lower_hex_digit(sha[i]));
    }
}

/// One `tree` header line hands the digest into the state.
proof fn lemma_step_tree(
    tree: Seq<u8>,
    rest: Seq<u8>,
    parents: Seq<Seq<u8>>,
    author: Option<Seq<u8>>,
    committer: Option<Seq<u8>>,
)
    requires
        is_hex40(tree),
    ensures
        spec_parse_commit_at(
            tree_key() + seq![32u8] + tree + seq![10u8] + rest,
            None,
            parents,
            author,
            committer,
        ) == spec_parse_commit_at(rest, Some(tree), parents, author, committer),
{
    lemma_hex40_no_newline(tree);
    lemma_commit_line(tree_key(), tree, rest);
}

/// One `parent` header line appends the digest to the parents.
proof fn lemma_step_parent(
    p: Seq<u8>,
    rest: Seq<u8>,
    tree: Option<Seq<u8>>,
    parents: Seq<Seq<u8>>,
    author: Option<Seq<u8>>,
    committer: Option<Seq<u8>>,
)
    requires
        is_hex40(p),
    ensures
        spec_parse_commit_at(
            parent_key() + seq![32u8] + p + seq![10u8] + rest,
            tree,
            parents,
            author,
            committer,
        ) == spec_parse_commit_at(rest, tree, parents.push(p), author, committer),
{
    lemma_hex40_no_newline(p);
    lemma_commit_line(parent_key(), p, rest);
    assert(parent_key().len() == 6 && tree_key().len() == 4);
}

/// One `author` header line records the identity.
proof fn lemma_step_author(
    identity: Seq<u8>,
    rest: Seq<u8>,
    tree: Option<Seq<u8>>,
    parents: Seq<Seq<u8>>,
    committer: Option<Seq<u8>>,
)
    requires
        forall|i: int| 0 <= i < identity.len() ==> #[trigger] identity[i] != 10,
    ensures
        spec_parse_commit_at(
            author_key() + seq![32u8] + identity + seq![10u8] + rest,
            tree,
            parents,
            None,
            committer,
        ) == spec_parse_commit_at(rest, tree, parents, Some(identity), committer),
{
    lemma_commit_line(author_key(), identity, rest);
    assert(author_key().len() == 6 && tree_key().len() == 4);
    assert(author_key()[0] == 97 && parent_key()[0] == 112);
}

/// One `committer` header line records the identity.
proof fn lemma_step_committer(
    identity: Seq<u8>,
    rest: Seq<u8>,
    tree: Option<Seq<u8>>,
    parents: Seq<Seq<u8>>,
    author: Option<Seq<u8>>,
)
    requires
        forall|i: int| 0 <= i < identity.len() ==> #[trigger] identity[i] != 10,
    ensures
        spec_parse_commit_at(
            committer_key() + seq![32u8] + identity + seq![10u8] + rest,
            tree,
            parents,
            author,
            None,
        ) == spec_parse_commit_at(rest, tree, parents, author, Some(identity)),
{
    lemma_commit_line(committer_key(), identity, rest);
    assert(committer_key().len() == 9 && tree_key().len() == 4 && parent_key().len() == 6
        && author_key().len() == 6);
}

/// The blank line ends the headers; what follows is the message, verbatim.
proof fn lemma_step_blank(
    tree: Seq<u8>,
    parents: Seq<Seq<u8>>,
    author: Option<Seq<u8>>,
    committer: Option<Seq<u8>>,
    message: Seq<u8>,
)
    ensures
        spec_parse_commit_at(seq![10u8] + message, Some(tree), parents, author, committer)
            == Ok::<CommitV, ObjError>(
            (CommitV {
                tree: tree,
                parents: parents,
                author: author,
                committer: committer,
                message: message,
            }),
        ),
{
    let blank = seq![10u8] + message;
    assert(blank[0] == 10);
    crate::util::lemma_first_byte_is(blank, 10, 0);
    assert(blank.take(0).len() == 0);
    assert(blank.skip(1) =~= message);
}

/// Parsing inverts the commit builder: the exact body it formats — for a
/// well-formed tree digest, an optional well-formed parent digest and a
/// single-line identity — parses back to that commit, the message read
/// verbatim with the newline the builder appended.
pub proof fn lemma_parse_commit_of_commit_text(
    tree: Seq<u8>,
    parent: Option<Seq<u8>>,
    identity: Seq<u8>,
    message: Seq<u8>,
)
    requires
        is_hex40(tree),
        parent matches Some(p) ==> is_hex40(p),
        forall|i: int| 0 <= i < identity.len() ==> #[trigger] identity[i] != 10,
    ensures
        spec_parse_commit(commit_text(tree, parent, identity, message)) == Ok::<
            CommitV,
            ObjError,
        >(
            (CommitV {
                tree: tree,
                parents: match parent {
                    Some(p) => seq![p],
                    None => Seq::<Seq<u8>>::empty(),
                },
                author: Some(identity),
                committer: Some(identity),
                message: message + seq![10u8],
            }),
        ),
{
    let none: Seq<Seq<u8>> = Seq::<Seq<u8>>::empty();
    let blank = seq![10u8] + (message + seq![10u8]);
    let s_com = committer_key() + seq![32u8] + identity + seq![10u8] + blank;
    let s_auth = author_key() + seq![32u8] + identity + seq![10u8] + s_com;
    let s0 = commit_text(tree, parent, identity, message);
    match parent {
        Some(p) => {
            let s_par = parent_key() + seq![32u8] + p + seq![10u8] + s_auth;
            assert(s0 =~= tree_key() + seq![32u8] + tree + seq![10u8] + s_par);
            lemma_step_tree(tree, s_par, none, None, None);
            lemma_step_parent(p, s_auth, Some(tree), none, None, None);
            lemma_step_author(identity, s_com, Some(tree), none.push(p), None);
            lemma_step_committer(identity, blank, Some(tree), none.push(p), Some(identity));
            lemma_step_blank(tree, none.push(p), Some(identity), Some(identity), message
                + seq![10u8]);
            assert(none.push(p) =~= seq![p]);
        },
        None => {
            assert(s0 =~= tree_key() + seq![32u8] + tree + seq![10u8] + s_auth);
            lemma_step_tree(tree, s_auth, none, None, None);
            lemma_step_author(identity, s_com, Some(tree), none, None);
            lemma_step_committer(identity, blank, Some(tree), none, Some(identity));
            lemma_step_blank(tree, none, Some(identity), Some(identity), message + seq![10u8]);
        },
    }
}

/// Parses the content of a commit object, exactly as `spec_parse_commit`
/// says.
pub fn parse_commit(content: &Vec<u8>) -> (r: Result<Commit, ObjError>)
    ensures
        r matches Ok(c) ==> spec_parse_commit(content@) == Ok::<CommitV, ObjError>(c@),
        r matches Err(e) ==> spec_parse_commit(content@) == Err::<CommitV, ObjError>(e),
{
    let mut tree_opt: Option<Vec<u8>> = None;
    let mut parents: Vec<Vec<u8>> = Vec::new();
    let mut author: Option<Vec<u8>> = None;
    let mut committer: Option<Vec<u8>> = None;
    let mut pos: usize = 0;
    proof {
        assert(content@.skip(0) =~= content@);
        assert(seqs_view(parents@) =~= Seq::<Seq<u8>>::empty());
    }
    while pos < content.len()
        invariant
            pos <= content@.len(),
            spec_parse_commit(content@) == spec_parse_commit_at(
                content@.skip(pos as int),
                opt_bytes(tree_opt),
                seqs_view(parents@),
                opt_bytes(author),
                opt_bytes(committer),
            ),
        decreases content@.len() - pos,
    {
        let ghost suffix = content@.skip(pos as int);
        let inl = match find_byte(content, pos, 10) {
            Some(inl) => {
                proof {
                    assert(suffix[inl - pos] == content@[inl as int]);
                    assert(forall|k: int| 0 <= k < inl - pos ==> suffix[k] == content@[k + pos]);
                    lemma_first_byte_is(suffix, 10, inl - pos);
                }
                inl
            },
            None => {
                proof {
                    assert(forall|k: int| 0 <= k < suffix.len() ==> suffix[k] == content@[k + pos]);
                    lemma_first_byte_none(suffix, 10);
                }
                return Err(ObjError::Corrupt);
            },
        };
        let ghost line = suffix.take(inl - pos);
        proof {
            assert(forall|k: int| 0 <= k < line.len() ==> line[k] == content@[k + pos]);
        }
        if inl == pos {
            // Blank line: headers end, the rest is the message.
            let message = copy_range(content, pos + 1, content.len());
            proof {
                assert(message@ =~= suffix.skip(inl - pos + 1));
            }
            match tree_opt {
                None => {
                    return Err(ObjError::Corrupt);
                },
                Some(t) => {
                    let c = Commit {
                        tree: t,
                        parents: parents,
                        author: author,
                        committer: committer,
                        message: message,
                    };
                    return Ok(c);
                },
            }
        }
        let jsp = match find_byte(content, pos, 32) {
            Some(jsp) => {
                if jsp >= inl {
                    proof {
                        lemma_first_byte_none(line, 32);
                    }
                    return Err(ObjError::Corrupt);
                }
                proof {
                    lemma_first_byte_is(line, 32, jsp - pos);
                }
                jsp
            },
            None => {
                proof {
                    lemma_first_byte_none(line, 32);
                }
                return Err(ObjError::Corrupt);
            },
        };
        let key = copy_range(content, pos, jsp);
        let val = copy_range(content, jsp + 1, inl);
        proof {
            assert(key@ =~= line.take(jsp - pos));
            assert(val@ =~= line.skip(jsp - pos + 1));
            assert(content@.skip(inl + 1) =~= suffix.skip(inl - pos + 1));
        }
        let tk = tree_key_vec();
        let pk = parent_key_vec();
        let ak = author_key_vec();
        let ck = committer_key_vec();
        if vec_eq(&key, &tk) {
            match &tree_opt {
                Some(_) => {
                    return Err(ObjError::Corrupt);
                },
                None => {},
            }
            if !is_valid_sha(&val) {
                return Err(ObjError::Corrupt);
            }
            tree_opt = Some(val);
        } else if vec_eq(&key, &pk) {
            if !is_valid_sha(&val) {
                return Err(ObjError::Corrupt);
            }
            let ghost oldp = seqs_view(parents@);
            parents.push(val);
            proof {
                assert(seqs_view(parents@) =~= oldp.push(val@));
            }
        } else if vec_eq(&key, &ak) {
            match &author {
                Some(_) => {
                    return Err(ObjError::Corrupt);
                },
                None => {},
            }
            author = Some(val);
        } else if vec_eq(&key, &ck) {
            match &committer {
                Some(_) => {
                    return Err(ObjError::Corrupt);
                },
                None => {},
            }
            committer = Some(val);
        } else {
            return Err(ObjError::Corrupt);
        }
        pos = inl + 1;
    }
    // The content ran out without a blank line: no newline remains to find.
    proof {
        assert(content@.skip(pos as int) =~= Seq::<u8>::empty());
        lemma_first_byte_none(Seq::<u8>::empty(), 10);
    }
    Err(ObjError::Corrupt)
}

} // verus!
