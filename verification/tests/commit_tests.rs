//! Commit building and parsing: the exact textual body and its errors.

use std::io::Write;
use gitobj::commands::commit_tree;
use gitobj::store::read_object;
use gitobj::Object;
use gitobj::ObjError;
use sha1::Digest;

fn deflate(data: &[u8]) -> Vec<u8> {
    let mut enc = flate2::write::ZlibEncoder::new(Vec::new(), flate2::Compression::default());
    enc.write_all(data).unwrap();
    enc.finish().unwrap()
}

fn commit_object(body: &str) -> Vec<u8> {
    let mut frame: Vec<u8> = format!("commit {}\0", body.len()).into_bytes();
    frame.extend_from_slice(body.as_bytes());
    deflate(&frame)
}

const TREE_SHA: &str = "aaaaaaaaaaaaaaaaaaaaaaaaaaaaaaaaaaaaaaaa";
const PARENT_SHA: &str = "bbbbbbbbbbbbbbbbbbbbbbbbbbbbbbbbbbbbbbbb";
const IDENTITY: &str = "Ada Lovelace <ada@example.org> 1243040974 -0700";

#[test]
fn commit_body_is_exactly_the_documented_layout() {
    let w = commit_tree(
        &TREE_SHA.as_bytes().to_vec(),
        &Some(PARENT_SHA.as_bytes().to_vec()),
        &IDENTITY.as_bytes().to_vec(),
        &b"first!".to_vec(),
    );
    let body = format!(
        "tree {TREE_SHA}\nparent {PARENT_SHA}\nauthor {IDENTITY}\ncommitter {IDENTITY}\n\nfirst!\n"
    );
    let frame = format!("commit {}\0{}", body.len(), body);
    let expected = hex::encode(sha1::Sha1::digest(frame.as_bytes()));
    assert_eq!(String::from_utf8(w.object_sha.clone()).unwrap(), expected);
}

#[test]
fn commit_without_parent_has_no_parent_line() {
    let w = commit_tree(
        &TREE_SHA.as_bytes().to_vec(),
        &None,
        &IDENTITY.as_bytes().to_vec(),
        &b"root".to_vec(),
    );
    let body = format!("tree {TREE_SHA}\nauthor {IDENTITY}\ncommitter {IDENTITY}\n\nroot\n");
    let frame = format!("commit {}\0{}", body.len(), body);
    let expected = hex::encode(sha1::Sha1::digest(frame.as_bytes()));
    assert_eq!(String::from_utf8(w.object_sha.clone()).unwrap(), expected);
}

#[test]
fn built_commit_decodes_back() {
    let w = commit_tree(
        &TREE_SHA.as_bytes().to_vec(),
        &Some(PARENT_SHA.as_bytes().to_vec()),
        &IDENTITY.as_bytes().to_vec(),
        &b"message body".to_vec(),
    );
    let z = w.store.unwrap().compressed;
    match read_object(&z) {
        Ok(Object::Commit(c)) => {
            assert_eq!(c.tree, TREE_SHA.as_bytes().to_vec());
            assert_eq!(c.parents, vec![PARENT_SHA.as_bytes().to_vec()]);
            assert_eq!(c.author, Some(IDENTITY.as_bytes().to_vec()));
            assert_eq!(c.committer, Some(IDENTITY.as_bytes().to_vec()));
            assert_eq!(c.message, b"message body\n".to_vec());
        }
        other => panic!("expected a commit, got {:?}", other),
    }
}

#[test]
fn merge_commits_carry_repeated_parent_lines() {
    let body = format!(
        "tree {TREE_SHA}\nparent {PARENT_SHA}\nparent {TREE_SHA}\nauthor a b\ncommitter a b\n\nm\n"
    );
    match read_object(&commit_object(&body)) {
        Ok(Object::Commit(c)) => {
            assert_eq!(
                c.parents,
                vec![PARENT_SHA.as_bytes().to_vec(), TREE_SHA.as_bytes().to_vec()]
            );
        }
        other => panic!("expected a commit, got {:?}", other),
    }
}

#[test]
fn commit_without_tree_is_corrupt() {
    let body = "author a b\ncommitter a b\n\nm\n";
    assert_eq!(read_object(&commit_object(body)).unwrap_err(), ObjError::Corrupt);
}

#[test]
fn commit_with_two_trees_is_corrupt() {
    let body = format!("tree {TREE_SHA}\ntree {TREE_SHA}\n\nm\n");
    assert_eq!(read_object(&commit_object(&body)).unwrap_err(), ObjError::Corrupt);
}

#[test]
fn commit_with_bad_digest_is_corrupt() {
    let body = "tree nothex\n\nm\n";
    assert_eq!(read_object(&commit_object(body)).unwrap_err(), ObjError::Corrupt);
}

#[test]
fn commit_with_unknown_key_is_corrupt() {
    let body = format!("tree {TREE_SHA}\ngpgsig abc\n\nm\n");
    assert_eq!(read_object(&commit_object(&body)).unwrap_err(), ObjError::Corrupt);
}

#[test]
fn commit_without_blank_line_is_corrupt() {
    let body = format!("tree {TREE_SHA}\nauthor a b\n");
    assert_eq!(read_object(&commit_object(&body)).unwrap_err(), ObjError::Corrupt);
}
