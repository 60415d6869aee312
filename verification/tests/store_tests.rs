//! Digests, paths, idempotent writes, and the hashing tee.

use gitobj::commands::hash_object;
use gitobj::commands::is_hidden;
use gitobj::hashing::HashedWriter;
use gitobj::store::paths_from_sha;
use gitobj::store::read_object;
use gitobj::codec::blob_kind_vec;
use gitobj::Object;
use gitobj::ObjError;
use sha1::Digest;

fn sha1_hex(data: &[u8]) -> String {
    hex::encode(sha1::Sha1::digest(data))
}

#[test]
fn empty_blob_has_known_digest() {
    let w = hash_object(&Vec::new(), false);
    assert_eq!(
        String::from_utf8(w.object_sha.clone()).unwrap(),
        "e69de29bb2d1d6434b8b29ae775ad8c2e48c5391"
    );
    assert!(w.store.is_none());
}

#[test]
fn blob_digest_matches_frame_hash() {
    let content = b"hello".to_vec();
    let w = hash_object(&content, false);
    let expected = sha1_hex(b"blob 5\0hello");
    assert_eq!(String::from_utf8(w.object_sha.clone()).unwrap(), expected);
}

#[test]
fn binary_blob_round_trips() {
    let content = vec![0u8, 255, 1, 2, 0, 147, 10, 32];
    let w = hash_object(&content, true);
    let target = w.store.expect("persisting write carries bytes");
    match read_object(&target.compressed) {
        Ok(Object::Blob(b)) => {
            assert_eq!(b.contents, content);
            assert_eq!(b.size, content.len() as u64);
        }
        other => panic!("expected a blob, got {:?}", other),
    }
}

#[test]
fn empty_blob_round_trips() {
    let w = hash_object(&Vec::new(), true);
    let target = w.store.expect("persisting write carries bytes");
    match read_object(&target.compressed) {
        Ok(Object::Blob(b)) => {
            assert_eq!(b.contents, Vec::<u8>::new());
            assert_eq!(b.size, 0);
        }
        other => panic!("expected a blob, got {:?}", other),
    }
}

#[test]
fn writing_twice_gives_same_digest_and_bytes_back() {
    let content = b"same content".to_vec();
    let first = hash_object(&content, true);
    let second = hash_object(&content, true);
    assert_eq!(first.object_sha, second.object_sha);
    let z1 = first.store.unwrap().compressed;
    let z2 = second.store.unwrap().compressed;
    for z in [&z1, &z2] {
        match read_object(z) {
            Ok(Object::Blob(b)) => assert_eq!(b.contents, content),
            other => panic!("expected a blob, got {:?}", other),
        }
    }
}

#[test]
fn length_mismatch_is_reported() {
    let kind = blob_kind_vec();
    let content = b"hello".to_vec();
    let r = gitobj::store::write(&kind, 4, &content, false);
    assert_eq!(r.unwrap_err(), ObjError::LengthMismatch);
    assert!(gitobj::store::write(&kind, 5, &content, false).is_ok());
}

#[test]
fn paths_follow_the_fan_out() {
    let sha = b"e69de29bb2d1d6434b8b29ae775ad8c2e48c5391".to_vec();
    let (dir, file) = paths_from_sha(&sha);
    assert_eq!(String::from_utf8(dir).unwrap(), ".git/objects/e6");
    assert_eq!(
        String::from_utf8(file).unwrap(),
        ".git/objects/e6/9de29bb2d1d6434b8b29ae775ad8c2e48c5391"
    );
}

#[test]
fn persisting_write_derives_paths_from_digest() {
    let content = b"path check".to_vec();
    let w = hash_object(&content, true);
    let sha = String::from_utf8(w.object_sha.clone()).unwrap();
    let target = w.store.unwrap();
    assert_eq!(
        String::from_utf8(target.dir_path).unwrap(),
        format!(".git/objects/{}", &sha[..2])
    );
    assert_eq!(
        String::from_utf8(target.file_path).unwrap(),
        format!(".git/objects/{}/{}", &sha[..2], &sha[2..])
    );
}

#[test]
fn hashed_writer_tees_bytes_into_the_digest() {
    let mut hw = HashedWriter::new();
    let n = hw.write(&b"blob 11\0".to_vec());
    assert_eq!(n, 8);
    hw.write(&b"hello".to_vec());
    hw.write(&b" tee!".to_vec());
    hw.flush();
    let (digest, buffered) = hw.finalize();
    assert_eq!(buffered, b"blob 11\0hello tee!".to_vec());
    assert_eq!(hex::encode(&digest), sha1_hex(b"blob 11\0hello tee!"));
}

#[test]
fn hidden_names_start_with_a_dot() {
    assert!(is_hidden(&b".git".to_vec()));
    assert!(is_hidden(&b".".to_vec()));
    assert!(!is_hidden(&b"src".to_vec()));
    assert!(!is_hidden(&Vec::new()));
}
