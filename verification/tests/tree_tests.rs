//! Tree building: sort order, order invariance, truncation, listing.

use std::io::Read;
use std::io::Write;
use gitobj::commands::hash_object;
use gitobj::commands::ls_tree;
use gitobj::commands::write_tree;
use gitobj::store::read_object;
use gitobj::Object;
use gitobj::ObjError;
use gitobj::TreeEntry;
use gitobj::TreeEntryMode;

fn deflate(data: &[u8]) -> Vec<u8> {
    let mut enc = flate2::write::ZlibEncoder::new(Vec::new(), flate2::Compression::default());
    enc.write_all(data).unwrap();
    enc.finish().unwrap()
}

fn entry(mode: TreeEntryMode, name: &str, sha: &str) -> TreeEntry {
    TreeEntry {
        mode,
        name: name.as_bytes().to_vec(),
        object_sha: sha.as_bytes().to_vec(),
    }
}

const SHA_A: &str = "aaaaaaaaaaaaaaaaaaaaaaaaaaaaaaaaaaaaaaaa";
const SHA_B: &str = "bbbbbbbbbbbbbbbbbbbbbbbbbbbbbbbbbbbbbbbb";

#[test]
fn single_file_tree_round_trips() {
    let blob = hash_object(&b"hello".to_vec(), true);
    let blob_sha = String::from_utf8(blob.object_sha.clone()).unwrap();
    let entries = vec![entry(TreeEntryMode::RegularFile, "hello.txt", &blob_sha)];
    let tw = write_tree(&b"dir".to_vec(), entries).unwrap();
    assert_eq!(tw.entry.mode, TreeEntryMode::Directory);
    assert_eq!(tw.entry.name, b"dir".to_vec());
    assert_eq!(tw.entry.object_sha, tw.write.object_sha);
    let z = tw.write.store.unwrap().compressed;
    match read_object(&z) {
        Ok(Object::Tree(t)) => {
            assert_eq!(t.entries.len(), 1);
            assert_eq!(t.entries[0].name, b"hello.txt".to_vec());
            assert_eq!(t.entries[0].mode, TreeEntryMode::RegularFile);
            assert_eq!(String::from_utf8(t.entries[0].object_sha.clone()).unwrap(), blob_sha);
        }
        other => panic!("expected a tree, got {:?}", other),
    }
}

#[test]
fn entry_order_does_not_change_the_tree() {
    let one = vec![
        entry(TreeEntryMode::RegularFile, "b", SHA_B),
        entry(TreeEntryMode::RegularFile, "a", SHA_A),
    ];
    let two = vec![
        entry(TreeEntryMode::RegularFile, "a", SHA_A),
        entry(TreeEntryMode::RegularFile, "b", SHA_B),
    ];
    let t1 = write_tree(&b"d".to_vec(), one).unwrap();
    let t2 = write_tree(&b"d".to_vec(), two).unwrap();
    assert_eq!(t1.write.object_sha, t2.write.object_sha);
    assert_eq!(
        t1.write.store.unwrap().compressed,
        t2.write.store.unwrap().compressed
    );
}

#[test]
fn directory_names_sort_as_if_slash_terminated() {
    // Plain string order would put "sub" before "sub.txt"; the directory
    // rule compares "sub/" against "sub.txt", so the file comes first.
    let entries = vec![
        entry(TreeEntryMode::Directory, "sub", SHA_A),
        entry(TreeEntryMode::RegularFile, "sub.txt", SHA_B),
    ];
    let tw = write_tree(&b"d".to_vec(), entries).unwrap();
    let z = tw.write.store.unwrap().compressed;
    match read_object(&z) {
        Ok(Object::Tree(t)) => {
            assert_eq!(t.entries.len(), 2);
            assert_eq!(t.entries[0].name, b"sub.txt".to_vec());
            assert_eq!(t.entries[0].mode, TreeEntryMode::RegularFile);
            assert_eq!(t.entries[1].name, b"sub".to_vec());
            assert_eq!(t.entries[1].mode, TreeEntryMode::Directory);
        }
        other => panic!("expected a tree, got {:?}", other),
    }
}

#[test]
fn truncated_digest_is_corrupt_not_wrong() {
    let mut content: Vec<u8> = b"100644 cut.txt\0".to_vec();
    content.extend_from_slice(&[7u8; 12]);  // 12 of the 20 digest bytes
    let mut frame: Vec<u8> = format!("tree {}\0", content.len()).into_bytes();
    frame.extend_from_slice(&content);
    let r = read_object(&deflate(&frame));
    assert_eq!(r.unwrap_err(), ObjError::Corrupt);
}

#[test]
fn truncated_digest_after_whole_entries_is_corrupt() {
    let mut content: Vec<u8> = b"100644 a\0".to_vec();
    content.extend_from_slice(&[1u8; 20]);
    content.extend_from_slice(b"100644 b\0");
    content.extend_from_slice(&[2u8; 5]);
    let mut frame: Vec<u8> = format!("tree {}\0", content.len()).into_bytes();
    frame.extend_from_slice(&content);
    let r = read_object(&deflate(&frame));
    assert_eq!(r.unwrap_err(), ObjError::Corrupt);
}

#[test]
fn unknown_mode_is_unsupported() {
    let mut content: Vec<u8> = b"123456 a\0".to_vec();
    content.extend_from_slice(&[1u8; 20]);
    let mut frame: Vec<u8> = format!("tree {}\0", content.len()).into_bytes();
    frame.extend_from_slice(&content);
    let r = read_object(&deflate(&frame));
    assert_eq!(r.unwrap_err(), ObjError::UnsupportedMode);
}

#[test]
fn invalid_entries_are_rejected() {
    let bad_name = vec![entry(TreeEntryMode::RegularFile, "a/b", SHA_A)];
    assert_eq!(write_tree(&b"d".to_vec(), bad_name).unwrap_err(), ObjError::Corrupt);
    let bad_sha = vec![entry(TreeEntryMode::RegularFile, "a", "nothex")];
    assert_eq!(write_tree(&b"d".to_vec(), bad_sha).unwrap_err(), ObjError::Corrupt);
    let empty_name = vec![entry(TreeEntryMode::RegularFile, "", SHA_A)];
    assert_eq!(write_tree(&b"d".to_vec(), empty_name).unwrap_err(), ObjError::Corrupt);
    assert_eq!(write_tree(&b"bad/name".to_vec(), Vec::new()).unwrap_err(), ObjError::Corrupt);
}

#[test]
fn all_four_modes_round_trip() {
    let entries = vec![
        entry(TreeEntryMode::RegularFile, "plain", SHA_A),
        entry(TreeEntryMode::ExecutableFile, "runme", SHA_A),
        entry(TreeEntryMode::SymbolicLink, "link", SHA_A),
        entry(TreeEntryMode::Directory, "sub", SHA_B),
    ];
    let tw = write_tree(&b"d".to_vec(), entries).unwrap();
    let z = tw.write.store.unwrap().compressed;
    match read_object(&z) {
        Ok(Object::Tree(t)) => {
            assert_eq!(t.entries.len(), 4);
            let modes: Vec<TreeEntryMode> = t.entries.iter().map(|e| e.mode).collect();
            assert!(modes.contains(&TreeEntryMode::RegularFile));
            assert!(modes.contains(&TreeEntryMode::ExecutableFile));
            assert!(modes.contains(&TreeEntryMode::SymbolicLink));
            assert!(modes.contains(&TreeEntryMode::Directory));
        }
        other => panic!("expected a tree, got {:?}", other),
    }
}

#[test]
fn ls_tree_prints_mode_kind_sha_and_name() {
    let entries = vec![
        entry(TreeEntryMode::Directory, "sub", SHA_A),
        entry(TreeEntryMode::RegularFile, "sub.txt", SHA_B),
    ];
    let tw = write_tree(&b"d".to_vec(), entries).unwrap();
    let z = tw.write.store.unwrap().compressed;
    let lines = ls_tree(&z, false).unwrap();
    assert_eq!(lines.len(), 2);
    assert_eq!(
        String::from_utf8(lines[0].clone()).unwrap(),
        format!("100644 blob {}\tsub.txt", SHA_B)
    );
    assert_eq!(
        String::from_utf8(lines[1].clone()).unwrap(),
        format!("040000 tree {}\tsub", SHA_A)
    );
    let names = ls_tree(&z, true).unwrap();
    assert_eq!(String::from_utf8(names[0].clone()).unwrap(), "sub.txt");
    assert_eq!(String::from_utf8(names[1].clone()).unwrap(), "sub");
}

#[test]
fn ls_tree_rejects_blobs() {
    let z = deflate(b"blob 2\0hi");
    assert_eq!(ls_tree(&z, false).unwrap_err(), ObjError::UnsupportedKind);
}

#[test]
fn decoded_entries_reserialize_to_the_stored_bytes() {
    let entries = vec![
        entry(TreeEntryMode::Directory, "sub", SHA_A),
        entry(TreeEntryMode::RegularFile, "sub.txt", SHA_B),
    ];
    let tw = write_tree(&b"d".to_vec(), entries).unwrap();
    let z = tw.write.store.unwrap().compressed;
    let mut frame = Vec::new();
    flate2::bufread::ZlibDecoder::new(z.as_slice())
        .read_to_end(&mut frame)
        .unwrap();
    let nul = frame.iter().position(|&b| b == 0).unwrap();
    let stored_content = frame[nul + 1..].to_vec();
    let decoded = match read_object(&z) {
        Ok(Object::Tree(t)) => t.entries,
        other => panic!("expected a tree, got {:?}", other),
    };
    assert_eq!(gitobj::tree::serialize_entries(&decoded), stored_content);
}

#[test]
fn empty_tree_round_trips() {
    let tw = write_tree(&b"d".to_vec(), Vec::new()).unwrap();
    let z = tw.write.store.unwrap().compressed;
    match read_object(&z) {
        Ok(Object::Tree(t)) => assert_eq!(t.entries.len(), 0),
        other => panic!("expected a tree, got {:?}", other),
    }
}
