//! Decode errors and the exact framing rules, on hand-built object files.

use std::io::Write;
use gitobj::store::read_object;
use gitobj::commands::cat_file;
use gitobj::Object;
use gitobj::ObjError;

fn deflate(data: &[u8]) -> Vec<u8> {
    let mut enc = flate2::write::ZlibEncoder::new(Vec::new(), flate2::Compression::default());
    enc.write_all(data).unwrap();
    enc.finish().unwrap()
}

#[test]
fn garbage_bytes_are_corrupt() {
    let r = read_object(&vec![1, 2, 3, 4, 5]);
    assert_eq!(r.unwrap_err(), ObjError::Corrupt);
}

#[test]
fn missing_nul_is_corrupt() {
    let r = read_object(&deflate(b"blob 5 hello"));
    assert_eq!(r.unwrap_err(), ObjError::Corrupt);
}

#[test]
fn missing_space_is_corrupt() {
    let r = read_object(&deflate(b"blob5\0hello"));
    assert_eq!(r.unwrap_err(), ObjError::Corrupt);
}

#[test]
fn non_decimal_length_is_corrupt() {
    assert_eq!(read_object(&deflate(b"blob -1\0x")).unwrap_err(), ObjError::Corrupt);
    assert_eq!(read_object(&deflate(b"blob five\0hello")).unwrap_err(), ObjError::Corrupt);
    assert_eq!(read_object(&deflate(b"blob \0")).unwrap_err(), ObjError::Corrupt);
}

#[test]
fn wrong_declared_length_is_corrupt() {
    assert_eq!(read_object(&deflate(b"blob 4\0hello")).unwrap_err(), ObjError::Corrupt);
    assert_eq!(read_object(&deflate(b"blob 6\0hello")).unwrap_err(), ObjError::Corrupt);
}

#[test]
fn oversized_declared_length_is_corrupt() {
    let r = read_object(&deflate(b"blob 99999999999999999999999\0hello"));
    assert_eq!(r.unwrap_err(), ObjError::Corrupt);
}

#[test]
fn leading_zeros_still_declare_the_length() {
    match read_object(&deflate(b"blob 005\0hello")) {
        Ok(Object::Blob(b)) => assert_eq!(b.contents, b"hello".to_vec()),
        other => panic!("expected a blob, got {:?}", other),
    }
}

#[test]
fn unknown_kind_is_unsupported() {
    let r = read_object(&deflate(b"tag 3\0abc"));
    assert_eq!(r.unwrap_err(), ObjError::UnsupportedKind);
}

#[test]
fn unprintable_kind_is_corrupt() {
    let r = read_object(&deflate(b"bl\x01b 3\0abc"));
    assert_eq!(r.unwrap_err(), ObjError::Corrupt);
}

#[test]
fn header_nul_just_inside_the_bound_is_accepted() {
    // 25 length digits: the NUL lands at index 30, inside the bound.
    match read_object(&deflate(b"blob 0000000000000000000000005\0hello")) {
        Ok(Object::Blob(b)) => assert_eq!(b.contents, b"hello".to_vec()),
        other => panic!("expected a blob, got {:?}", other),
    }
}

#[test]
fn header_nul_past_the_bound_is_corrupt() {
    // 27 length digits: the NUL lands at index 32, past the bound.
    let r = read_object(&deflate(b"blob 000000000000000000000000005\0hello"));
    assert_eq!(r.unwrap_err(), ObjError::Corrupt);
}

#[test]
fn tree_frame_over_unstructured_content_fails_in_the_body() {
    let kind = gitobj::codec::tree_kind_vec();
    let content = b"not a tree at all".to_vec();
    let w = gitobj::store::write(&kind, content.len() as u64, &content, true).unwrap();
    let z = w.store.unwrap().compressed;
    assert_eq!(read_object(&z).unwrap_err(), ObjError::Corrupt);
}

#[test]
fn cat_file_returns_blob_bytes_verbatim() {
    let z = deflate(b"blob 5\0hello");
    assert_eq!(cat_file(&z).unwrap(), b"hello".to_vec());
}

#[test]
fn cat_file_rejects_trees() {
    let mut content: Vec<u8> = b"40000 sub\0".to_vec();
    content.extend_from_slice(&[0u8; 20]);
    let mut frame: Vec<u8> = format!("tree {}\0", content.len()).into_bytes();
    frame.extend_from_slice(&content);
    let r = cat_file(&deflate(&frame));
    assert_eq!(r.unwrap_err(), ObjError::UnsupportedKind);
}

#[test]
fn blob_content_is_not_required_to_be_text() {
    let mut frame: Vec<u8> = b"blob 4\0".to_vec();
    frame.extend_from_slice(&[0xffu8, 0xfe, 0x00, 0x9c]);
    match read_object(&deflate(&frame)) {
        Ok(Object::Blob(b)) => assert_eq!(b.contents, vec![0xffu8, 0xfe, 0x00, 0x9c]),
        other => panic!("expected a blob, got {:?}", other),
    }
}
