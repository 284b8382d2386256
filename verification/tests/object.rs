use std::collections::BTreeMap;

use chunklog::object::DecodeError;
use chunklog::{parse_hash, Commit, Object, ParseHashError};

#[test]
fn object_roundtrip() {
    let objects = vec![
        Object::Blob(vec![1, 2, 3]),
        Object::Tree(BTreeMap::from([((0, 0), chunklog::hash::Hash([7; 8]))])),
        Object::Commit(Commit {
            tree: chunklog::hash::Hash([1; 8]),
            parent: Some(chunklog::hash::Hash([2; 8])),
            timestamp: 42,
            message: "save".to_string(),
        }),
    ];
    for object in objects {
        let bytes = object.to_bytes();
        assert_eq!(Object::from_bytes(&bytes).unwrap(), object);
    }
}

#[test]
fn hash_is_deterministic_and_content_addressed() {
    let a = Object::Blob(vec![1, 2, 3]);
    let b = Object::Blob(vec![1, 2, 3]);
    let c = Object::Blob(vec![1, 2, 4]);
    assert_eq!(a.hash(), b.hash());
    assert_ne!(a.hash(), c.hash());
}

#[test]
fn hash_parses_and_formats_as_hex() {
    let hash = chunklog::hash::Hash([0xab, 0xcd, 0xef, 0, 1, 2, 3, 4]);
    let text = hash.to_hex();
    assert_eq!(text, "abcdef0001020304");
    assert_eq!(parse_hash(&text).unwrap(), hash);
}

#[test]
fn blob_encoding_is_exact() {
    let bytes = Object::Blob(vec![9, 8]).to_bytes();
    assert_eq!(
        bytes,
        vec![0x43, 0x48, 0x4c, 0x47, 1, 1, 0, 0, 0, 0, 0, 0, 0, 2, 9, 8]
    );
}

#[test]
fn tree_entries_are_sorted_and_signed() {
    let tree = Object::Tree(BTreeMap::from([
        ((1, 0), chunklog::hash::Hash([1; 8])),
        ((-1, 5), chunklog::hash::Hash([2; 8])),
    ]));
    let bytes = tree.to_bytes();
    assert_eq!(&bytes[..6], &[0x43, 0x48, 0x4c, 0x47, 1, 2]);
    assert_eq!(&bytes[6..14], &[0, 0, 0, 0, 0, 0, 0, 2]);
    assert_eq!(&bytes[14..22], &[0xff, 0xff, 0xff, 0xff, 0, 0, 0, 5]);
    assert_eq!(&bytes[22..30], &[2; 8]);
    assert_eq!(&bytes[30..38], &[0, 0, 0, 1, 0, 0, 0, 0]);
    assert_eq!(bytes.len(), 14 + 2 * 16);
}

#[test]
fn commit_without_parent_roundtrips() {
    let commit = Object::Commit(Commit {
        tree: chunklog::hash::Hash([3; 8]),
        parent: None,
        timestamp: 7,
        message: "héllo".to_string(),
    });
    let bytes = commit.to_bytes();
    assert_eq!(bytes[14], 0);
    assert_eq!(Object::from_bytes(&bytes).unwrap(), commit);
}

#[test]
fn malformed_encodings_are_rejected() {
    assert_eq!(Object::from_bytes(b""), Err(DecodeError));
    assert_eq!(Object::from_bytes(b"CHLG\x01\x09"), Err(DecodeError));
    let mut blob = Object::Blob(vec![1, 2, 3]).to_bytes();
    blob.push(0);
    assert_eq!(Object::from_bytes(&blob), Err(DecodeError));
    let tree = Object::Tree(BTreeMap::from([
        ((0, 0), chunklog::hash::Hash([1; 8])),
        ((0, 1), chunklog::hash::Hash([2; 8])),
    ]))
    .to_bytes();
    let mut swapped = tree.clone();
    swapped[14..30].copy_from_slice(&tree[30..46]);
    swapped[30..46].copy_from_slice(&tree[14..30]);
    assert_eq!(Object::from_bytes(&swapped), Err(DecodeError));
    let mut bad_flag = Object::Commit(Commit {
        tree: chunklog::hash::Hash([3; 8]),
        parent: None,
        timestamp: 7,
        message: "m".to_string(),
    })
    .to_bytes();
    bad_flag[14] = 2;
    assert_eq!(Object::from_bytes(&bad_flag), Err(DecodeError));
    let mut bad_text = Object::Commit(Commit {
        tree: chunklog::hash::Hash([3; 8]),
        parent: None,
        timestamp: 7,
        message: "m".to_string(),
    })
    .to_bytes();
    *bad_text.last_mut().unwrap() = 0xff;
    assert_eq!(Object::from_bytes(&bad_text), Err(DecodeError));
}

#[test]
fn object_hash_is_the_digest_of_its_bytes() {
    let object = Object::Blob(vec![4, 5, 6]);
    assert_eq!(object.hash(), chunklog::hash::Hash::digest(&object.to_bytes()));
    assert_ne!(object.hash(), chunklog::hash::Hash::digest(&[4, 5, 6]));
}

#[test]
fn parse_hash_reports_length_and_digit_errors() {
    assert_eq!(parse_hash("abc"), Err(ParseHashError::InvalidLength));
    assert_eq!(parse_hash("zzcdef0001020304"), Err(ParseHashError::InvalidDigit));
    assert_eq!(parse_hash("+0+0+0+0+0+0+0+0"), Err(ParseHashError::InvalidDigit));
    assert_eq!(parse_hash("abcdef00010203+4"), Err(ParseHashError::InvalidDigit));
    assert_eq!(parse_hash("abcdef000102030"), Err(ParseHashError::InvalidLength));
    assert_eq!(
        parse_hash("ABCDEF0001020304").unwrap(),
        chunklog::hash::Hash([0xab, 0xcd, 0xef, 0, 1, 2, 3, 4])
    );
}

#[test]
fn hash_value_roundtrips() {
    let h = chunklog::hash::Hash([1, 2, 3, 4, 5, 6, 7, 8]);
    assert_eq!(h.to_u64(), 0x0807060504030201);
    assert_eq!(chunklog::hash::Hash::from_u64(h.to_u64()), h);
    assert!(h.verify(b"not it").is_err());
    let d = chunklog::hash::Hash::digest(b"it");
    assert!(d.verify(b"it").is_ok());
}

#[test]
fn accepted_bytes_reencode_to_themselves() {
    let bytes = vec![
        0x43, 0x48, 0x4c, 0x47, 1, 2, 0, 0, 0, 0, 0, 0, 0, 1, 0, 0, 0, 4, 0xff, 0xff, 0xff, 0xfe,
        1, 2, 3, 4, 5, 6, 7, 8,
    ];
    let object = Object::from_bytes(&bytes).unwrap();
    match &object {
        Object::Tree(tree) => {
            assert_eq!(
                tree.get(&(4, -2)),
                Some(&chunklog::hash::Hash([1, 2, 3, 4, 5, 6, 7, 8]))
            );
        }
        other => panic!("{other:?} is not a tree"),
    }
    assert_eq!(object.to_bytes(), bytes);
}
