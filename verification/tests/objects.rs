use mingit::{
    cat_file, compress_object, decompress_object, full_hash, get_type, hash_data, hash_object,
    identify_header, to_hex, GitError, ObjectType, Store,
};

#[test]
fn hash_object_known_blob() {
    let mut store = Store::new();
    let hex = hash_object(&mut store, &b"hello\n".to_vec(), true);
    assert_eq!(hex, "ce013625030ba8dba906f756967f9e9ca394464a");
    let printed = cat_file(&store, &String::from("ce01")).unwrap();
    assert_eq!(printed, "hello\n");
}

#[test]
fn hash_object_without_write_leaves_store() {
    let mut store = Store::new();
    let hex = hash_object(&mut store, &b"hello\n".to_vec(), false);
    assert_eq!(hex, "ce013625030ba8dba906f756967f9e9ca394464a");
    assert_eq!(
        cat_file(&store, &String::from("ce01")),
        Err(GitError::NotFound)
    );
}

#[test]
fn famous_blob_identity() {
    let mut store = Store::new();
    let hex = hash_object(&mut store, &b"test content\n".to_vec(), false);
    assert_eq!(hex, "d670460b4b4aece5915caf5c68d12f560a9fe3e4");
}

#[test]
fn full_hash_resolves_prefix() {
    let mut store = Store::new();
    hash_object(&mut store, &b"hello\n".to_vec(), true);
    let full = full_hash(&store, &String::from("ce0136")).unwrap();
    assert_eq!(full, "ce013625030ba8dba906f756967f9e9ca394464a");
    assert_eq!(get_type(&store, &String::from("ce01")), Ok(ObjectType::Blob));
}

#[test]
fn short_prefix_rejected() {
    let mut store = Store::new();
    hash_object(&mut store, &b"hello\n".to_vec(), true);
    assert_eq!(full_hash(&store, &String::from("c")), Err(GitError::Decode));
    assert_eq!(full_hash(&store, &String::from("")), Err(GitError::Decode));
}

#[test]
fn unknown_prefix_not_found() {
    let mut store = Store::new();
    hash_object(&mut store, &b"hello\n".to_vec(), true);
    assert_eq!(
        full_hash(&store, &String::from("beef")),
        Err(GitError::NotFound)
    );
}

#[test]
fn ambiguous_prefix_rejected() {
    let mut store = Store::new();
    let first = hash_object(&mut store, &b"hello\n".to_vec(), true);
    let prefix: String = first.chars().take(2).collect();
    // Find a second blob whose identity shares the two-digit prefix.
    let mut probe = 0u32;
    loop {
        let body = format!("probe {probe}\n").into_bytes();
        let hex = hash_object(&mut store, &body, false);
        if hex.starts_with(&prefix) && hex != first {
            hash_object(&mut store, &body, true);
            break;
        }
        probe += 1;
        assert!(probe < 1_000_000);
    }
    assert_eq!(
        full_hash(&store, &String::from(prefix.as_str())),
        Err(GitError::Ambiguous)
    );
    // The full name still resolves.
    assert_eq!(full_hash(&store, &first), Ok(first.clone()));
}

#[test]
fn identify_header_accepts_kinds() {
    assert_eq!(
        identify_header(&String::from("blob 6")),
        Ok((ObjectType::Blob, 6))
    );
    assert_eq!(
        identify_header(&String::from("tree 0")),
        Ok((ObjectType::Tree, 0))
    );
    assert_eq!(
        identify_header(&String::from("commit 123")),
        Ok((ObjectType::Commit, 123))
    );
    assert_eq!(
        identify_header(&String::from("tag 9")),
        Ok((ObjectType::Tag, 9))
    );
}

#[test]
fn identify_header_rejects_malformed() {
    assert_eq!(
        identify_header(&String::from("blob")),
        Err(GitError::Decode)
    );
    assert_eq!(
        identify_header(&String::from("blob 6 x")),
        Err(GitError::Decode)
    );
    assert_eq!(
        identify_header(&String::from("sock 6")),
        Err(GitError::Decode)
    );
    assert_eq!(
        identify_header(&String::from("blob abc")),
        Err(GitError::Decode)
    );
    assert_eq!(
        identify_header(&String::from("blob 99999999999999999999999999")),
        Err(GitError::Decode)
    );
}

#[test]
fn empty_blob_identity() {
    let mut store = Store::new();
    let hex = hash_object(&mut store, &Vec::new(), true);
    assert_eq!(hex, "e69de29bb2d1d6434b8b29ae775ad8c2e48c5391");
    assert_eq!(cat_file(&store, &String::from("e69de2")).unwrap(), "");
}

#[test]
fn hex_and_digest_wrappers() {
    assert_eq!(to_hex(&vec![0x00, 0xff, 0x1a]), "00ff1a");
    let digest = hash_data(&Vec::new());
    assert_eq!(to_hex(&digest), "da39a3ee5e6b4b0d3255bfef95601890afd80709");
}

#[test]
fn zlib_roundtrip() {
    let data = b"a reasonably compressible payload payload payload".to_vec();
    let packed = compress_object(&data);
    assert_ne!(packed, data);
    assert_eq!(decompress_object(&packed), Ok(data));
}

#[test]
fn zlib_rejects_garbage() {
    let garbage = vec![0x13, 0x37, 0x00, 0x42];
    assert!(decompress_object(&garbage).is_err());
}

#[test]
fn error_descriptions() {
    assert_eq!(GitError::NotFound.describe(), "object or ref not found");
    assert_eq!(GitError::Ambiguous.describe(), "hash prefix is ambiguous");
    assert_eq!(GitError::Integrity.describe(), "integrity check failed");
}
