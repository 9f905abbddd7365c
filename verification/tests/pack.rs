use mingit::{
    apply_delta, cat_file, compress_object, hash_data, hash_object, read_size,
    read_type_and_size, unpack, ByteReader, GitError, ObjectType, Store,
};

/// A record header for `kind` and `size`, as the pack format writes it.
fn record_header(kind: u8, size: usize) -> Vec<u8> {
    let mut out = Vec::new();
    let mut rest = size >> 4;
    let mut first = (kind << 4) | ((size & 0x0f) as u8);
    if rest > 0 {
        first |= 0x80;
    }
    out.push(first);
    while rest > 0 {
        let mut b = (rest & 0x7f) as u8;
        rest >>= 7;
        if rest > 0 {
            b |= 0x80;
        }
        out.push(b);
    }
    out
}

/// A whole pack around the given records, with a correct trailer.
fn build_pack(count: u32, records: &[Vec<u8>]) -> Vec<u8> {
    let mut body = Vec::new();
    body.extend_from_slice(b"PACK");
    body.extend_from_slice(&[0, 0, 0, 2]);
    body.extend_from_slice(&count.to_be_bytes());
    for record in records {
        body.extend_from_slice(record);
    }
    let digest = hash_data(&body);
    body.extend_from_slice(&digest);
    body
}

fn blob_record(payload: &[u8]) -> Vec<u8> {
    let mut record = record_header(3, payload.len());
    record.extend_from_slice(&compress_object(&payload.to_vec()));
    record
}

#[test]
fn unpack_stores_blob() {
    let mut store = Store::new();
    let pack = build_pack(1, &[blob_record(b"hello\n")]);
    assert_eq!(unpack(&mut store, &pack), Ok(()));
    assert_eq!(cat_file(&store, &String::from("ce01")).unwrap(), "hello\n");
}

#[test]
fn unpack_rejects_altered_trailer() {
    let mut store = Store::new();
    let mut pack = build_pack(1, &[blob_record(b"hello\n")]);
    let last = pack.len() - 1;
    pack[last] ^= 0xff;
    assert_eq!(unpack(&mut store, &pack), Err(GitError::Integrity));
}

#[test]
fn unpack_rejects_altered_body() {
    let mut store = Store::new();
    let mut pack = build_pack(1, &[blob_record(b"hello\n")]);
    pack[13] ^= 0x01;
    let outcome = unpack(&mut store, &pack);
    assert!(outcome == Err(GitError::Integrity) || outcome == Err(GitError::Decode));
}

#[test]
fn unpack_rejects_bad_magic() {
    let mut store = Store::new();
    let mut pack = build_pack(1, &[blob_record(b"hello\n")]);
    pack[0] = b'K';
    assert_eq!(unpack(&mut store, &pack), Err(GitError::Integrity));
}

#[test]
fn unpack_rejects_short_input() {
    let mut store = Store::new();
    assert_eq!(unpack(&mut store, &b"PAC".to_vec()), Err(GitError::Integrity));
    assert_eq!(
        unpack(&mut store, &b"PACK0000000000".to_vec()),
        Err(GitError::Integrity)
    );
}

#[test]
fn unpack_skips_tag_records() {
    let mut store = Store::new();
    let mut tag = record_header(4, 4);
    tag.extend_from_slice(&compress_object(&b"tag!".to_vec()));
    let pack = build_pack(2, &[tag, blob_record(b"hello\n")]);
    assert_eq!(unpack(&mut store, &pack), Ok(()));
    assert_eq!(cat_file(&store, &String::from("ce01")).unwrap(), "hello\n");
}

#[test]
fn unpack_refuses_offset_delta() {
    let mut store = Store::new();
    let mut record = record_header(6, 3);
    record.push(0x05);
    record.extend_from_slice(&compress_object(&b"xyz".to_vec()));
    let pack = build_pack(1, &[record]);
    assert_eq!(unpack(&mut store, &pack), Err(GitError::Unsupported));
}

#[test]
fn unpack_rejects_wrong_inflated_length() {
    let mut store = Store::new();
    let mut record = record_header(3, 5);
    record.extend_from_slice(&compress_object(&b"hello\n".to_vec()));
    let pack = build_pack(1, &[record]);
    assert_eq!(unpack(&mut store, &pack), Err(GitError::Integrity));
}

/// source `hello\n`, copy all six bytes, then insert `X`.
fn demo_delta() -> Vec<u8> {
    vec![
        0x06, // source length 6
        0x07, // target length 7
        0x90, 0x06, // copy: one size byte, offset 0, size 6
        0x01, b'X', // insert one byte
    ]
}

#[test]
fn apply_delta_copies_and_inserts() {
    let mut store = Store::new();
    let base = hash_object(&mut store, &b"hello\n".to_vec(), true);
    let framed = apply_delta(&store, &base, &demo_delta()).unwrap();
    assert_eq!(framed, b"blob 7\0hello\nX".to_vec());
}

#[test]
fn apply_delta_rejects_source_length_mismatch() {
    let mut store = Store::new();
    let base = hash_object(&mut store, &b"hello\n".to_vec(), true);
    let mut delta = demo_delta();
    delta[0] = 0x05;
    assert_eq!(
        apply_delta(&store, &base, &delta),
        Err(GitError::Integrity)
    );
}

#[test]
fn apply_delta_rejects_target_length_mismatch() {
    let mut store = Store::new();
    let base = hash_object(&mut store, &b"hello\n".to_vec(), true);
    let mut delta = demo_delta();
    delta[1] = 0x09;
    assert_eq!(
        apply_delta(&store, &base, &delta),
        Err(GitError::Integrity)
    );
}

#[test]
fn apply_delta_rejects_copy_past_source() {
    let mut store = Store::new();
    let base = hash_object(&mut store, &b"hello\n".to_vec(), true);
    let delta = vec![0x06, 0x09, 0x90, 0x09];
    assert_eq!(
        apply_delta(&store, &base, &delta),
        Err(GitError::Integrity)
    );
}

#[test]
fn unpack_applies_ref_delta_against_store() {
    let mut store = Store::new();
    hash_object(&mut store, &b"hello\n".to_vec(), true);
    let base_raw: Vec<u8> = (0..20)
        .map(|i| {
            let hex = "ce013625030ba8dba906f756967f9e9ca394464a";
            u8::from_str_radix(&hex[2 * i..2 * i + 2], 16).unwrap()
        })
        .collect();
    let mut record = record_header(7, demo_delta().len());
    record.extend_from_slice(&base_raw);
    record.extend_from_slice(&compress_object(&demo_delta()));
    let pack = build_pack(1, &[record]);
    assert_eq!(unpack(&mut store, &pack), Ok(()));
    // The reconstructed object is the framed target under its own identity.
    let target_hex = {
        let framed = b"blob 7\0hello\nX".to_vec();
        mingit::to_hex(&hash_data(&framed))
    };
    assert_eq!(
        cat_file(&store, &target_hex).unwrap(),
        "hello\nX"
    );
}

#[test]
fn read_size_decodes_groups() {
    let mut reader = ByteReader::new(vec![0x96, 0x01, 0xaa]);
    assert_eq!(read_size(&mut reader), Ok(0x16 + (0x01 << 7)));
    let mut short = ByteReader::new(vec![0x80]);
    assert_eq!(read_size(&mut short), Err(GitError::Io));
}

#[test]
fn read_type_and_size_decodes_header() {
    // type 3 (blob), size 0b0101 | (0b0000011 << 4) = 53
    let mut reader = ByteReader::new(vec![0xb5, 0x03]);
    assert_eq!(
        read_type_and_size(&mut reader),
        Ok((ObjectType::Blob, 5 + (3 << 4)))
    );
    let mut plain = ByteReader::new(vec![0x15]);
    assert_eq!(
        read_type_and_size(&mut plain),
        Ok((ObjectType::Commit, 5))
    );
    let mut unknown = ByteReader::new(vec![0x55]);
    assert_eq!(read_type_and_size(&mut unknown), Err(GitError::Decode));
}
