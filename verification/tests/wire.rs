use mingit::{
    build_want_body, head_ref_content, make_branch, parse_ref_advertisement, read_byte,
    read_git_pack_line, read_n_bytes, read_to_next_null_byte, ByteReader, GitError, Store,
};

fn pkt(payload: &[u8]) -> Vec<u8> {
    let mut out = format!("{:04x}", payload.len() + 4).into_bytes();
    out.extend_from_slice(payload);
    out
}

#[test]
fn pkt_line_reads_payload() {
    let mut reader = ByteReader::new(pkt(b"done\n"));
    assert_eq!(read_git_pack_line(&mut reader), Ok(Some(b"done\n".to_vec())));
}

#[test]
fn pkt_line_flush_is_none() {
    let mut reader = ByteReader::new(b"0000".to_vec());
    assert_eq!(read_git_pack_line(&mut reader), Ok(None));
    let mut delim = ByteReader::new(b"0001".to_vec());
    assert_eq!(read_git_pack_line(&mut delim), Ok(None));
}

#[test]
fn pkt_line_rejects_non_hex_length() {
    let mut reader = ByteReader::new(b"00zz....".to_vec());
    assert_eq!(read_git_pack_line(&mut reader), Err(GitError::Decode));
}

#[test]
fn pkt_line_rejects_short_input() {
    let mut reader = ByteReader::new(b"00".to_vec());
    assert_eq!(read_git_pack_line(&mut reader), Err(GitError::Io));
    let mut truncated = ByteReader::new(b"0009do".to_vec());
    assert_eq!(read_git_pack_line(&mut truncated), Err(GitError::Io));
}

#[test]
fn byte_reader_primitives() {
    let mut reader = ByteReader::new(b"ab\0cd".to_vec());
    assert_eq!(read_byte(&mut reader), Ok(b'a'));
    assert_eq!(read_n_bytes(1, &mut reader), Ok(vec![b'b']));
    let mut fresh = ByteReader::new(b"ab\0cd".to_vec());
    assert_eq!(read_to_next_null_byte(&mut fresh), Ok(String::from("ab")));
    assert_eq!(read_n_bytes(2, &mut fresh), Ok(b"cd".to_vec()));
    assert_eq!(read_byte(&mut fresh), Err(GitError::Io));
}

#[test]
fn read_to_null_rejects_bad_utf8() {
    let mut reader = ByteReader::new(vec![0xff, 0xfe, 0x00]);
    assert_eq!(read_to_next_null_byte(&mut reader), Err(GitError::Decode));
}

#[test]
fn want_body_is_exact() {
    let hash = String::from("ce013625030ba8dba906f756967f9e9ca394464a");
    let body = build_want_body(&hash);
    assert_eq!(
        body,
        b"0032want ce013625030ba8dba906f756967f9e9ca394464a\n00000009done\n".to_vec()
    );
}

#[test]
fn advertisement_yields_head_and_branch() {
    let hash = "ce013625030ba8dba906f756967f9e9ca394464a";
    let mut body = Vec::new();
    body.extend_from_slice(&pkt(b"# service=git-upload-pack\n"));
    body.extend_from_slice(b"0000");
    body.extend_from_slice(&pkt(
        format!("{hash} HEAD\0multi_ack side-band-64k\n").as_bytes(),
    ));
    body.extend_from_slice(&pkt(format!("{hash} refs/heads/main\n").as_bytes()));
    body.extend_from_slice(b"0000");
    let (head, branch) = parse_ref_advertisement(&body).unwrap();
    assert_eq!(head, hash);
    assert_eq!(branch, "main");
}

#[test]
fn advertisement_accepts_ref_without_newline() {
    let hash = "ce013625030ba8dba906f756967f9e9ca394464a";
    let mut body = Vec::new();
    body.extend_from_slice(&pkt(b"# service=git-upload-pack\n"));
    body.extend_from_slice(b"0000");
    body.extend_from_slice(&pkt(format!("{hash} HEAD\0caps").as_bytes()));
    body.extend_from_slice(&pkt(format!("{hash} refs/heads/dev").as_bytes()));
    body.extend_from_slice(b"0000");
    let (head, branch) = parse_ref_advertisement(&body).unwrap();
    assert_eq!(head, hash);
    assert_eq!(branch, "dev");
}

#[test]
fn advertisement_without_matching_ref_fails() {
    let hash = "ce013625030ba8dba906f756967f9e9ca394464a";
    let other = "cc628ccd10742baea8241c5924df992b5c019f71";
    let mut body = Vec::new();
    body.extend_from_slice(&pkt(b"# service=git-upload-pack\n"));
    body.extend_from_slice(b"0000");
    body.extend_from_slice(&pkt(format!("{hash} HEAD\0caps\n").as_bytes()));
    body.extend_from_slice(&pkt(format!("{other} refs/heads/main\n").as_bytes()));
    body.extend_from_slice(b"0000");
    assert_eq!(parse_ref_advertisement(&body), Err(GitError::NotFound));
}

#[test]
fn advertisement_requires_head() {
    let hash = "ce013625030ba8dba906f756967f9e9ca394464a";
    let mut body = Vec::new();
    body.extend_from_slice(&pkt(b"# service=git-upload-pack\n"));
    body.extend_from_slice(b"0000");
    body.extend_from_slice(&pkt(format!("{hash} refs/heads/dev\0caps\n").as_bytes()));
    body.extend_from_slice(b"0000");
    assert_eq!(parse_ref_advertisement(&body), Err(GitError::Decode));
}

#[test]
fn head_ref_content_is_symbolic() {
    assert_eq!(
        head_ref_content(&String::from("main")),
        "ref: refs/heads/main\n"
    );
}

#[test]
fn make_branch_requires_commit() {
    let mut store = Store::new();
    let blob = mingit::hash_object(&mut store, &b"hello\n".to_vec(), true);
    assert_eq!(
        make_branch(&store, &String::from("main"), &blob),
        Err(GitError::WrongType)
    );
}

#[test]
fn make_branch_writes_hash_line() {
    let mut store = Store::new();
    let tree = mingit::to_hex(
        &mingit::write_tree_from_directory(&mut store, &Vec::new(), 2).unwrap(),
    );
    let commit = mingit::commit_tree(
        &mut store,
        &String::from("m"),
        &tree,
        &None,
        &String::from("a"),
        &String::from("a@b"),
        0,
        &String::from("+0000"),
    )
    .unwrap();
    let contents = make_branch(&store, &String::from("main"), &commit).unwrap();
    assert_eq!(contents, format!("{commit}\n"));
}
