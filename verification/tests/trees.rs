use mingit::{
    cat_file, checkout, commit_tree, hash_object, ls_tree, read_tree, to_hex,
    write_tree_from_directory, ByteReader, CheckoutStep, FsNode, GitError, Store,
};

fn demo_snapshot() -> Vec<FsNode> {
    vec![
        FsNode::Dir {
            name: String::from("sub"),
            children: vec![FsNode::File {
                name: String::from("world.txt"),
                data: b"world\n".to_vec(),
            }],
        },
        FsNode::File {
            name: String::from("hello.txt"),
            data: b"hello\n".to_vec(),
        },
    ]
}

#[test]
fn read_tree_parses_entries() {
    let mut payload = Vec::new();
    payload.extend_from_slice(b"100644 a.txt\0");
    payload.extend_from_slice(&[0x11u8; 20]);
    payload.extend_from_slice(b"40000 sub\0");
    payload.extend_from_slice(&[0x22u8; 20]);
    let size = payload.len();
    let mut reader = ByteReader::new(payload);
    let nodes = read_tree(&mut reader, size).unwrap();
    assert_eq!(nodes.len(), 2);
    assert_eq!(nodes[0].mode, 100644);
    assert_eq!(nodes[0].name, "a.txt");
    assert_eq!(nodes[0].hash, "11".repeat(20));
    assert_eq!(nodes[1].mode, 40000);
    assert_eq!(nodes[1].name, "sub");
    assert_eq!(nodes[1].hash, "22".repeat(20));
}

#[test]
fn read_tree_rejects_entry_without_space() {
    let mut payload = Vec::new();
    payload.extend_from_slice(b"100644a.txt\0");
    payload.extend_from_slice(&[0u8; 20]);
    let size = payload.len();
    let mut reader = ByteReader::new(payload);
    assert_eq!(read_tree(&mut reader, size), Err(GitError::Decode));
}

#[test]
fn read_tree_rejects_truncated_hash() {
    let mut payload = Vec::new();
    payload.extend_from_slice(b"100644 a.txt\0");
    payload.extend_from_slice(&[0u8; 5]);
    let size = payload.len();
    let mut reader = ByteReader::new(payload);
    assert!(read_tree(&mut reader, size).is_err());
}

#[test]
fn write_tree_sorts_and_lists() {
    let mut store = Store::new();
    let tree_hash = to_hex(&write_tree_from_directory(&mut store, &demo_snapshot(), 8).unwrap());
    let mut sub_store = Store::new();
    let sub_children = vec![FsNode::File {
        name: String::from("world.txt"),
        data: b"world\n".to_vec(),
    }];
    let sub_hash = to_hex(&write_tree_from_directory(&mut sub_store, &sub_children, 8).unwrap());

    let listing = ls_tree(&store, &tree_hash, false).unwrap();
    let expected = format!(
        "100644 blob ce013625030ba8dba906f756967f9e9ca394464a    hello.txt\n040000 tree {sub_hash}    sub\n"
    );
    assert_eq!(listing, expected);

    let names = ls_tree(&store, &tree_hash, true).unwrap();
    assert_eq!(names, "hello.txt\nsub\n");
}

#[test]
fn empty_tree_identity() {
    let mut store = Store::new();
    let hash = to_hex(&write_tree_from_directory(&mut store, &Vec::new(), 1).unwrap());
    assert_eq!(hash, "4b825dc642cb6eb9a060e54bf8d69288fbee4904");
    assert_eq!(ls_tree(&store, &hash, false).unwrap(), "");
}

#[test]
fn write_tree_drops_git_directory() {
    let mut store = Store::new();
    let entries = vec![
        FsNode::Dir {
            name: String::from(".git"),
            children: vec![FsNode::File {
                name: String::from("HEAD"),
                data: b"ref: refs/heads/main\n".to_vec(),
            }],
        },
        FsNode::File {
            name: String::from("hello.txt"),
            data: b"hello\n".to_vec(),
        },
    ];
    let tree_hash = to_hex(&write_tree_from_directory(&mut store, &entries, 8).unwrap());
    let names = ls_tree(&store, &tree_hash, true).unwrap();
    assert_eq!(names, "hello.txt\n");
}

#[test]
fn ls_tree_of_blob_is_wrong_type() {
    let mut store = Store::new();
    let blob = hash_object(&mut store, &b"hello\n".to_vec(), true);
    assert_eq!(ls_tree(&store, &blob, true), Err(GitError::WrongType));
}

#[test]
fn tree_snapshot_roundtrip() {
    let mut store = Store::new();
    let tree_hash = to_hex(&write_tree_from_directory(&mut store, &demo_snapshot(), 8).unwrap());
    let commit = commit_tree(
        &mut store,
        &String::from("snapshot"),
        &tree_hash,
        &None,
        &String::from("someone"),
        &String::from("someone@example.com"),
        0,
        &String::from("+0000"),
    )
    .unwrap();
    let ref_contents = format!("{commit}\n");
    let (head, steps) = checkout(&store, &String::from("main"), &ref_contents).unwrap();
    assert_eq!(head, "ref: refs/heads/main\n");
    let mut dirs = Vec::new();
    let mut files = Vec::new();
    for step in steps {
        match step {
            CheckoutStep::Dir { path } => dirs.push(path),
            CheckoutStep::File { path, data } => files.push((path, data)),
        }
    }
    assert_eq!(dirs, vec![String::from("./sub")]);
    assert_eq!(
        files,
        vec![
            (String::from("./hello.txt"), b"hello\n".to_vec()),
            (String::from("./sub/world.txt"), b"world\n".to_vec()),
        ]
    );
}

#[test]
fn commit_shape_without_parent() {
    let mut store = Store::new();
    let tree_hash = to_hex(&write_tree_from_directory(&mut store, &demo_snapshot(), 8).unwrap());
    let commit = commit_tree(
        &mut store,
        &String::from("msg"),
        &tree_hash,
        &None,
        &String::from("123abc"),
        &String::from("123abc@example.com"),
        1700000000,
        &String::from("+0000"),
    )
    .unwrap();
    let body = cat_file(&store, &commit).unwrap();
    let expected = format!(
        "tree {tree_hash}\nauthor 123abc <123abc@example.com> 1700000000 +0000\ncommitter 123abc <123abc@example.com> 1700000000 +0000\n\nmsg\n"
    );
    assert_eq!(body, expected);
    assert!(!body.contains("parent "));
    assert!(body.ends_with("\nmsg\n"));
}

#[test]
fn commit_shape_with_parent() {
    let mut store = Store::new();
    let tree_hash = to_hex(&write_tree_from_directory(&mut store, &demo_snapshot(), 8).unwrap());
    let first = commit_tree(
        &mut store,
        &String::from("one"),
        &tree_hash,
        &None,
        &String::from("a"),
        &String::from("a@b"),
        1,
        &String::from("+0000"),
    )
    .unwrap();
    let second = commit_tree(
        &mut store,
        &String::from("two"),
        &tree_hash,
        &Some(first.clone()),
        &String::from("a"),
        &String::from("a@b"),
        2,
        &String::from("+0000"),
    )
    .unwrap();
    let body = cat_file(&store, &second).unwrap();
    assert!(body.starts_with(&format!("tree {tree_hash}\nparent {first}\n")));
}

#[test]
fn commit_tree_requires_tree() {
    let mut store = Store::new();
    let blob = hash_object(&mut store, &b"hello\n".to_vec(), true);
    let outcome = commit_tree(
        &mut store,
        &String::from("msg"),
        &blob,
        &None,
        &String::from("a"),
        &String::from("a@b"),
        0,
        &String::from("+0000"),
    );
    assert_eq!(outcome, Err(GitError::WrongType));
}
