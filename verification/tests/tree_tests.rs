use manifest::{
    diff, Cursor, DiffEntry, DiffType, Element, Entry, FileMetadata, FileType, Flag, NodeId,
    PathComponentBuf, RepoPathBuf, Step, Store, TestStore, Tree,
};

fn repo_path_buf(s: &str) -> RepoPathBuf {
    let mut p = RepoPathBuf::new();
    if !s.is_empty() {
        for c in s.split('/') {
            p.push(PathComponentBuf::from_bytes(c.as_bytes().to_vec()).unwrap());
        }
    }
    p
}

fn path_component_buf(s: &str) -> PathComponentBuf {
    PathComponentBuf::from_bytes(s.as_bytes().to_vec()).unwrap()
}

fn meta(node: u8) -> FileMetadata {
    FileMetadata::regular(NodeId::from_u8(node))
}

fn store_element(name: &str, node: u8, flag: Flag) -> Element {
    Element::new(path_component_buf(name), NodeId::from_u8(node), flag)
}

#[test]
fn test_insert() {
    let mut tree = Tree::ephemeral(TestStore::new());
    tree.insert(repo_path_buf("foo/bar"), meta(10)).unwrap();
    assert_eq!(tree.get(&repo_path_buf("foo/bar")).unwrap(), Some(meta(10)));
    assert_eq!(tree.get(&repo_path_buf("baz")).unwrap(), None);

    tree.insert(repo_path_buf("baz"), meta(20)).unwrap();
    assert_eq!(tree.get(&repo_path_buf("foo/bar")).unwrap(), Some(meta(10)));
    assert_eq!(tree.get(&repo_path_buf("baz")).unwrap(), Some(meta(20)));

    tree.insert(repo_path_buf("foo/bat"), meta(30)).unwrap();
    assert_eq!(tree.get(&repo_path_buf("foo/bat")).unwrap(), Some(meta(30)));
    assert_eq!(tree.get(&repo_path_buf("foo/bar")).unwrap(), Some(meta(10)));
    assert_eq!(tree.get(&repo_path_buf("baz")).unwrap(), Some(meta(20)));
}

#[test]
fn test_durable_link() {
    let mut store = TestStore::new();
    let root_entry = Entry::from_elements(vec![
        store_element("foo", 10, Flag::Directory),
        store_element("baz", 20, Flag::File(FileType::Regular)),
    ])
    .unwrap();
    store
        .insert(RepoPathBuf::new(), NodeId::from_u8(1), root_entry)
        .unwrap();
    let foo_entry = Entry::from_elements(vec![store_element(
        "bar",
        11,
        Flag::File(FileType::Regular),
    )])
    .unwrap();
    store
        .insert(repo_path_buf("foo"), NodeId::from_u8(10), foo_entry)
        .unwrap();
    let mut tree = Tree::durable(store, NodeId::from_u8(1));

    assert_eq!(tree.get(&repo_path_buf("foo/bar")).unwrap(), Some(meta(11)));
    assert_eq!(tree.get(&repo_path_buf("baz")).unwrap(), Some(meta(20)));

    tree.insert(repo_path_buf("foo/bat"), meta(12)).unwrap();
    assert_eq!(tree.get(&repo_path_buf("foo/bat")).unwrap(), Some(meta(12)));
    assert_eq!(tree.get(&repo_path_buf("foo/bar")).unwrap(), Some(meta(11)));
    assert_eq!(tree.get(&repo_path_buf("baz")).unwrap(), Some(meta(20)));
}

#[test]
fn test_insert_into_directory() {
    let mut tree = Tree::ephemeral(TestStore::new());
    tree.insert(repo_path_buf("foo/bar/baz"), meta(10)).unwrap();
    assert!(tree.insert(repo_path_buf("foo/bar"), meta(20)).is_err());
    assert!(tree.insert(repo_path_buf("foo"), meta(30)).is_err());
}

#[test]
fn test_insert_with_file_parent() {
    let mut tree = Tree::ephemeral(TestStore::new());
    tree.insert(repo_path_buf("foo"), meta(10)).unwrap();
    assert!(tree.insert(repo_path_buf("foo/bar"), meta(20)).is_err());
    assert!(tree.insert(repo_path_buf("foo/bar/baz"), meta(30)).is_err());
}

#[test]
fn test_get_from_directory() {
    let mut tree = Tree::ephemeral(TestStore::new());
    tree.insert(repo_path_buf("foo/bar/baz"), meta(10)).unwrap();
    assert!(tree.get(&repo_path_buf("foo/bar")).is_err());
    assert!(tree.get(&repo_path_buf("foo")).is_err());
}

#[test]
fn test_get_with_file_parent() {
    let mut tree = Tree::ephemeral(TestStore::new());
    tree.insert(repo_path_buf("foo"), meta(10)).unwrap();
    assert!(tree.get(&repo_path_buf("foo/bar")).is_err());
    assert!(tree.get(&repo_path_buf("foo/bar/baz")).is_err());
}

#[test]
fn test_remove_from_ephemeral() {
    let mut tree = Tree::ephemeral(TestStore::new());
    tree.insert(repo_path_buf("a1/b1/c1/d1"), meta(10)).unwrap();
    tree.insert(repo_path_buf("a1/b2"), meta(20)).unwrap();
    tree.insert(repo_path_buf("a2/b2/c2"), meta(30)).unwrap();

    assert!(tree.remove(&repo_path_buf("a1")).is_err());
    assert!(tree.remove(&repo_path_buf("a1/b1")).is_err());
    assert!(tree.remove(&repo_path_buf("a1/b1/c1/d1/e1")).is_err());
    tree.remove(&repo_path_buf("a1/b1/c1/d1")).unwrap();
    tree.remove(&repo_path_buf("a3")).unwrap(); // does nothing
    tree.remove(&repo_path_buf("a1/b3")).unwrap(); // does nothing
    tree.remove(&repo_path_buf("a1/b1/c1/d2")).unwrap(); // does nothing
    tree.remove(&repo_path_buf("a1/b1/c1/d1/e1")).unwrap(); // does nothing
    assert!(tree.remove(&RepoPathBuf::new()).is_err());
    assert_eq!(tree.get(&repo_path_buf("a1/b1/c1/d1")).unwrap(), None);
    assert_eq!(tree.get(&repo_path_buf("a1/b1/c1")).unwrap(), None);
    assert_eq!(tree.get(&repo_path_buf("a1/b2")).unwrap(), Some(meta(20)));
    tree.remove(&repo_path_buf("a1/b2")).unwrap();
    assert!(tree.get_link(&repo_path_buf("a1")).unwrap().is_none());

    assert_eq!(tree.get(&repo_path_buf("a2/b2/c2")).unwrap(), Some(meta(30)));
    tree.remove(&repo_path_buf("a2/b2/c2")).unwrap();
    assert_eq!(tree.get(&repo_path_buf("a2")).unwrap(), None);

    assert!(tree.get_link(&RepoPathBuf::new()).unwrap().is_some());
}

#[test]
fn test_remove_from_durable() {
    let mut store = TestStore::new();
    let root_entry = Entry::from_elements(vec![
        store_element("a1", 10, Flag::Directory),
        store_element("a2", 20, Flag::File(FileType::Regular)),
    ])
    .unwrap();
    store
        .insert(RepoPathBuf::new(), NodeId::from_u8(1), root_entry)
        .unwrap();
    let a1_entry = Entry::from_elements(vec![
        store_element("b1", 11, Flag::File(FileType::Regular)),
        store_element("b2", 12, Flag::File(FileType::Regular)),
    ])
    .unwrap();
    store
        .insert(repo_path_buf("a1"), NodeId::from_u8(10), a1_entry)
        .unwrap();
    let mut tree = Tree::durable(store, NodeId::from_u8(1));

    assert!(tree.remove(&repo_path_buf("a1")).is_err());
    tree.remove(&repo_path_buf("a1/b1")).unwrap();
    assert_eq!(tree.get(&repo_path_buf("a1/b1")).unwrap(), None);
    assert_eq!(tree.get(&repo_path_buf("a1/b2")).unwrap(), Some(meta(12)));
    tree.remove(&repo_path_buf("a1/b2")).unwrap();
    assert_eq!(tree.get(&repo_path_buf("a1/b2")).unwrap(), None);
    assert_eq!(tree.get(&repo_path_buf("a1")).unwrap(), None);
    assert!(tree.get_link(&repo_path_buf("a1")).unwrap().is_none());

    assert_eq!(tree.get(&repo_path_buf("a2")).unwrap(), Some(meta(20)));
    tree.remove(&repo_path_buf("a2")).unwrap();
    assert_eq!(tree.get(&repo_path_buf("a2")).unwrap(), None);

    assert!(tree.get_link(&RepoPathBuf::new()).unwrap().is_some());
}

#[test]
fn test_flush() {
    let mut tree = Tree::ephemeral(TestStore::new());
    tree.insert(repo_path_buf("a1/b1/c1/d1"), meta(10)).unwrap();
    tree.insert(repo_path_buf("a1/b2"), meta(20)).unwrap();
    tree.insert(repo_path_buf("a2/b2/c2"), meta(30)).unwrap();

    let node = tree.flush().unwrap();
    let store = tree.into_store();

    let tree = Tree::durable(store, node);
    assert_eq!(tree.get(&repo_path_buf("a1/b1/c1/d1")).unwrap(), Some(meta(10)));
    assert_eq!(tree.get(&repo_path_buf("a1/b2")).unwrap(), Some(meta(20)));
    assert_eq!(tree.get(&repo_path_buf("a2/b2/c2")).unwrap(), Some(meta(30)));
    assert_eq!(tree.get(&repo_path_buf("a2/b1")).unwrap(), None);
}

#[test]
fn test_files_empty() {
    let tree = Tree::ephemeral(TestStore::new());
    assert!(tree.files().unwrap().is_empty());
}

#[test]
fn test_files_ephemeral() {
    let mut tree = Tree::ephemeral(TestStore::new());
    tree.insert(repo_path_buf("a1/b1/c1/d1"), meta(10)).unwrap();
    tree.insert(repo_path_buf("a1/b2"), meta(20)).unwrap();
    tree.insert(repo_path_buf("a2/b2/c2"), meta(30)).unwrap();

    let files = tree.files().unwrap();
    assert_eq!(
        files,
        vec![
            (repo_path_buf("a1/b1/c1/d1"), meta(10)),
            (repo_path_buf("a1/b2"), meta(20)),
            (repo_path_buf("a2/b2/c2"), meta(30)),
        ]
    );
}

#[test]
fn test_files_durable() {
    let mut tree = Tree::ephemeral(TestStore::new());
    tree.insert(repo_path_buf("a1/b1/c1/d1"), meta(10)).unwrap();
    tree.insert(repo_path_buf("a1/b2"), meta(20)).unwrap();
    tree.insert(repo_path_buf("a2/b2/c2"), meta(30)).unwrap();
    let node = tree.flush().unwrap();
    let store = tree.into_store();
    let tree = Tree::durable(store, node);

    let files = tree.files().unwrap();
    assert_eq!(
        files,
        vec![
            (repo_path_buf("a1/b1/c1/d1"), meta(10)),
            (repo_path_buf("a1/b2"), meta(20)),
            (repo_path_buf("a2/b2/c2"), meta(30)),
        ]
    );
}

#[test]
fn test_files_finish_on_error_when_collecting_to_vec() {
    let tree = Tree::durable(TestStore::new(), NodeId::from_u8(1));
    assert!(tree.files().is_err());
    assert!(tree.files().is_err());
}

#[test]
fn test_diff_generic() {
    let mut left = Tree::ephemeral(TestStore::new());
    left.insert(repo_path_buf("a1/b1/c1/d1"), meta(10)).unwrap();
    left.insert(repo_path_buf("a1/b2"), meta(20)).unwrap();
    left.insert(repo_path_buf("a3/b1"), meta(40)).unwrap();

    let mut right = Tree::ephemeral(TestStore::new());
    right.insert(repo_path_buf("a1/b2"), meta(40)).unwrap();
    right.insert(repo_path_buf("a2/b2/c2"), meta(30)).unwrap();
    right.insert(repo_path_buf("a3/b1"), meta(40)).unwrap();

    assert_eq!(
        diff(&left, &right).unwrap(),
        vec![
            DiffEntry::new(repo_path_buf("a1/b1/c1/d1"), DiffType::LeftOnly(meta(10))),
            DiffEntry::new(repo_path_buf("a1/b2"), DiffType::Changed(meta(20), meta(40))),
            DiffEntry::new(repo_path_buf("a2/b2/c2"), DiffType::RightOnly(meta(30))),
        ]
    );

    left.flush().unwrap();
    right.flush().unwrap();

    assert_eq!(
        diff(&left, &right).unwrap(),
        vec![
            DiffEntry::new(repo_path_buf("a1/b1/c1/d1"), DiffType::LeftOnly(meta(10))),
            DiffEntry::new(repo_path_buf("a1/b2"), DiffType::Changed(meta(20), meta(40))),
            DiffEntry::new(repo_path_buf("a2/b2/c2"), DiffType::RightOnly(meta(30))),
        ]
    );
    right.insert(repo_path_buf("a1/b1/c1/d1"), meta(10)).unwrap();
    left.insert(repo_path_buf("a1/b2"), meta(40)).unwrap();
    left.insert(repo_path_buf("a2/b2/c2"), meta(30)).unwrap();

    assert!(diff(&left, &right).unwrap().is_empty());
}

#[test]
fn test_diff_does_not_evaluate_durable_on_node_equality() {
    // Leaving the store empty intentionaly so that we get a panic if anything is read from it.
    let left = Tree::durable(TestStore::new(), NodeId::from_u8(10));
    let right = Tree::durable(TestStore::new(), NodeId::from_u8(10));
    assert!(diff(&left, &right).unwrap().is_empty());

    let right = Tree::durable(TestStore::new(), NodeId::from_u8(20));
    assert!(diff(&left, &right).is_err());
}

#[test]
fn test_diff_one_file_one_directory() {
    let mut left = Tree::ephemeral(TestStore::new());
    left.insert(repo_path_buf("a1/b1"), meta(10)).unwrap();
    left.insert(repo_path_buf("a2"), meta(20)).unwrap();

    let mut right = Tree::ephemeral(TestStore::new());
    right.insert(repo_path_buf("a1"), meta(30)).unwrap();
    right.insert(repo_path_buf("a2/b2"), meta(40)).unwrap();

    assert_eq!(
        diff(&left, &right).unwrap(),
        vec![
            DiffEntry::new(repo_path_buf("a1"), DiffType::RightOnly(meta(30))),
            DiffEntry::new(repo_path_buf("a1/b1"), DiffType::LeftOnly(meta(10))),
            DiffEntry::new(repo_path_buf("a2"), DiffType::LeftOnly(meta(20))),
            DiffEntry::new(repo_path_buf("a2/b2"), DiffType::RightOnly(meta(40))),
        ]
    );
}

#[test]
fn test_diff_left_empty() {
    let mut left = Tree::ephemeral(TestStore::new());

    let mut right = Tree::ephemeral(TestStore::new());
    right.insert(repo_path_buf("a1/b1/c1/d1"), meta(10)).unwrap();
    right.insert(repo_path_buf("a1/b2"), meta(20)).unwrap();
    right.insert(repo_path_buf("a2/b2/c2"), meta(30)).unwrap();

    assert_eq!(
        diff(&left, &right).unwrap(),
        vec![
            DiffEntry::new(repo_path_buf("a1/b1/c1/d1"), DiffType::RightOnly(meta(10))),
            DiffEntry::new(repo_path_buf("a1/b2"), DiffType::RightOnly(meta(20))),
            DiffEntry::new(repo_path_buf("a2/b2/c2"), DiffType::RightOnly(meta(30))),
        ]
    );

    left.flush().unwrap();
    right.flush().unwrap();

    assert_eq!(
        diff(&left, &right).unwrap(),
        vec![
            DiffEntry::new(repo_path_buf("a1/b1/c1/d1"), DiffType::RightOnly(meta(10))),
            DiffEntry::new(repo_path_buf("a1/b2"), DiffType::RightOnly(meta(20))),
            DiffEntry::new(repo_path_buf("a2/b2/c2"), DiffType::RightOnly(meta(30))),
        ]
    );
}

#[test]
fn test_flush_idempotent() {
    let mut tree = Tree::ephemeral(TestStore::new());
    tree.insert(repo_path_buf("a1/b1"), meta(10)).unwrap();
    tree.insert(repo_path_buf("a2"), meta(20)).unwrap();
    let n1 = tree.flush().unwrap();
    let n2 = tree.flush().unwrap();
    assert_eq!(n1, n2);
}

#[test]
fn test_flush_deterministic() {
    // same (path, metadata) set built in different orders
    let mut a = Tree::ephemeral(TestStore::new());
    a.insert(repo_path_buf("x/y"), meta(1)).unwrap();
    a.insert(repo_path_buf("x/z"), meta(2)).unwrap();
    a.insert(repo_path_buf("w"), meta(3)).unwrap();

    let mut b = Tree::ephemeral(TestStore::new());
    b.insert(repo_path_buf("w"), meta(3)).unwrap();
    b.insert(repo_path_buf("x/z"), meta(2)).unwrap();
    b.insert(repo_path_buf("x/y"), meta(1)).unwrap();

    assert_eq!(a.flush().unwrap(), b.flush().unwrap());

    // and a different content yields a different root id
    let mut c = Tree::ephemeral(TestStore::new());
    c.insert(repo_path_buf("x/y"), meta(1)).unwrap();
    c.insert(repo_path_buf("x/z"), meta(2)).unwrap();
    c.insert(repo_path_buf("w"), meta(4)).unwrap();
    let mut a2 = Tree::ephemeral(TestStore::new());
    a2.insert(repo_path_buf("x/y"), meta(1)).unwrap();
    a2.insert(repo_path_buf("x/z"), meta(2)).unwrap();
    a2.insert(repo_path_buf("w"), meta(3)).unwrap();
    assert_ne!(a2.flush().unwrap(), c.flush().unwrap());
}

#[test]
fn test_diff_symmetry() {
    let mut left = Tree::ephemeral(TestStore::new());
    left.insert(repo_path_buf("a1/b1"), meta(10)).unwrap();
    left.insert(repo_path_buf("a2"), meta(20)).unwrap();
    left.insert(repo_path_buf("c"), meta(5)).unwrap();

    let mut right = Tree::ephemeral(TestStore::new());
    right.insert(repo_path_buf("a1/b1"), meta(11)).unwrap();
    right.insert(repo_path_buf("b"), meta(40)).unwrap();
    right.insert(repo_path_buf("c"), meta(5)).unwrap();

    let forward = diff(&left, &right).unwrap();
    let backward = diff(&right, &left).unwrap();
    assert_eq!(forward.len(), backward.len());
    for (f, b) in forward.iter().zip(backward.iter()) {
        assert_eq!(f.path, b.path);
        let flipped = match f.diff_type {
            DiffType::LeftOnly(m) => DiffType::RightOnly(m),
            DiffType::RightOnly(m) => DiffType::LeftOnly(m),
            DiffType::Changed(x, y) => DiffType::Changed(y, x),
        };
        assert_eq!(b.diff_type, flipped);
    }
}

#[test]
fn test_entry_serialize_format() {
    let entry = Entry::from_elements(vec![
        store_element("a", 1, Flag::File(FileType::Regular)),
        store_element("b", 2, Flag::Directory),
    ])
    .unwrap();
    let bytes = entry.serialize();
    let mut expected: Vec<u8> = Vec::new();
    expected.extend_from_slice(b"a\x00");
    expected.extend_from_slice("01".repeat(20).as_bytes());
    expected.extend_from_slice(b"r\n");
    expected.extend_from_slice(b"b\x00");
    expected.extend_from_slice("02".repeat(20).as_bytes());
    expected.extend_from_slice(b"t\n");
    assert_eq!(bytes, expected);
}

#[test]
fn test_entry_flag_characters() {
    let entry = Entry::from_elements(vec![
        store_element("e", 3, Flag::File(FileType::Executable)),
        store_element("s", 4, Flag::File(FileType::Symlink)),
    ])
    .unwrap();
    let bytes = entry.serialize();
    let mut expected: Vec<u8> = Vec::new();
    expected.extend_from_slice(b"e\x00");
    expected.extend_from_slice("03".repeat(20).as_bytes());
    expected.extend_from_slice(b"x\n");
    expected.extend_from_slice(b"s\x00");
    expected.extend_from_slice("04".repeat(20).as_bytes());
    expected.extend_from_slice(b"l\n");
    assert_eq!(bytes, expected);
}

#[test]
fn test_entry_duplicate_names() {
    let r = Entry::from_elements(vec![
        store_element("a", 1, Flag::File(FileType::Regular)),
        store_element("a", 2, Flag::File(FileType::Regular)),
    ]);
    assert!(r.is_err());
}

#[test]
fn test_invalid_path_component() {
    assert!(PathComponentBuf::from_bytes(Vec::new()).is_err());
    assert!(PathComponentBuf::from_bytes(b"a/b".to_vec()).is_err());
    assert!(PathComponentBuf::from_bytes(b"a\x00b".to_vec()).is_err());
    assert!(PathComponentBuf::from_bytes(b"plain".to_vec()).is_ok());
}

#[test]
fn test_insert_root_is_refused() {
    let mut tree = Tree::ephemeral(TestStore::new());
    assert!(tree.insert(RepoPathBuf::new(), meta(1)).is_err());
}

#[test]
fn test_get_root_is_directory() {
    let tree = Tree::ephemeral(TestStore::new());
    assert!(tree.get(&RepoPathBuf::new()).is_err());
}

#[test]
fn test_store_conflict() {
    let mut store = TestStore::new();
    let e1 = Entry::from_elements(vec![store_element("a", 1, Flag::File(FileType::Regular))])
        .unwrap();
    let e1_again = Entry::from_elements(vec![store_element(
        "a",
        1,
        Flag::File(FileType::Regular),
    )])
    .unwrap();
    let e2 = Entry::from_elements(vec![store_element("b", 2, Flag::File(FileType::Regular))])
        .unwrap();
    store
        .insert(repo_path_buf("p"), NodeId::from_u8(7), e1)
        .unwrap();
    // identical re-insertion is a no-op
    store
        .insert(repo_path_buf("p"), NodeId::from_u8(7), e1_again)
        .unwrap();
    // a different entry under the same key is a conflict
    assert!(store.insert(repo_path_buf("p"), NodeId::from_u8(7), e2).is_err());
}

#[test]
fn test_overwrite_keeps_single_file() {
    let mut tree = Tree::ephemeral(TestStore::new());
    tree.insert(repo_path_buf("dir/file"), meta(1)).unwrap();
    tree.insert(repo_path_buf("dir/file"), meta(2)).unwrap();
    assert_eq!(tree.get(&repo_path_buf("dir/file")).unwrap(), Some(meta(2)));
    assert_eq!(tree.files().unwrap().len(), 1);
}

#[test]
fn test_cursor_skip_on_root() {
    let tree = Tree::ephemeral(TestStore::new());
    let mut cursor = tree.root_cursor();
    cursor.skip_subtree();
    match cursor.step(tree.store()) {
        Step::Success => panic!("should have reached the end of the tree"),
        Step::End => (), // success
        Step::Failed(error) => panic!("{:?}", error),
    }
}

#[test]
fn test_cursor_skip() {
    fn step(cursor: &mut Cursor, store: &TestStore) {
        match cursor.step(store) {
            Step::Success => (),
            Step::End => panic!("reached the end too soon"),
            Step::Failed(error) => panic!("{:?}", error),
        }
    }
    let mut tree = Tree::ephemeral(TestStore::new());
    tree.insert(repo_path_buf("a1"), meta(10)).unwrap();
    tree.insert(repo_path_buf("a2/b2"), meta(20)).unwrap();
    tree.insert(repo_path_buf("a3"), meta(30)).unwrap();

    let mut cursor = tree.root_cursor();
    step(&mut cursor, tree.store());
    assert_eq!(cursor.path(), &RepoPathBuf::new());
    step(&mut cursor, tree.store());
    assert_eq!(cursor.path(), &repo_path_buf("a1"));
    // Skip leaf
    cursor.skip_subtree();
    step(&mut cursor, tree.store());
    assert_eq!(cursor.path(), &repo_path_buf("a2"));
    // Skip directory
    cursor.skip_subtree();
    step(&mut cursor, tree.store());
    assert_eq!(cursor.path(), &repo_path_buf("a3"));
    // Skip on the element before State::End
    cursor.skip_subtree();
    match cursor.step(tree.store()) {
        Step::Success => panic!("should have reached the end of the tree"),
        Step::End => (), // success
        Step::Failed(error) => panic!("{:?}", error),
    }
}
