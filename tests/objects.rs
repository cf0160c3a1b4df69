use mini_git::codec::{decode, encode, make_object, ObjectError, ObjectId, ObjectKind};
use mini_git::commit::{build_commit, Identity};
use mini_git::hex::{bytes_to_hex, hex_to_bytes};
use mini_git::listing::ls_tree;
use mini_git::store::{cat_file, hash_object, plan_write, WriteAction};
use mini_git::tree::{build_tree, empty_tree_id, serialize_entries, sort_entries, DirItem, EntryMode, TreeEntry};

fn hex_text(id: &ObjectId) -> String {
    String::from_utf8(id.to_hex()).unwrap()
}

fn file(name: &str, content: &[u8]) -> DirItem {
    DirItem::File { name: name.as_bytes().to_vec(), executable: false, content: content.to_vec() }
}

fn stored_bytes(id: &ObjectId, data: &[u8]) -> Vec<u8> {
    match plan_write(id, data, false) {
        WriteAction::Create { bytes, .. } => bytes,
        WriteAction::Skip => panic!("a missing object must be written"),
    }
}

#[test]
fn encode_frames_kind_length_and_payload() {
    assert_eq!(encode(ObjectKind::Blob, b"hello"), b"blob 5\0hello".to_vec());
    assert_eq!(encode(ObjectKind::Tree, b""), b"tree 0\0".to_vec());
    assert_eq!(encode(ObjectKind::Commit, &[0u8; 12]).len(), "commit 12\0".len() + 12);
}

#[test]
fn decode_round_trips_every_kind() {
    let payload = vec![0u8, 1, 2, 0, 255, b' '];
    for kind in [ObjectKind::Blob, ObjectKind::Tree, ObjectKind::Commit] {
        let raw = encode(kind, &payload);
        assert_eq!(decode(&raw), Ok((kind, payload.clone())));
    }
}

#[test]
fn decode_rejects_bad_framing() {
    assert_eq!(decode(b"blob 5hello"), Err(ObjectError::Format));
    assert_eq!(decode(b"blob 4\0hello"), Err(ObjectError::Format));
    assert_eq!(decode(b"blob 6\0hello"), Err(ObjectError::Format));
    assert_eq!(decode(b"note 5\0hello"), Err(ObjectError::Format));
    assert_eq!(decode(b"blob 05\0hello"), Err(ObjectError::Format));
    assert_eq!(decode(b""), Err(ObjectError::Format));
}

#[test]
fn empty_blob_has_the_well_known_address() {
    let o = hash_object(b"");
    assert_eq!(hex_text(&o.id), "e69de29bb2d1d6434b8b29ae775ad8c2e48c5391");
    assert_eq!(o.data, b"blob 0\0".to_vec());
}

#[test]
fn blob_address_of_known_content() {
    let o = hash_object(b"hello\n");
    assert_eq!(hex_text(&o.id), "ce013625030ba8dba906f756967f9e9ca394464a");
}

#[test]
fn digest_is_the_same_for_the_same_bytes() {
    let a = make_object(ObjectKind::Blob, b"same bytes");
    let b = make_object(ObjectKind::Blob, b"same bytes");
    let c = make_object(ObjectKind::Tree, b"same bytes");
    assert!(a.id.same(&b.id));
    assert!(!a.id.same(&c.id));
    assert_eq!(a.id.to_hex().len(), 40);
}

#[test]
fn empty_tree_has_no_payload_and_the_well_known_address() {
    let built = build_tree(&vec![]);
    assert!(built.entries.is_empty());
    assert_eq!(built.tree.data, b"tree 0\0".to_vec());
    assert_eq!(hex_text(&built.tree.id), "4b825dc642cb6eb9a060e54bf8d69288fbee4904");
    assert_eq!(hex_text(&empty_tree_id()), "4b825dc642cb6eb9a060e54bf8d69288fbee4904");
}

#[test]
fn tree_order_does_not_depend_on_listing_order() {
    let one = build_tree(&vec![file("b.txt", b"bee\n"), file("a.txt", b"ay\n")]);
    let two = build_tree(&vec![file("a.txt", b"ay\n"), file("b.txt", b"bee\n")]);
    assert!(one.tree.id.same(&two.tree.id));
    assert_eq!(one.tree.data, two.tree.data);
    let names: Vec<Vec<u8>> = one.entries.iter().map(|e| e.name.clone()).collect();
    assert_eq!(names, vec![b"a.txt".to_vec(), b"b.txt".to_vec()]);
}

#[test]
fn empty_subdirectory_is_pruned() {
    let items = vec![
        file("readme", b"text"),
        DirItem::Subdir { name: b"empty".to_vec(), tree: empty_tree_id() },
    ];
    let built = build_tree(&items);
    assert_eq!(built.entries.len(), 1);
    assert_eq!(built.entries[0].name, b"readme".to_vec());
    let alone = build_tree(&vec![file("readme", b"text")]);
    assert!(built.tree.id.same(&alone.tree.id));
}

#[test]
fn nonempty_subdirectory_gets_a_directory_entry() {
    let inner = build_tree(&vec![file("x", b"1")]);
    let items = vec![DirItem::Subdir { name: b"sub".to_vec(), tree: inner.tree.id }, file("a", b"2")];
    let built = build_tree(&items);
    assert_eq!(built.entries.len(), 2);
    assert_eq!(built.entries[0].name, b"a".to_vec());
    assert!(built.entries[1].mode == EntryMode::Directory);
}

#[test]
fn executable_file_gets_mode_100755() {
    let items = vec![DirItem::File { name: b"run".to_vec(), executable: true, content: b"#!".to_vec() }];
    let built = build_tree(&items);
    let blob = hash_object(b"#!");
    let mut expected = b"100755 run\0".to_vec();
    expected.extend_from_slice(blob.id.as_bytes());
    assert_eq!(serialize_entries(&built.entries), expected);
    let mut framed = format!("tree {}\0", expected.len()).into_bytes();
    framed.extend_from_slice(&expected);
    assert_eq!(built.tree.data, framed);
}

#[test]
fn sort_entries_orders_bytewise() {
    let id = || hash_object(b"").id;
    let es = vec![
        TreeEntry { mode: EntryMode::Regular, name: b"b".to_vec(), id: id() },
        TreeEntry { mode: EntryMode::Regular, name: b"B".to_vec(), id: id() },
        TreeEntry { mode: EntryMode::Regular, name: b"ab".to_vec(), id: id() },
        TreeEntry { mode: EntryMode::Regular, name: b"a".to_vec(), id: id() },
    ];
    let sorted = sort_entries(es);
    let names: Vec<Vec<u8>> = sorted.iter().map(|e| e.name.clone()).collect();
    assert_eq!(names, vec![b"B".to_vec(), b"a".to_vec(), b"ab".to_vec(), b"b".to_vec()]);
}

#[test]
fn ls_tree_lists_three_names_in_stored_order() {
    let built = build_tree(&vec![file("c", b"3"), file("a b", b"1"), file("b", b"2")]);
    let (kind, payload) = decode(&built.tree.data).unwrap();
    assert_eq!(kind, ObjectKind::Tree);
    let names = ls_tree(&payload).unwrap();
    assert_eq!(names, vec![b"a b".to_vec(), b"b".to_vec(), b"c".to_vec()]);
}

#[test]
fn ls_tree_rejects_short_records() {
    assert_eq!(ls_tree(b"100644 a\0abc"), Err(ObjectError::Format));
    assert_eq!(ls_tree(b"100644a\0aaaaaaaaaaaaaaaaaaaa"), Err(ObjectError::Format));
    assert_eq!(ls_tree(b"100644 a"), Err(ObjectError::Format));
    assert_eq!(ls_tree(b""), Ok(vec![]));
}

#[test]
fn cat_file_returns_content_with_null_bytes() {
    let content = vec![0u8, b'a', 0, 0, b'\n', 200];
    let o = hash_object(&content);
    let stored = stored_bytes(&o.id, &o.data);
    assert_ne!(stored, o.data);
    assert_eq!(cat_file(&stored), Ok(content));
}

#[test]
fn cat_file_errors() {
    assert_eq!(cat_file(b"not zlib at all"), Err(ObjectError::Io));
    let id = hash_object(b"x").id;
    let stored = stored_bytes(&id, b"no header");
    assert_eq!(cat_file(&stored), Err(ObjectError::Format));
}

#[test]
fn write_plan_splits_the_address_and_skips_existing_objects() {
    let o = hash_object(b"");
    match plan_write(&o.id, &o.data, false) {
        WriteAction::Create { dir, file, .. } => {
            assert_eq!(dir, b"e6".to_vec());
            assert_eq!(file, b"9de29bb2d1d6434b8b29ae775ad8c2e48c5391".to_vec());
        }
        WriteAction::Skip => panic!("expected a write"),
    }
    assert!(matches!(plan_write(&o.id, &o.data, true), WriteAction::Skip));
    assert!(matches!(plan_write(&o.id, &o.data, true), WriteAction::Skip));
}

#[test]
fn commit_text_with_and_without_parent() {
    let tree = build_tree(&vec![file("a", b"1")]).tree.id;
    let who = Identity {
        name: b"Ann".to_vec(),
        email: b"ann@example.com".to_vec(),
        timezone: b"+0100".to_vec(),
    };
    let first = build_commit(&tree, None, &who, 1700000000, b"first");
    let body = format!(
        "tree {}\nauthor Ann <ann@example.com> 1700000000 +0100\ncommitter Ann <ann@example.com> 1700000000 +0100\n\nfirst\n",
        hex_text(&tree)
    );
    let mut expected = format!("commit {}\0", body.len()).into_bytes();
    expected.extend_from_slice(body.as_bytes());
    assert_eq!(first.data, expected);
    let second = build_commit(&tree, Some(&first.id), &who, 5, b"second");
    let body2 = format!(
        "tree {}\nparent {}\nauthor Ann <ann@example.com> 5 +0100\ncommitter Ann <ann@example.com> 5 +0100\n\nsecond\n",
        hex_text(&tree),
        hex_text(&first.id)
    );
    assert_eq!(decode(&second.data), Ok((ObjectKind::Commit, body2.into_bytes())));
}

#[test]
fn hex_conversions() {
    assert_eq!(hex_to_bytes("00ff10Ab"), vec![0u8, 255, 16, 171]);
    assert_eq!(hex_to_bytes(""), Vec::<u8>::new());
    assert_eq!(bytes_to_hex(&[0u8, 255, 16, 171]), b"00ff10ab".to_vec());
}

#[test]
fn parse_address_text() {
    let id = ObjectId::parse("e69de29bb2d1d6434b8b29ae775ad8c2e48c5391").unwrap();
    assert!(id.same(&hash_object(b"").id));
    assert!(ObjectId::parse("e69de29bb2d1d6434b8b29ae775ad8c2e48c539").is_none());
    assert!(ObjectId::parse("E69DE29BB2D1D6434B8B29AE775AD8C2E48C5391").is_none());
    assert!(ObjectId::parse("g69de29bb2d1d6434b8b29ae775ad8c2e48c5391").is_none());
}
