use rustygit::commit::{encode_commit, format_commit, read_commit_parent, read_commit_tree, CommitObject, User};
use rustygit::hex::{bytes_to_hex, hex_to_bytes, is_hash_hex};
use rustygit::layout::{ensure_repo_exists, format_head, parse_head};
use rustygit::text::trim;
use rustygit::object::{decimal_bytes, format_object, format_tree, parse_blob, parse_tree, signed_decimal_bytes, split_object, EntryMode, ObjectType, TreeEntry};
use rustygit::repo::Head;
use rustygit::store::ObjectStore;
use rustygit::error::VcsError;

fn hex_text(b: &[u8]) -> String {
    String::from_utf8(bytes_to_hex(b)).unwrap()
}

#[test]
fn blob_hash_matches_git() {
    let mut store = ObjectStore::new();
    let blob = format_object(ObjectType::Blob, b"hello");
    assert_eq!(blob, b"blob 5\0hello".to_vec());
    let h = store.write_object(&blob);
    assert_eq!(hex_text(&h), "b6fc4c620b67d95f953a5c1c1230aaab5db5a1b0");
}

#[test]
fn same_content_produces_same_hash() {
    let mut store = ObjectStore::new();
    let blob = format_object(ObjectType::Blob, b"hello");
    let h1 = store.write_object(&blob);
    let h2 = store.write_object(&blob);
    assert_eq!(h1, h2);
    assert_eq!(store.len(), 1);
}

#[test]
fn object_is_written_to_store() {
    let mut store = ObjectStore::new();
    let blob = format_object(ObjectType::Blob, b"content");
    let h = store.write_object(&blob);
    assert!(store.contains(&h));
    assert_eq!(store.get(&h).unwrap(), blob);
    assert_eq!(store.get(&[0u8; 20]), Err(VcsError::ObjectNotFound));
}

#[test]
fn hex_round_trip() {
    let bytes: Vec<u8> = (0u8..20).map(|i| i * 13).collect();
    let hex = bytes_to_hex(&bytes);
    assert_eq!(String::from_utf8(hex.clone()).unwrap(), "000d1a2734414e5b6875828f9ca9b6c3d0ddeaf7");
    assert!(is_hash_hex(&hex));
    assert_eq!(hex_to_bytes(&hex).to_vec(), bytes);
    assert_eq!(hex_to_bytes(b"000D1A2734414E5B6875828F9CA9B6C3D0DDEAF7").to_vec(), bytes);
    assert!(!is_hash_hex(b"xyz"));
    assert!(!is_hash_hex(b"000d1a2734414e5b6875828f9ca9b6c3d0ddeafg"));
}

#[test]
fn decimal_text() {
    assert_eq!(decimal_bytes(0), b"0".to_vec());
    assert_eq!(decimal_bytes(1234567), b"1234567".to_vec());
    assert_eq!(signed_decimal_bytes(-42), b"-42".to_vec());
    assert_eq!(signed_decimal_bytes(i64::MIN), b"-9223372036854775808".to_vec());
}

#[test]
fn tree_round_trip() {
    let entries = vec![
        TreeEntry { mode: EntryMode::File, name: b"a b.txt".to_vec(), hash: vec![7u8; 20] },
        TreeEntry { mode: EntryMode::Directory, name: b"src".to_vec(), hash: vec![0u8; 20] },
    ];
    let bytes = format_tree(&entries);
    let mut expected = b"tree 65\0100644 a b.txt\0".to_vec();
    expected.extend_from_slice(&[7u8; 20]);
    expected.extend_from_slice(b"40000 src\0");
    expected.extend_from_slice(&[0u8; 20]);
    assert_eq!(bytes, expected);
    let back = parse_tree(&bytes).unwrap();
    assert_eq!(back.len(), 2);
    assert_eq!(back[0].name, b"a b.txt".to_vec());
    assert_eq!(back[0].mode, EntryMode::File);
    assert_eq!(back[1].mode, EntryMode::Directory);
    assert_eq!(back[1].hash, vec![0u8; 20]);
}

#[test]
fn corrupt_objects_are_rejected() {
    assert_eq!(parse_tree(b"tree 3 no nul").unwrap_err(), VcsError::CorruptObject);
    assert_eq!(parse_tree(b"blob 0\0").unwrap_err(), VcsError::CorruptObject);
    assert_eq!(parse_tree(b"tree 9\0123 x\0abc").unwrap_err(), VcsError::CorruptObject);
    let mut short = b"tree 30\0100644 x\0".to_vec();
    short.extend_from_slice(&[1u8; 19]);
    assert_eq!(parse_tree(&short).unwrap_err(), VcsError::CorruptObject);
    assert_eq!(parse_blob(b"commit 1\0x").unwrap_err(), VcsError::CorruptObject);
    assert_eq!(parse_blob(b"blob 2\0hi").unwrap(), b"hi".to_vec());
    assert_eq!(split_object(ObjectType::Commit, b"commit 3\0abc").unwrap(), b"abc".to_vec());
}

#[test]
fn commit_payload_layout() {
    let user = User { name: b"Ann".to_vec(), email: b"ann@example.com".to_vec() };
    let c = CommitObject {
        tree_hash: b"1111111111111111111111111111111111111111".to_vec(),
        parent: Some(b"2222222222222222222222222222222222222222".to_vec()),
        author: user.clone(),
        committer: user,
        message: b"First".to_vec(),
        timestamp: 1700000000,
        timezone: b"+0530".to_vec(),
    };
    let p = format_commit(&c);
    let text = String::from_utf8(p.clone()).unwrap();
    assert_eq!(
        text,
        "tree 1111111111111111111111111111111111111111\nparent 2222222222222222222222222222222222222222\nauthor Ann <ann@example.com> 1700000000 +0530\ncommitter Ann <ann@example.com> 1700000000 +0530\n\nFirst"
    );
    assert_eq!(read_commit_tree(&p).unwrap(), c.tree_hash);
    assert_eq!(read_commit_parent(&p).unwrap(), b"2222222222222222222222222222222222222222".to_vec());
    let enc = encode_commit(&c);
    assert!(enc.starts_with(format!("commit {}\0", p.len()).as_bytes()));
}

#[test]
fn head_file_contents() {
    match parse_head(b"ref: refs/heads/main\n").unwrap() {
        Head::Attached(b) => assert_eq!(b, b"main".to_vec()),
        _ => panic!("expected a branch"),
    }
    match parse_head(b"  abc123\n").unwrap() {
        Head::Detached(h) => assert_eq!(h, b"abc123".to_vec()),
        _ => panic!("expected a hash"),
    }
    assert_eq!(parse_head(b"ref: refs/tags/x").unwrap_err(), VcsError::UnresolvedHead);
    assert_eq!(format_head(&Head::Attached(b"dev".to_vec())), b"ref: refs/heads/dev\n".to_vec());
    assert_eq!(format_head(&Head::Detached(b"abc".to_vec())), b"abc".to_vec());
    assert_eq!(trim(b" \t x y \n"), b"x y".to_vec());
}

#[test]
fn test_init_layout_check() {
    let all: Vec<Vec<u8>> = vec![
        b".rustygit".to_vec(),
        b".rustygit/objects".to_vec(),
        b".rustygit/refs".to_vec(),
        b".rustygit/refs/heads".to_vec(),
        b".rustygit/HEAD".to_vec(),
    ];
    assert!(ensure_repo_exists(&all).is_ok());
    let missing: Vec<Vec<u8>> = all[..4].to_vec();
    assert_eq!(ensure_repo_exists(&missing), Err(VcsError::RepositoryNotFound));
    assert_eq!(ensure_repo_exists(&[]), Err(VcsError::RepositoryNotFound));
}

#[test]
fn kind_tags() {
    assert_eq!(ObjectType::Blob.as_str(), "blob");
    assert_eq!(ObjectType::Tree.as_str(), "tree");
    assert_eq!(ObjectType::Commit.as_str(), "commit");
    assert_eq!(ObjectType::Commit.tag_bytes(), b"commit".to_vec());
}

#[test]
fn hash_bytes_is_sha1_hex() {
    assert_eq!(
        String::from_utf8(rustygit::store::hash_bytes(b"")).unwrap(),
        "da39a3ee5e6b4b0d3255bfef95601890afd80709"
    );
    assert_eq!(
        String::from_utf8(rustygit::store::hash_bytes(b"abc")).unwrap(),
        "a9993e364706816aba3e25717850c26c9cd0d89d"
    );
}

#[test]
fn write_blob_stores_and_names_blob() {
    let mut store = ObjectStore::new();
    let hex = rustygit::store::write_blob(&mut store, b"hello");
    assert_eq!(String::from_utf8(hex.clone()).unwrap(), "b6fc4c620b67d95f953a5c1c1230aaab5db5a1b0");
    let raw = rustygit::repo::raw_hash(&hex).unwrap();
    assert_eq!(parse_blob(&store.get(&raw).unwrap()).unwrap(), b"hello".to_vec());
}

#[test]
fn parse_commit_payload() {
    assert_eq!(rustygit::object::parse_commit(b"commit 2\0ab").unwrap(), b"ab".to_vec());
    assert_eq!(rustygit::object::parse_commit(b"commitx 2\0ab"), Err(VcsError::CorruptObject));
    assert_eq!(rustygit::object::parse_commit(b"commit 2"), Err(VcsError::CorruptObject));
}
