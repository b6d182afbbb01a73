use rustygit::commit::User;
use rustygit::error::{UnsafeReason, VcsError};
use rustygit::ignore::{is_ignored, parse_ignore_file, IgnoreRule};
use rustygit::repo::{Head, Repository};
use rustygit::hex::bytes_to_hex;
use rustygit::worktree::{get_work_dir_map, WorkDir, WorkEntry, WorkNode, WorkTree};

fn user() -> User {
    User { name: b"Test".to_vec(), email: b"test@example.com".to_vec() }
}

/// A working tree of top-level files only.
fn flat(files: &[(&str, &str)]) -> WorkTree {
    let entries = files
        .iter()
        .map(|(n, c)| WorkEntry { name: n.as_bytes().to_vec(), node: WorkNode::File(c.as_bytes().to_vec()) })
        .collect();
    WorkTree { dirs: vec![WorkDir { entries }] }
}

/// A working tree with `dir/<name>` files.
fn nested(files: &[(&str, &str)]) -> WorkTree {
    let entries = files
        .iter()
        .map(|(n, c)| WorkEntry { name: n.as_bytes().to_vec(), node: WorkNode::File(c.as_bytes().to_vec()) })
        .collect();
    WorkTree {
        dirs: vec![
            WorkDir { entries: vec![WorkEntry { name: b"dir".to_vec(), node: WorkNode::Dir(1) }] },
            WorkDir { entries },
        ],
    }
}

fn commit(repo: &mut Repository, wt: &WorkTree, msg: &str) -> Vec<u8> {
    repo.commit(wt, &[], msg.as_bytes(), &user(), 1700000000, b"+0000").unwrap()
}

fn content_of(files: &[rustygit::repo::RestoredFile], path: &str) -> Option<Vec<u8>> {
    files.iter().find(|f| f.path == path.as_bytes()).map(|f| f.content.clone())
}

#[test]
fn initial_commit_creates_commit_object() {
    let mut repo = Repository::init();
    let wt = flat(&[("a.txt", "hello")]);
    let h = commit(&mut repo, &wt, "initial commit");
    assert_eq!(h.len(), 40);
    assert_eq!(repo.branches.get(b"main").unwrap(), h);
    // blob, tree and commit
    assert_eq!(repo.objects.len(), 3);
}

#[test]
fn second_commit_has_parent() {
    let mut repo = Repository::init();
    let first = commit(&mut repo, &flat(&[("file.txt", "one")]), "first");
    let second = commit(&mut repo, &flat(&[("file.txt", "two")]), "second");
    let log = repo.log().unwrap();
    assert_eq!(log.len(), 2);
    assert_eq!(log[0].hash, second);
    assert_eq!(log[0].parent, Some(first.clone()));
    assert_eq!(log[1].hash, first);
    assert_eq!(log[1].parent, None);
}

#[test]
fn history_has_one_record_per_commit() {
    let mut repo = Repository::init();
    let mut trees = Vec::new();
    for i in 0..4 {
        let wt = flat(&[("n.txt", &format!("v{}", i))]);
        commit(&mut repo, &wt, "step");
        let mut scratch = rustygit::store::ObjectStore::new();
        let t = rustygit::builder::write_tree(&wt, &[], &mut scratch);
        trees.push(bytes_to_hex(&t));
    }
    let log = repo.log().unwrap();
    assert_eq!(log.len(), 4);
    for (k, rec) in log.iter().enumerate() {
        assert_eq!(rec.tree, trees[3 - k]);
    }
}

#[test]
fn log_fails_on_missing_parent_object() {
    let mut repo = Repository::init();
    commit(&mut repo, &flat(&[("file.txt", "hello")]), "first");
    let mut other = Repository::init();
    let head = repo.branches.get(b"main").unwrap();
    other.head = Head::Detached(head);
    assert_eq!(other.log().unwrap_err(), VcsError::ObjectNotFound);
}

#[test]
fn commit_fails_on_detached_head() {
    let mut repo = Repository::init();
    let first = commit(&mut repo, &flat(&[("file.txt", "one")]), "first");
    commit(&mut repo, &flat(&[("file.txt", "two")]), "second");
    let wt = flat(&[("file.txt", "two")]);
    repo.checkout(&first, &wt).unwrap();
    assert!(matches!(repo.head, Head::Detached(ref h) if *h == first));
    let before_objects = repo.objects.len();
    let before_main = repo.branches.get(b"main").unwrap();
    let r = repo.commit(&flat(&[("file.txt", "three")]), &[], b"third", &user(), 1, b"+0000");
    assert_eq!(r, Err(VcsError::DetachedHead));
    assert_eq!(repo.objects.len(), before_objects);
    assert_eq!(repo.branches.get(b"main").unwrap(), before_main);
}

#[test]
fn restore_file() {
    let mut repo = Repository::init();
    let first = commit(&mut repo, &flat(&[("a.txt", "one")]), "First");
    commit(&mut repo, &flat(&[("a.txt", "Hello Again")]), "two");
    let files = repo.checkout(&first, &flat(&[("a.txt", "Hello Again")])).unwrap();
    assert_eq!(content_of(&files, "a.txt"), Some(b"one".to_vec()));
}

#[test]
fn restore_directory() {
    let mut repo = Repository::init();
    let first = commit(&mut repo, &nested(&[("a.txt", "one")]), "First");
    commit(&mut repo, &nested(&[("a.txt", "two")]), "Second");
    let files = repo.checkout(&first, &nested(&[("a.txt", "two")])).unwrap();
    assert_eq!(content_of(&files, "dir/a.txt"), Some(b"one".to_vec()));
}

#[test]
fn untracked_file_blocks_checkout() {
    let mut repo = Repository::init();
    let first = commit(&mut repo, &flat(&[("a.txt", "one")]), "First");
    commit(&mut repo, &flat(&[]), "Second");
    let r = repo.checkout(&first, &flat(&[("a.txt", "untracked")]));
    assert_eq!(
        r.unwrap_err(),
        VcsError::UnsafeCheckout { path: b"a.txt".to_vec(), reason: UnsafeReason::WouldOverwriteUntracked }
    );
    assert!(matches!(repo.head, Head::Attached(ref b) if b == b"main"));
}

#[test]
fn modified_tracked_file_blocks_checkout() {
    let mut repo = Repository::init();
    let first = commit(&mut repo, &flat(&[("a.txt", "one")]), "First");
    commit(&mut repo, &flat(&[("a.txt", "two")]), "Second");
    let r = repo.checkout(&first, &flat(&[("a.txt", "dirty")]));
    assert_eq!(
        r.unwrap_err(),
        VcsError::UnsafeCheckout { path: b"a.txt".to_vec(), reason: UnsafeReason::WouldLoseLocalChanges }
    );
}

#[test]
fn modified_tracked_file_blocks_checkout_on_delete() {
    let mut repo = Repository::init();
    let first = commit(&mut repo, &flat(&[("a.txt", "one")]), "First");
    let second = commit(&mut repo, &flat(&[]), "Second");
    repo.checkout(&first, &flat(&[])).unwrap();
    let r = repo.checkout(&second, &flat(&[("a.txt", "dirty")]));
    assert!(r.is_err());
}

#[test]
fn unmodified_tracked_file_allows_checkout() {
    let mut repo = Repository::init();
    let first = commit(&mut repo, &flat(&[("a.txt", "one")]), "First");
    commit(&mut repo, &flat(&[("a.txt", "two")]), "Second");
    let files = repo.checkout(&first, &flat(&[("a.txt", "two")])).unwrap();
    assert_eq!(content_of(&files, "a.txt"), Some(b"one".to_vec()));
}

#[test]
fn untracked_file_not_overwritten_is_allowed() {
    let mut repo = Repository::init();
    let first = commit(&mut repo, &flat(&[("a.txt", "one")]), "First");
    assert!(repo.checkout(&first, &flat(&[("a.txt", "one"), ("b.txt", "untracked")])).is_ok());
}

#[test]
fn modified_file_allowed_if_target_keeps_same_version() {
    let mut repo = Repository::init();
    let first = commit(&mut repo, &flat(&[("a.txt", "one")]), "First");
    assert!(repo.checkout(&first, &flat(&[("a.txt", "dirty")])).is_ok());
}

#[test]
fn modified_file_matching_target_passes_through() {
    let mut repo = Repository::init();
    let first = commit(&mut repo, &flat(&[("a.txt", "one")]), "First");
    commit(&mut repo, &flat(&[("a.txt", "two")]), "Second");
    // a.txt differs from the current commit but already holds the target's version
    let files = repo.checkout(&first, &flat(&[("a.txt", "one")])).unwrap();
    assert_eq!(content_of(&files, "a.txt"), Some(b"one".to_vec()));
    assert!(matches!(repo.head, Head::Detached(ref h) if *h == first));
}

#[test]
fn invalid_checkout_target() {
    let mut repo = Repository::init();
    commit(&mut repo, &flat(&[("a.txt", "one")]), "First");
    let r = repo.checkout(b"nope", &flat(&[("a.txt", "one")]));
    assert_eq!(r.unwrap_err(), VcsError::AmbiguousOrInvalidTarget);
    let r = repo.checkout(b"0000000000000000000000000000000000000000", &flat(&[("a.txt", "one")]));
    assert_eq!(r.unwrap_err(), VcsError::AmbiguousOrInvalidTarget);
}

#[test]
fn branch_created() {
    let mut repo = Repository::init();
    let h = commit(&mut repo, &flat(&[("a.txt", "one")]), "First");
    repo.create_branch(b"new-branch").unwrap();
    assert_eq!(repo.branches.get(b"new-branch").unwrap(), h);
    assert_eq!(repo.create_branch(b"new-branch"), Err(VcsError::BranchExists));
}

#[test]
fn branch_on_unborn_repository_is_empty() {
    let mut repo = Repository::init();
    repo.create_branch(b"dev").unwrap();
    assert_eq!(repo.branches.get(b"dev").unwrap(), Vec::<u8>::new());
    let files = repo.checkout(b"dev", &flat(&[])).unwrap();
    assert!(files.is_empty());
    assert!(matches!(repo.head, Head::Attached(ref b) if b == b"dev"));
}

#[test]
fn clean_repo_status() {
    let mut repo = Repository::init();
    assert!(repo.status(&flat(&[]), &[]).unwrap().is_clean());
    commit(&mut repo, &flat(&[("a.txt", "one")]), "First");
    assert!(repo.status(&flat(&[("a.txt", "one")]), &[]).unwrap().is_clean());
    let ignore_file = "a.txt\n.rustygitignore";
    let rules = parse_ignore_file(ignore_file.as_bytes());
    let wt = flat(&[("a.txt", "modified"), (".rustygitignore", ignore_file)]);
    assert!(repo.status(&wt, &rules).unwrap().is_clean());
}

#[test]
fn modified_file_status() {
    let mut repo = Repository::init();
    commit(&mut repo, &flat(&[("a.txt", "one")]), "First");
    let s = repo.status(&flat(&[("a.txt", "modified")]), &[]).unwrap();
    assert_eq!(s.modified, vec![b"a.txt".to_vec()]);
    assert!(!s.is_clean());
}

#[test]
fn unntracked_file_status() {
    let repo = Repository::init();
    let s = repo.status(&flat(&[("a.txt", "one")]), &[]).unwrap();
    assert_eq!(s.untracked, vec![b"a.txt".to_vec()]);
}

#[test]
fn deleted_file_status() {
    let mut repo = Repository::init();
    commit(&mut repo, &flat(&[("a.txt", "one")]), "First");
    let s = repo.status(&flat(&[]), &[]).unwrap();
    assert_eq!(s.deleted, vec![b"a.txt".to_vec()]);
}

#[test]
fn ignored_file_status() {
    let mut repo = Repository::init();
    let ignore_file = "b.txt";
    let rules = parse_ignore_file(ignore_file.as_bytes());
    let wt = flat(&[(".rustygitignore", ignore_file), ("a.txt", "one"), ("b.txt", "Ignored")]);
    repo.commit(&wt, &rules, b"First", &user(), 1, b"+0000").unwrap();
    let wt = flat(&[(".rustygitignore", ignore_file), ("a.txt", "one"), ("b.txt", "one")]);
    let s = repo.status(&wt, &rules).unwrap();
    assert!(!s.modified.iter().chain(&s.deleted).chain(&s.untracked).any(|p| p == b"b.txt"));
    assert!(s.is_clean());
}

#[test]
fn ignored_files_do_not_change_tree_hash() {
    let ignore_file = "*.tmp\n";
    let rules = parse_ignore_file(ignore_file.as_bytes());
    let mut s1 = rustygit::store::ObjectStore::new();
    let wt1 = flat(&[(".rustygitignore", ignore_file), ("a.txt", "hello"), ("ignore.tmp", "one")]);
    let h1 = rustygit::builder::write_tree(&wt1, &rules, &mut s1);
    let wt2 = flat(&[(".rustygitignore", ignore_file), ("a.txt", "hello"), ("ignore.tmp", "two")]);
    let h2 = rustygit::builder::write_tree(&wt2, &rules, &mut s1);
    assert_eq!(h1, h2);
}

#[test]
fn entry_order_does_not_change_tree_hash() {
    let mut s = rustygit::store::ObjectStore::new();
    let h1 = rustygit::builder::write_tree(&flat(&[("b", "2"), ("a", "1"), ("c", "3")]), &[], &mut s);
    let h2 = rustygit::builder::write_tree(&flat(&[("c", "3"), ("a", "1"), ("b", "2")]), &[], &mut s);
    assert_eq!(h1, h2);
}

#[test]
fn ignore_rules_match_paths() {
    let file = vec![IgnoreRule::File(b"secret.txt".to_vec())];
    assert!(is_ignored(b"secret.txt", &file));
    assert!(is_ignored(b"dir/secret.txt", &file));
    assert!(!is_ignored(b"visible.txt", &file));
    assert!(!is_ignored(b"notsecret.txt", &file));
    let dir = vec![IgnoreRule::Directory(b"target".to_vec())];
    assert!(is_ignored(b"target", &dir));
    assert!(is_ignored(b"target/file.o", &dir));
    assert!(!is_ignored(b"src/main.rs", &dir));
    assert!(!is_ignored(b"targets", &dir));
    let glob = vec![IgnoreRule::Glob(b"*.log".to_vec())];
    assert!(is_ignored(b"debug.log", &glob));
    assert!(!is_ignored(b"info.txt", &glob));
}

#[test]
fn work_dir_map_walks_subdirectories() {
    let m = get_work_dir_map(&nested(&[("a.txt", "hello")]));
    assert_eq!(m.len(), 1);
    assert_eq!(m[0].path, b"dir/a.txt".to_vec());
    assert_eq!(String::from_utf8(bytes_to_hex(&m[0].hash)).unwrap(), "b6fc4c620b67d95f953a5c1c1230aaab5db5a1b0");
}

#[test]
fn current_tree_follows_head() {
    let mut repo = Repository::init();
    assert_eq!(repo.get_current_tree_hash().unwrap(), None);
    assert_eq!(repo.get_current_commit_hash().unwrap(), None);
    let wt = flat(&[("a.txt", "one")]);
    let h = commit(&mut repo, &wt, "First");
    assert_eq!(repo.get_current_commit_hash().unwrap(), Some(h));
    let mut scratch = rustygit::store::ObjectStore::new();
    let t = rustygit::builder::write_tree(&wt, &[], &mut scratch);
    assert_eq!(repo.get_current_tree_hash().unwrap(), Some(t));
    repo.head = Head::Attached(b"gone".to_vec());
    assert_eq!(repo.get_current_tree_hash(), Err(VcsError::UnresolvedHead));
}

#[test]
fn list_branches() {
    let mut repo = Repository::init();
    commit(&mut repo, &flat(&[("a.txt", "one")]), "First");
    repo.create_branch(b"branch-one").unwrap();
    repo.create_branch(b"branch-two").unwrap();
    let mut listed = repo.branch();
    listed.sort();
    assert_eq!(
        listed,
        vec![(b"branch-one".to_vec(), false), (b"branch-two".to_vec(), false), (b"main".to_vec(), true)]
    );
}

#[test]
fn write_tree_nested_directory() {
    let mut store = rustygit::store::ObjectStore::new();
    let wt = nested(&[("main.rs", "fn main() {}")]);
    let t = rustygit::builder::write_tree(&wt, &[], &mut store);
    assert!(store.contains(&t));
    // blob, subtree and root tree
    assert_eq!(store.len(), 3);
    let files = rustygit::walk::get_tree_files_map(&store, &t).unwrap();
    assert_eq!(files.len(), 1);
    assert_eq!(files[0].path, b"dir/main.rs".to_vec());
}

#[test]
fn metadata_directories_are_not_recorded() {
    let mut store = rustygit::store::ObjectStore::new();
    let with_meta = flat(&[("a.txt", "x"), (".rustygit", "meta"), (".git", "meta")]);
    let plain = flat(&[("a.txt", "x")]);
    let h1 = rustygit::builder::write_tree(&with_meta, &[], &mut store);
    let h2 = rustygit::builder::write_tree(&plain, &[], &mut store);
    assert_eq!(h1, h2);
}

#[test]
fn metadata_is_not_a_working_file() {
    let repo = Repository::init();
    let wt = flat(&[("a.txt", "one"), (".rustygit", "meta"), (".git", "meta")]);
    let m = get_work_dir_map(&wt);
    assert_eq!(m.len(), 1);
    let s = repo.status(&wt, &[]).unwrap();
    assert_eq!(s.untracked, vec![b"a.txt".to_vec()]);
}

#[test]
fn test_init_command() {
    let repo = Repository::init();
    assert_eq!(rustygit::layout::format_head(&repo.head), b"ref: refs/heads/main\n".to_vec());
    assert_eq!(repo.branches.get(b"main").unwrap(), Vec::<u8>::new());
    assert_eq!(repo.objects.len(), 0);
}

#[test]
fn head_is_detached() {
    let mut repo = Repository::init();
    let first = commit(&mut repo, &flat(&[("a.txt", "one")]), "First");
    commit(&mut repo, &flat(&[("a.txt", "Hello Again")]), "two");
    repo.checkout(&first, &flat(&[("a.txt", "Hello Again")])).unwrap();
    assert_eq!(rustygit::layout::format_head(&repo.head), first);
}

#[test]
fn log_fails_without_repo() {
    let present: Vec<Vec<u8>> = Vec::new();
    assert_eq!(rustygit::layout::ensure_repo_exists(&present), Err(VcsError::RepositoryNotFound));
}

#[test]
fn commit_fails_without_repo() {
    let present: Vec<Vec<u8>> = vec![b".rustygit".to_vec(), b".rustygit/objects".to_vec()];
    assert_eq!(rustygit::layout::ensure_repo_exists(&present), Err(VcsError::RepositoryNotFound));
}

#[test]
fn write_tree_single_file() {
    let mut store = rustygit::store::ObjectStore::new();
    let t = rustygit::builder::write_tree(&flat(&[("a.txt", "hello")]), &[], &mut store);
    assert!(store.contains(&t));
    let tree = rustygit::object::parse_tree(&store.get(&t).unwrap()).unwrap();
    assert_eq!(tree.len(), 1);
    assert_eq!(tree[0].name, b"a.txt".to_vec());
    assert_eq!(
        String::from_utf8(bytes_to_hex(&tree[0].hash)).unwrap(),
        "b6fc4c620b67d95f953a5c1c1230aaab5db5a1b0"
    );
}

#[test]
fn work_tree_invariant_is_checked() {
    assert!(flat(&[("a", "1"), ("b", "2")]).is_wf());
    assert!(nested(&[("a", "1")]).is_wf());
    assert!(!flat(&[("a", "1"), ("a", "2")]).is_wf());
    assert!(!flat(&[("a\0b", "1")]).is_wf());
    let twice = WorkTree {
        dirs: vec![
            WorkDir {
                entries: vec![
                    WorkEntry { name: b"x".to_vec(), node: WorkNode::Dir(1) },
                    WorkEntry { name: b"y".to_vec(), node: WorkNode::Dir(1) },
                ],
            },
            WorkDir { entries: vec![] },
        ],
    };
    assert!(!twice.is_wf());
    let backwards = WorkTree {
        dirs: vec![WorkDir { entries: vec![WorkEntry { name: b"x".to_vec(), node: WorkNode::Dir(0) }] }],
    };
    assert!(!backwards.is_wf());
}
