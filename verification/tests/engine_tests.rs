use neojot::engine::{get_commits_by_day, git_add_commit_push, git_init, SyncError};
use std::time::{SystemTime, UNIX_EPOCH};

fn fresh_path(tag: &str) -> String {
    let nanos = SystemTime::now()
        .duration_since(UNIX_EPOCH)
        .expect("clock after epoch")
        .as_nanos();
    format!("/tmp/neojot_it_{}_{}", tag, nanos)
}

#[test]
fn engine_snapshot_cycle() {
    let path = fresh_path("cycle");
    assert!(git_init(&path).is_ok());
    // the very first snapshot always commits, even over an empty tree
    match git_add_commit_push(&path) {
        Ok(committed) => assert!(committed),
        Err(e) => panic!("first snapshot failed: {}", e.message()),
    }
    // unchanged tree: the second snapshot must report "no changes"
    match git_add_commit_push(&path) {
        Ok(committed) => assert!(!committed),
        Err(e) => panic!("second snapshot failed: {}", e.message()),
    }
    // a month no commit falls in yields an empty mapping, not an error
    match get_commits_by_day(&path, 2099, 1) {
        Ok(m) => assert!(m.is_empty()),
        Err(e) => panic!("history query failed: {}", e.message()),
    }
}

#[test]
fn engine_init_is_reentrant() {
    let path = fresh_path("reinit");
    assert!(git_init(&path).is_ok());
    match git_add_commit_push(&path) {
        Ok(committed) => assert!(committed),
        Err(e) => panic!("snapshot failed: {}", e.message()),
    }
    // initializing again must not destroy the existing history
    assert!(git_init(&path).is_ok());
    match git_add_commit_push(&path) {
        Ok(committed) => assert!(!committed),
        Err(e) => panic!("snapshot after reinit failed: {}", e.message()),
    }
}

#[test]
fn commit_without_remotes_succeeds() {
    let path = fresh_path("noremote");
    assert!(git_init(&path).is_ok());
    // zero remotes configured: no network is attempted and the call succeeds
    match git_add_commit_push(&path) {
        Ok(committed) => assert!(committed),
        Err(e) => panic!("snapshot without remotes failed: {}", e.message()),
    }
}

#[test]
fn missing_repository_is_repository_error() {
    let path = fresh_path("missing");
    let r = git_add_commit_push(&path);
    assert!(matches!(r, Err(SyncError::Repository(_))));
    let q = get_commits_by_day(&path, 2024, 1);
    assert!(matches!(q, Err(SyncError::Repository(_))));
}

#[test]
fn failed_push_is_remote_error() {
    let path = fresh_path("badremote");
    assert!(git_init(&path).is_ok());
    let repo = git2::Repository::open(&path).expect("repository opens");
    repo.remote("origin", "/tmp/neojot_it_no_such_target_repo")
        .expect("remote can be configured");
    // the commit succeeds locally, then the push to the unreachable remote
    // fails and the whole call reports a remote failure
    let r = git_add_commit_push(&path);
    assert!(matches!(r, Err(SyncError::Remote(_))));
}

#[test]
fn history_query_buckets_real_commits() {
    let path = fresh_path("history");
    assert!(git_init(&path).is_ok());
    let repo = git2::Repository::open(&path).expect("repository opens");

    // 1704240000 s and 1704250000 s after the epoch both fall on 2024-01-03 UTC
    let sig1 = git2::Signature::new("Author Name", "author@example.com", &git2::Time::new(1704240000, 0))
        .expect("signature");
    let sig2 = git2::Signature::new("Author Name", "author@example.com", &git2::Time::new(1704250000, 0))
        .expect("signature");

    // root commit: an empty tree (its additions are never reported)
    let empty = repo.treebuilder(None).expect("builder").write().expect("tree");
    let root = repo
        .commit(Some("HEAD"), &sig1, &sig1, "auto commit", &repo.find_tree(empty).expect("tree"), &[])
        .expect("root commit");

    // second commit, dated 2024-01-03: adds data/a.md and data/raw.txt
    let blob_a = repo.blob(b"alpha").expect("blob");
    let blob_raw = repo.blob(b"raw").expect("blob");
    let mut sub = repo.treebuilder(None).expect("builder");
    sub.insert("a.md", blob_a, 0o100644).expect("entry");
    sub.insert("raw.txt", blob_raw, 0o100644).expect("entry");
    let sub_id = sub.write().expect("subtree");
    let mut top = repo.treebuilder(None).expect("builder");
    top.insert("data", sub_id, 0o040000).expect("entry");
    let t2 = top.write().expect("tree");
    let c2 = repo
        .commit(
            Some("HEAD"),
            &sig1,
            &sig1,
            "auto commit",
            &repo.find_tree(t2).expect("tree"),
            &[&repo.find_commit(root).expect("commit")],
        )
        .expect("second commit");

    // third commit, same day: adds data/b.md
    let blob_b = repo.blob(b"beta").expect("blob");
    let mut sub2 = repo.treebuilder(Some(&repo.find_tree(sub_id).expect("tree"))).expect("builder");
    sub2.insert("b.md", blob_b, 0o100644).expect("entry");
    let sub2_id = sub2.write().expect("subtree");
    let mut top2 = repo.treebuilder(None).expect("builder");
    top2.insert("data", sub2_id, 0o040000).expect("entry");
    let t3 = top2.write().expect("tree");
    repo.commit(
        Some("HEAD"),
        &sig2,
        &sig2,
        "auto commit",
        &repo.find_tree(t3).expect("tree"),
        &[&repo.find_commit(c2).expect("commit")],
    )
    .expect("third commit");

    let m = match get_commits_by_day(&path, 2024, 1) {
        Ok(m) => m,
        Err(e) => panic!("history query failed: {}", e.message()),
    };
    // both non-root commits land on day 3; raw.txt is filtered out, the
    // names come sorted, and the root commit's additions are absent
    assert_eq!(m.len(), 1);
    assert_eq!(
        m.get(&3).expect("day 3 present"),
        &vec![String::from("a.md"), String::from("b.md")]
    );

    // another month of the same repository reports nothing
    let other = match get_commits_by_day(&path, 2024, 2) {
        Ok(m) => m,
        Err(e) => panic!("history query failed: {}", e.message()),
    };
    assert!(other.is_empty());
}
