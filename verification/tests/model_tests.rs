use neojot::snapshot::{build_tree, lookup_path, CalendarDay, FileEntry, LocalHistory};

fn day(year: i32, month: u32, day: u32) -> CalendarDay {
    CalendarDay { year, month, day }
}

fn fe(path: &str, content: &[u8]) -> FileEntry {
    FileEntry { path: path.to_string(), content: content.to_vec() }
}

fn author() -> (String, String) {
    (String::from("Author Name"), String::from("author@example.com"))
}

#[test]
fn empty_root_then_noop() {
    let mut h = LocalHistory::initialize();
    let (name, email) = author();
    let c1 = h.snapshot_and_commit(build_tree(vec![]), day(2024, 1, 2), name, email);
    assert!(c1);
    let (name, email) = author();
    let c2 = h.snapshot_and_commit(build_tree(vec![]), day(2024, 1, 3), name, email);
    assert!(!c2);
    assert_eq!(h.commit_count(), 1);
}

#[test]
fn snapshot_idempotent_with_content() {
    let mut h = LocalHistory::initialize();
    let (name, email) = author();
    assert!(h.snapshot_and_commit(
        build_tree(vec![fe("data/a.md", b"alpha")]),
        day(2024, 1, 2),
        name,
        email
    ));
    let (name, email) = author();
    assert!(!h.snapshot_and_commit(
        build_tree(vec![fe("data/a.md", b"alpha")]),
        day(2024, 1, 3),
        name,
        email
    ));
    assert_eq!(h.commit_count(), 1);
    let (name, email) = author();
    assert!(h.snapshot_and_commit(
        build_tree(vec![fe("data/a.md", b"alpha beta")]),
        day(2024, 1, 4),
        name,
        email
    ));
    assert_eq!(h.commit_count(), 2);
}

#[test]
fn round_trip_files() {
    let files = vec![
        fe("zzz/c.txt", b"gamma"),
        fe("data/a.md", b"alpha"),
        fe("data/b.md", b"beta"),
    ];
    let t = build_tree(files);
    let mut h = LocalHistory::initialize();
    let (name, email) = author();
    assert!(h.snapshot_and_commit(t, day(2024, 2, 10), name, email));
    let head = h.head_tree().expect("head exists after a commit");
    assert_eq!(head.entries.len(), 3);
    assert_eq!(
        lookup_path(head, &String::from("data/a.md")).expect("a.md stored"),
        &b"alpha".to_vec()
    );
    assert_eq!(
        lookup_path(head, &String::from("data/b.md")).expect("b.md stored"),
        &b"beta".to_vec()
    );
    assert_eq!(
        lookup_path(head, &String::from("zzz/c.txt")).expect("c.txt stored"),
        &b"gamma".to_vec()
    );
    assert!(lookup_path(head, &String::from("data/missing.md")).is_none());
}

#[test]
fn two_commits_same_day() {
    let mut h = LocalHistory::initialize();
    let (name, email) = author();
    assert!(h.snapshot_and_commit(build_tree(vec![]), day(2024, 1, 1), name, email));
    let (name, email) = author();
    assert!(h.snapshot_and_commit(
        build_tree(vec![fe("data/a.md", b"1")]),
        day(2024, 1, 3),
        name,
        email
    ));
    let (name, email) = author();
    assert!(h.snapshot_and_commit(
        build_tree(vec![fe("data/a.md", b"1"), fe("data/b.md", b"2")]),
        day(2024, 1, 3),
        name,
        email
    ));
    let m = h.get_commits_by_day(2024, 1);
    assert_eq!(m.len(), 1);
    assert_eq!(
        m.get(&3).expect("day 3 present"),
        &vec![String::from("a.md"), String::from("b.md")]
    );
}

#[test]
fn empty_history_empty_map() {
    let h = LocalHistory::initialize();
    let m = h.get_commits_by_day(2024, 1);
    assert!(m.is_empty());
}

#[test]
fn month_without_commits_empty_map() {
    let mut h = LocalHistory::initialize();
    let (name, email) = author();
    assert!(h.snapshot_and_commit(build_tree(vec![]), day(2024, 1, 1), name, email));
    let (name, email) = author();
    assert!(h.snapshot_and_commit(
        build_tree(vec![fe("data/a.md", b"1")]),
        day(2024, 1, 3),
        name,
        email
    ));
    let m = h.get_commits_by_day(1999, 12);
    assert!(m.is_empty());
}

#[test]
fn root_changes_are_not_reported() {
    let mut h = LocalHistory::initialize();
    let (name, email) = author();
    assert!(h.snapshot_and_commit(
        build_tree(vec![fe("data/a.md", b"1")]),
        day(2024, 1, 3),
        name,
        email
    ));
    let (name, email) = author();
    assert!(h.snapshot_and_commit(
        build_tree(vec![fe("data/a.md", b"1"), fe("data/b.md", b"2")]),
        day(2024, 1, 3),
        name,
        email
    ));
    let m = h.get_commits_by_day(2024, 1);
    // the root commit introduced a.md, but a parentless commit is never
    // diffed, so only b.md is reported
    assert_eq!(m.get(&3).expect("day 3 present"), &vec![String::from("b.md")]);
}

#[test]
fn repeated_change_reported_once_per_day() {
    let mut h = LocalHistory::initialize();
    let (name, email) = author();
    assert!(h.snapshot_and_commit(build_tree(vec![]), day(2024, 3, 1), name, email));
    let (name, email) = author();
    assert!(h.snapshot_and_commit(
        build_tree(vec![fe("data/a.md", b"v1")]),
        day(2024, 3, 5),
        name,
        email
    ));
    let (name, email) = author();
    assert!(h.snapshot_and_commit(
        build_tree(vec![fe("data/a.md", b"v2")]),
        day(2024, 3, 5),
        name,
        email
    ));
    let m = h.get_commits_by_day(2024, 3);
    assert_eq!(m.get(&5).expect("day 5 present"), &vec![String::from("a.md")]);
}

#[test]
fn non_note_changes_are_filtered() {
    let mut h = LocalHistory::initialize();
    let (name, email) = author();
    assert!(h.snapshot_and_commit(build_tree(vec![]), day(2024, 4, 1), name, email));
    let (name, email) = author();
    assert!(h.snapshot_and_commit(
        build_tree(vec![fe("data/raw.txt", b"x"), fe("pic.excalidraw", b"y")]),
        day(2024, 4, 2),
        name,
        email
    ));
    let m = h.get_commits_by_day(2024, 4);
    assert!(m.is_empty());
}

#[test]
fn deleted_note_is_reported() {
    let mut h = LocalHistory::initialize();
    let (name, email) = author();
    assert!(h.snapshot_and_commit(
        build_tree(vec![fe("data/a.md", b"1"), fe("data/b.md", b"2")]),
        day(2024, 5, 1),
        name,
        email
    ));
    let (name, email) = author();
    assert!(h.snapshot_and_commit(
        build_tree(vec![fe("data/a.md", b"1")]),
        day(2024, 5, 9),
        name,
        email
    ));
    let m = h.get_commits_by_day(2024, 5);
    assert_eq!(m.get(&9).expect("day 9 present"), &vec![String::from("b.md")]);
}
