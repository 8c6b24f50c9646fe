use neojot::buckets::{bucket_day_changes, DayChange};
use neojot::files::{scheme_allowed, sort_file_items, FileItem};
use neojot::engine::{
    auto_commit_message, main_branch_refspec, matching_day, month_in_range, remotes_to_push,
    resolve_identity, stage_all_pathspec,
};
use neojot::title::excalidraw_fallback_title;
use neojot::prompts::{get_initial_prompts, get_openai_progress, ProgressCache};
use neojot::text::{file_name_of, note_name, str_lex_lt};

#[test]
fn note_extension_detection() {
    assert!(note_name("a.md"));
    assert!(note_name("a.b.md"));
    assert!(!note_name(".md"));
    assert!(!note_name("a.txt"));
    assert!(!note_name("md"));
    assert!(!note_name("a.MD"));
}

#[test]
fn filename_component() {
    assert_eq!(file_name_of("data/a.md"), String::from("a.md"));
    assert_eq!(file_name_of("a.md"), String::from("a.md"));
    assert_eq!(file_name_of("x/y/z.md"), String::from("z.md"));
    assert_eq!(file_name_of("x/"), String::from(""));
}

#[test]
fn lexicographic_order() {
    assert!(str_lex_lt("a.md", "b.md"));
    assert!(!str_lex_lt("b.md", "a.md"));
    assert!(!str_lex_lt("a.md", "a.md"));
    assert!(str_lex_lt("a", "a.md"));
    assert!(str_lex_lt("A.md", "a.md"));
}

#[test]
fn buckets_filter_sort_dedup() {
    let changes = vec![
        DayChange {
            day: 3,
            paths: vec![
                String::from("data/b.md"),
                String::from("data/a.md"),
                String::from("other/a.md"),
                String::from("notes/c.txt"),
            ],
        },
        DayChange { day: 7, paths: vec![String::from("notes/readme.txt")] },
    ];
    let m = bucket_day_changes(&changes);
    assert_eq!(m.len(), 1);
    assert_eq!(
        m.get(&3).expect("day 3 present"),
        &vec![String::from("a.md"), String::from("b.md")]
    );
    assert!(m.get(&7).is_none());
}

#[test]
fn buckets_of_nothing_are_empty() {
    let m = bucket_day_changes(&vec![]);
    assert!(m.is_empty());
}

#[test]
fn file_items_sort_newest_first() {
    let items = vec![
        FileItem {
            filename: String::from("old.md"),
            mtime: 100,
            title: String::from("old"),
            content: String::from(""),
        },
        FileItem {
            filename: String::from("newest.md"),
            mtime: 900,
            title: String::from("newest"),
            content: String::from(""),
        },
        FileItem {
            filename: String::from("middle.md"),
            mtime: 500,
            title: String::from("middle"),
            content: String::from(""),
        },
    ];
    let sorted = sort_file_items(items);
    assert_eq!(sorted.len(), 3);
    assert_eq!(sorted[0].filename, "newest.md");
    assert_eq!(sorted[1].filename, "middle.md");
    assert_eq!(sorted[2].filename, "old.md");
}

#[test]
fn scheme_check() {
    assert!(scheme_allowed("http"));
    assert!(scheme_allowed("https"));
    assert!(!scheme_allowed("ftp"));
    assert!(!scheme_allowed("javascript"));
    assert!(!scheme_allowed(""));
}

#[test]
fn month_range_check() {
    assert!(!month_in_range(0));
    assert!(month_in_range(1));
    assert!(month_in_range(12));
    assert!(!month_in_range(13));
}

#[test]
fn initial_prompts_content() {
    let prompts = get_initial_prompts();
    assert_eq!(prompts.len(), 3);
    assert_eq!(prompts[0].title, "Generate a title");
    assert_eq!(
        prompts[0].prompt,
        "Here's a Markdown memo. Could you generate a better title for it? Output should be Japanese.Don't quote result."
    );
    assert_eq!(prompts[1].title, "Write the continuation");
    assert_eq!(
        prompts[1].prompt,
        "Here's a Markdown memo. Could you write the continuation of it? Output should be in Japanese."
    );
    assert_eq!(prompts[2].title, "Complete it");
    assert_eq!(
        prompts[2].prompt,
        "Here's a Markdown memo. Could you complete it? Output should be in Japanese."
    );
}

#[test]
fn progress_cache_set_get() {
    let mut cache = ProgressCache::new();
    assert!(get_openai_progress(&cache, String::from("r1")).is_none());
    cache.set_progress(String::from("r1"), String::from("partial"));
    cache.set_progress(String::from("r2"), String::from("other"));
    assert_eq!(
        get_openai_progress(&cache, String::from("r1")),
        Some(String::from("partial"))
    );
    cache.set_progress(String::from("r1"), String::from("partial longer"));
    assert_eq!(
        get_openai_progress(&cache, String::from("r1")),
        Some(String::from("partial longer"))
    );
    assert_eq!(
        get_openai_progress(&cache, String::from("r2")),
        Some(String::from("other"))
    );
    assert!(get_openai_progress(&cache, String::from("r3")).is_none());
}

#[test]
fn identity_fallback_pair() {
    let configured = Ok((String::from("Someone"), String::from("someone@example.org")));
    assert_eq!(
        resolve_identity(configured),
        (String::from("Someone"), String::from("someone@example.org"))
    );
    let unset: Result<(String, String), git2::Error> = Err(git2::Error::from_str("no identity"));
    assert_eq!(
        resolve_identity(unset),
        (String::from("Author Name"), String::from("author@example.com"))
    );
}

#[test]
fn fixed_engine_literals() {
    assert_eq!(auto_commit_message(), "auto commit");
    assert_eq!(main_branch_refspec(), "refs/heads/main:refs/heads/main");
    assert_eq!(stage_all_pathspec(), "*");
}

#[test]
fn push_targets_follow_commit_decision() {
    let remotes = vec![String::from("origin"), String::from("mirror")];
    assert_eq!(remotes_to_push(true, remotes.clone()), remotes);
    assert!(remotes_to_push(false, remotes).is_empty());
    let none: Vec<String> = Vec::new();
    assert!(remotes_to_push(true, none).is_empty());
}

#[test]
fn walk_selection() {
    assert_eq!(matching_day(Some((2024, 1, 3)), 2024, 1, true), Some(3));
    assert_eq!(matching_day(Some((2024, 1, 3)), 2024, 1, false), None);
    assert_eq!(matching_day(Some((2024, 2, 3)), 2024, 1, true), None);
    assert_eq!(matching_day(Some((2023, 1, 3)), 2024, 1, true), None);
    assert_eq!(matching_day(None, 2024, 1, true), None);
}

#[test]
fn drawing_fallback_title() {
    assert_eq!(excalidraw_fallback_title("sketch"), String::from("Draw sketch"));
    assert_eq!(excalidraw_fallback_title("x.excalidraw"), String::from("Draw x"));
    assert_eq!(
        excalidraw_fallback_title("a.excalidraw.excalidraw"),
        String::from("Draw a")
    );
    assert_eq!(excalidraw_fallback_title(""), String::from("Draw "));
}
