use neojot::title::get_title_markdown;

#[test]
fn it_works() {
    assert_eq!(get_title_markdown("# hello"), String::from("hello"));
    assert_eq!(get_title_markdown("# hello world"), String::from("hello world"));
    assert_eq!(get_title_markdown("# \nhello"), String::from("hello"));
    assert_eq!(
        get_title_markdown("# \nTODO[Scheduled: 2024-01-03(Mon)]: hello"),
        String::from("hello")
    );
}

#[test]
fn empty_text_has_no_title() {
    assert_eq!(get_title_markdown(""), String::from("NO TITLE"));
}

#[test]
fn first_line_without_heading_is_skipped() {
    assert_eq!(get_title_markdown("plain\nsecond"), String::from("second"));
    assert_eq!(get_title_markdown("plain"), String::from("NO TITLE"));
}

#[test]
fn heading_is_trimmed() {
    assert_eq!(get_title_markdown("#   spaced out  "), String::from("spaced out"));
}

#[test]
fn heading_with_crlf() {
    assert_eq!(get_title_markdown("# hi\r\nrest"), String::from("hi"));
}

#[test]
fn other_markers_are_stripped() {
    assert_eq!(get_title_markdown("x\nDOING[now]: work"), String::from("work"));
    assert_eq!(get_title_markdown("x\nDONE[2024]: shipped"), String::from("shipped"));
    assert_eq!(get_title_markdown("x\nCANCELED[y]: gone"), String::from("gone"));
    assert_eq!(get_title_markdown("x\nPLAN[z]: soon"), String::from("soon"));
}

#[test]
fn marker_strips_to_last_close() {
    assert_eq!(get_title_markdown("x\nTODO[a]: b]: c"), String::from("c"));
}

#[test]
fn unclosed_marker_line_is_kept_whole() {
    assert_eq!(get_title_markdown("x\nTODO[open  "), String::from("TODO[open"));
}

#[test]
fn empty_lines_are_skipped() {
    assert_eq!(get_title_markdown("x\n\n\n  found  "), String::from("found"));
}
