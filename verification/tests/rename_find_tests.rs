use dir_tools::args::FindMode;
use dir_tools::find::{prepare_search, try_prepare_search, render_result, render_results, FindError, FindQuery, SearchResult, first_line_containing};
use dir_tools::rename::{exposed_path, parent_prefix_destination, rename_destination, unix_expose_hint};

#[test]
fn rename_replaces_in_the_name_and_keeps_the_extension() {
    let r = rename_destination("/d/old_report.txt", "old", "new", false);
    assert_eq!(r, Some(("new_report.txt".to_string(), "/d/new_report.txt".to_string())));
}

#[test]
fn rename_skips_names_without_the_text() {
    assert_eq!(rename_destination("/d/report.txt", "old", "new", false), None);
    assert_eq!(rename_destination("/d/notes.txt", "old", "new", false), None);
}

#[test]
fn rename_reaches_into_the_extension() {
    let r = rename_destination("/d/report.old", "old", "new", false);
    assert_eq!(r, Some(("report.new".to_string(), "/d/report.new".to_string())));
}

#[test]
fn rename_keeps_the_directory_part() {
    let r = rename_destination("old/old_dir", "old", "new", false);
    assert_eq!(r, Some(("new_dir".to_string(), "old/new_dir".to_string())));
}

#[test]
fn rename_replaces_every_occurrence() {
    let r = rename_destination("dir/aXbXc", "X", "--", false);
    assert_eq!(r, Some(("a--b--c".to_string(), "dir/a--b--c".to_string())));
}

#[test]
fn parent_prefix_puts_directory_name_in_front() {
    let r = parent_prefix_destination("/photos/2020/img.jpg", "_", false);
    assert_eq!(r, Some(("2020_img.jpg".to_string(), "/photos/2020/2020_img.jpg".to_string())));
    let r = parent_prefix_destination("photos/x.jpg", "_", false);
    assert_eq!(r, Some(("photos_x.jpg".to_string(), "photos/photos_x.jpg".to_string())));
}

#[test]
fn parent_prefix_touches_only_the_file_name() {
    let r = parent_prefix_destination("/x/a/a", " ", false);
    assert_eq!(r, Some(("a a".to_string(), "/x/a/a a".to_string())));
    let r = parent_prefix_destination("a/a", "_", false);
    assert_eq!(r, Some(("a_a".to_string(), "a/a_a".to_string())));
}

#[test]
fn parent_prefix_needs_a_named_parent() {
    assert_eq!(parent_prefix_destination("/f.txt", "_", false), None);
    assert_eq!(parent_prefix_destination("f.txt", "_", false), None);
}

#[test]
fn exposing_drops_the_leading_dot() {
    assert_eq!(exposed_path("/home/u/.bashrc", false), Some("/home/u/bashrc".to_string()));
    assert_eq!(exposed_path("/home/u/visible", false), None);
}

#[test]
fn expose_hint_is_a_find_command() {
    assert_eq!(
        unix_expose_hint("/tmp/d"),
        "find /tmp/d -name \".*\" -exec sh -c 'mv \"$1\" \"$(dirname \"$1\")/$(basename \"$1\" | sed \"s/^\\.//\")\"' sh {} \\;"
    );
}

#[test]
fn find_mode_labels() {
    assert_eq!(FindMode::FileName.label(), "имя файла");
    assert_eq!(FindMode::Gavriluk.label(), "режим Гаврилюка");
}

#[test]
fn search_by_name() {
    let q = prepare_search(FindMode::FileName, Some("rep"));
    assert!(q.check("/d/report.txt", "report.txt", true, None, false).is_some());
    assert!(q.check("/d/other.txt", "other.txt", true, None, false).is_none());
}

#[test]
fn search_without_pattern_finds_nothing() {
    let q = prepare_search(FindMode::Content, None);
    assert!(matches!(q, FindQuery::Nothing));
    assert!(!q.reads_lines(true));
}

#[test]
fn search_in_contents_reports_first_line() {
    let q = prepare_search(FindMode::Content, Some("TODO"));
    assert!(q.reads_lines(true));
    assert!(!q.reads_lines(false));
    let lines = vec![Some("a".to_string()), None, Some("x TODO y".to_string()), Some("TODO".to_string())];
    let r = q.check("/d/f.rs", "f.rs", true, Some(&lines), false).unwrap();
    assert_eq!(r.line_number, Some(3));
    assert_eq!(r.matched_content, Some("x TODO y".to_string()));
    assert!(q.check("/d", "d", false, Some(&lines), false).is_none());
    assert!(q.check("/d/f.rs", "f.rs", true, None, false).is_none());
}

#[test]
fn search_by_expression() {
    let q = prepare_search(FindMode::Regexp, Some("^fn [a-z]+"));
    let lines = vec![Some("// fn x".to_string()), Some("fn main() {".to_string())];
    let r = q.check("/d/m.rs", "m.rs", true, Some(&lines), false).unwrap();
    assert_eq!(r.line_number, Some(2));
}

#[test]
fn invalid_expression_is_refused() {
    assert!(matches!(try_prepare_search(FindMode::Regexp, Some("(")), Err(FindError::InvalidRegex)));
    assert!(try_prepare_search(FindMode::Regexp, Some("a+")).is_ok());
    assert!(matches!(try_prepare_search(FindMode::Content, Some("(")), Ok(FindQuery::Content(_))));
}

#[test]
fn search_for_repeated_directory_name() {
    let q = prepare_search(FindMode::Gavriluk, None);
    assert!(q.check("/x/ab/ab_ab.txt", "ab_ab.txt", true, None, false).is_some());
    assert!(q.check("/x/ab/ab.txt", "ab.txt", true, None, false).is_none());
    // Occurrences are counted without overlap.
    assert!(q.check("/x/aa/aaa", "aaa", true, None, false).is_none());
    assert!(q.check("/x/aa/aaaa", "aaaa", true, None, false).is_some());
}

#[test]
fn first_line_numbers_from_one() {
    let lines = vec![Some("needle".to_string())];
    assert_eq!(first_line_containing(&lines, "need"), Some((1, "needle".to_string())));
    assert_eq!(first_line_containing(&lines, "hay"), None);
}

#[test]
fn results_are_written_as_links() {
    let plain = SearchResult { path: "/d/a.txt".to_string(), line_number: None, matched_content: None };
    assert_eq!(
        render_result(&plain),
        "\x1b]8;;file:///d/a.txt\x1b\\\x1b[4:3m/d/a.txt\x1b[4:0m\x1b]8;;\x1b\\\n"
    );
    let with_line = SearchResult {
        path: "/d/b.txt".to_string(),
        line_number: Some(12),
        matched_content: Some("x".to_string()),
    };
    assert_eq!(
        render_result(&with_line),
        "Файл: \x1b]8;;file:///d/b.txt\x1b\\\x1b[4:3m/d/b.txt\x1b[4:0m\x1b]8;;\x1b\\\nСтрока 12: x\n---\n"
    );
    let both = render_results(&vec![plain, with_line]);
    assert!(both.starts_with("\x1b]8;;file:///d/a.txt"));
    assert!(both.ends_with("---\n"));
}

#[test]
fn windows_rules_rename_in_place() {
    let r = rename_destination("C:\\d\\old_report.txt", "old", "new", true);
    assert_eq!(r, Some(("new_report.txt".to_string(), "C:\\d\\new_report.txt".to_string())));
    let r = parent_prefix_destination("C:\\photos\\x.jpg", "_", true);
    assert_eq!(r, Some(("photos_x.jpg".to_string(), "C:\\photos\\photos_x.jpg".to_string())));
    let q = prepare_search(FindMode::Gavriluk, None);
    assert!(q.check("C:\\ab\\ab_ab.txt", "ab_ab.txt", true, None, true).is_some());
}
