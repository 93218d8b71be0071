use dir_tools::live::{bar_look, format_live_count, format_live_count_width, truncate_left, BarKind, IntoProgressLen, ANSI_PROGRESS_CHARS, PROGRESS_CHARS, TICK_CHARS};
use unicode_width::UnicodeWidthStr;

#[test]
fn live_count_fits_within_terminal_and_right_aligns_count() {
    let path = "0312211958/9/GILZA-AR112-01-002M8L.1UST.PBN";
    let count = 37507_u64;

    let rendered = format_live_count(path, count);

    let total_width = UnicodeWidthStr::width(rendered.as_str());
    assert!(total_width <= 80, "вывод шире терминала: {total_width}");

    assert!(
        rendered.trim_end().ends_with("37507"),
        "счётчик должен быть в хвосте: {rendered}"
    );
}

#[test]
fn live_count_truncates_long_cyrillic_path() {
    let path = "очень/длинный/путь/на/кириллице/с/файлом.txt";
    let count = 123_u64;

    let rendered = format_live_count(path, count);

    let total_width = UnicodeWidthStr::width(rendered.as_str());
    assert!(total_width <= 80, "вывод шире терминала: {total_width}");
    assert!(rendered.starts_with("..."), "путь должен быть обрезан слева");
}

#[test]
fn live_count_exact_layout() {
    // 40 columns: 18 for the message; "7" takes 1, so the path gets 16 bytes.
    let line = format_live_count_width("abc", 7, 40);
    assert_eq!(line, format!("abc{}7", " ".repeat(14)));
    let line = format_live_count_width("abcdefghijklmnopqrstuvwxyz", 12345, 40);
    assert_eq!(line, "...rstuvwxyz 12345");
}

#[test]
fn live_count_in_narrow_terminal_keeps_count() {
    let line = format_live_count_width("some/path", 99, 10);
    assert_eq!(line, "...99");
}

#[test]
fn truncate_keeps_fitting_text() {
    assert_eq!(truncate_left("hello", 5), "hello");
    assert_eq!(truncate_left("", 0), "");
}

#[test]
fn truncate_small_room_gives_dots() {
    assert_eq!(truncate_left("hello", 3), "...");
    assert_eq!(truncate_left("hello", 0), "...");
}

#[test]
fn truncate_cuts_from_the_left() {
    assert_eq!(truncate_left("abcdefgh", 6), "...fgh");
}

#[test]
fn truncate_respects_char_boundaries() {
    // Each Cyrillic letter takes two bytes; the cut moves to the next character start.
    let s = "абвгд";
    let r = truncate_left(s, 8);
    assert_eq!(r, "...гд");
    assert!(r.len() <= 8);
}

#[test]
fn bar_look_on_ansi_terminal() {
    let look = bar_look(true, true, true, BarKind::Bar);
    assert_eq!(look.progress_chars, Some(ANSI_PROGRESS_CHARS));
    assert_eq!(look.tick_chars, None);
    let look = bar_look(true, true, true, BarKind::Spinner);
    assert_eq!(look.progress_chars, None);
}

#[test]
fn bar_look_elsewhere() {
    let look = bar_look(false, true, true, BarKind::Spinner);
    assert_eq!(look.tick_chars, Some(TICK_CHARS));
    assert_eq!(look.progress_chars, Some(PROGRESS_CHARS));
}

#[test]
fn progress_len_of_counts() {
    assert_eq!(IntoProgressLen::into_progress_len(7u64), 7);
    assert_eq!(IntoProgressLen::into_progress_len(12usize), 12);
    assert_eq!(IntoProgressLen::into_progress_len(5i32), 5);
    assert_eq!(IntoProgressLen::into_progress_len(-3i32), 0);
}

#[test]
fn live_width_defaults_to_eighty_columns() {
    assert_eq!(dir_tools::live::live_line_width(None), 80);
    assert_eq!(dir_tools::live::live_line_width(Some(120)), 120);
}
