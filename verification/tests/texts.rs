use lepiter::app::Mode;
use lepiter::import::{is_markdown_name, unescape_lines};
use lepiter::index::page_file_stem;
use lepiter::number::parse_number;
use lepiter::screen::{help_area, help_lines, Area};
use lepiter::styled::line_text;
use lepiter::util::{extract_uuid_like, sanitize_relative_path, AttachmentError};

#[test]
fn the_help_lists_the_keys_of_the_mode() {
    let lines: Vec<String> = help_lines(Mode::Backlinks).iter().map(line_text).collect();
    assert_eq!(
        lines,
        vec![
            "  Keyboard Shortcuts",
            "",
            "  Global",
            "    q               quit",
            "    ?               toggle this help",
            "    Esc             back / dismiss",
            "",
            "  Backlinks",
            "    j / Down        move down",
            "    k / Up          move up",
            "    Enter           open page",
            "    Esc             back to page",
            "",
            "  press ? or Esc to close",
        ]
    );
}

#[test]
fn every_mode_has_its_help() {
    let rows = |mode: Mode| help_lines(mode).len();
    assert_eq!(rows(Mode::List), 15);
    assert_eq!(rows(Mode::NewPageTitle), 15);
    assert_eq!(rows(Mode::Search), 15);
    assert_eq!(rows(Mode::Page), 25);
    assert_eq!(rows(Mode::PageSearch), 14);
    assert_eq!(rows(Mode::Edit), 17);
}

#[test]
fn the_help_lies_in_the_middle() {
    let lines = help_lines(Mode::Backlinks);
    let area = help_area(&lines, Area { x: 0, y: 0, width: 80, height: 24 });
    assert_eq!((area.x, area.y, area.width, area.height), (17, 4, 46, 16));
}

#[test]
fn page_files_are_known_by_their_extension() {
    assert_eq!(page_file_stem("/kb/a.b.lepiter").as_deref(), Some("a.b"));
    assert_eq!(page_file_stem("/kb.lepiter/readme"), None);
    assert_eq!(page_file_stem("/kb/.lepiter"), None);
    assert!(is_markdown_name("a.md"));
    assert!(!is_markdown_name(".md"));
    assert!(!is_markdown_name("a.MD"));
}

#[test]
fn numbers_are_read_within_their_range() {
    assert_eq!(parse_number("18446744073709551615"), Some(u64::MAX));
    assert_eq!(parse_number("18446744073709551616"), None);
    assert_eq!(parse_number("+07"), Some(7));
    assert_eq!(parse_number(""), None);
    assert_eq!(parse_number("+"), None);
    assert_eq!(parse_number("-1"), None);
    assert_eq!(parse_number(" 1"), None);
}

#[test]
fn the_first_uuid_of_a_text_is_found() {
    assert_eq!(
        extract_uuid_like("see 12345678-9abc-DEF0-1234-56789abcdef0 there").as_deref(),
        Some("12345678-9abc-DEF0-1234-56789abcdef0")
    );
    assert_eq!(extract_uuid_like("12345678-9abc-DEF0-1234-56789abcdeg0"), None);
    assert_eq!(extract_uuid_like("short"), None);
}

#[test]
fn paths_that_leave_the_directory_are_refused() {
    assert_eq!(sanitize_relative_path(" a/b "), Ok("a/b".to_string()));
    assert_eq!(sanitize_relative_path(" "), Err(AttachmentError::Empty));
    assert_eq!(
        sanitize_relative_path("/a"),
        Err(AttachmentError::EscapesRoot("/a".to_string()))
    );
    assert_eq!(
        sanitize_relative_path("a/../b"),
        Err(AttachmentError::EscapesRoot("a/../b".to_string()))
    );
    assert_eq!(sanitize_relative_path("a..b/..."), Ok("a..b/...".to_string()));
}

#[test]
fn escapes_are_taken_off_line_by_line() {
    assert_eq!(unescape_lines("\\# a\nb"), "# a\nb");
    assert_eq!(unescape_lines("plain"), "plain");
}
