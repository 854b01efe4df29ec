use photo_backup::marker::{parse_marker, render_marker};

#[test]
fn parses_simple_lines() {
    assert_eq!(parse_marker("alpha\nbeta\n"), vec!["alpha", "beta"]);
}

#[test]
fn final_fragment_without_newline_counts() {
    assert_eq!(parse_marker("alpha\nbeta"), vec!["alpha", "beta"]);
}

#[test]
fn empty_text_gives_no_names() {
    assert_eq!(parse_marker(""), Vec::<String>::new());
}

#[test]
fn strips_carriage_return_before_newline() {
    assert_eq!(parse_marker("alpha\r\nbeta\r\n"), vec!["alpha", "beta"]);
}

#[test]
fn duplicates_are_kept_once() {
    assert_eq!(parse_marker("a\nb\na\n"), vec!["a", "b"]);
}

#[test]
fn blank_lines_become_empty_names() {
    assert_eq!(parse_marker("a\n\nb\n"), vec!["a", "", "b"]);
}

#[test]
fn renders_one_name_per_line() {
    let names = vec![String::from("x"), String::from("y")];
    assert_eq!(render_marker(&names), "x\ny\n");
}

#[test]
fn renders_nothing_for_no_names() {
    assert_eq!(render_marker(&Vec::new()), "");
}

#[test]
fn round_trip_preserves_names() {
    let names = vec![String::from("2021 trip"), String::from("phone"), String::from("camera")];
    assert_eq!(parse_marker(&render_marker(&names)), names);
}

#[test]
fn round_trip_with_unicode_names() {
    let names = vec![String::from("caf\u{e9}"), String::from("\u{65e5}\u{672c}")];
    assert_eq!(parse_marker(&render_marker(&names)), names);
}
