use litopts::doc::{read_doc_line, read_doc_lines, read_marked_doc_line};

#[test]
fn comment_line_without_its_marker() {
    assert_eq!(read_doc_line("/// set color mode"), Some("set color mode".to_string()));
    assert_eq!(read_doc_line("///set color mode"), Some("set color mode".to_string()));
    assert_eq!(read_doc_line("///  two spaces"), Some(" two spaces".to_string()));
    assert_eq!(read_doc_line("/// trailing \t \n"), Some("trailing".to_string()));
    assert_eq!(read_doc_line("/// a  b "), Some("a  b".to_string()));
    assert_eq!(read_doc_line("///"), Some(String::new()));
    assert_eq!(read_doc_line("/// "), Some(String::new()));
    assert_eq!(read_doc_line("///   "), Some(String::new()));
    assert_eq!(read_doc_line("////"), Some("/".to_string()));
    assert_eq!(read_doc_line("///\u{a0}x\u{3000}"), Some("\u{a0}x".to_string()));
}

#[test]
fn line_that_is_no_comment() {
    assert_eq!(read_doc_line(""), None);
    assert_eq!(read_doc_line("//"), None);
    assert_eq!(read_doc_line("// text"), None);
    assert_eq!(read_doc_line(" /// text"), None);
    assert_eq!(read_doc_line("/** text */"), None);
    assert_eq!(read_doc_line("//! text"), None);
}

#[test]
fn comment_lines_are_put_together() {
    let lines = vec!["/// set the ".to_string(), "///color".to_string(), "/// mode".to_string()];
    assert_eq!(read_doc_lines(&lines), Ok("set thecolormode".to_string()));
    assert_eq!(read_doc_lines(&Vec::new()), Ok(String::new()));
}

#[test]
fn first_line_that_is_no_comment_is_named() {
    let lines = vec!["/// a".to_string(), "// b".to_string(), "/// c".to_string(), "d".to_string()];
    assert_eq!(read_doc_lines(&lines), Err(1));
}

fn marks(s: &str, mark: char) -> Vec<(char, bool)> {
    s.chars().map(|c| (c, c == mark)).collect()
}

#[test]
fn marked_characters_at_the_end_are_left_out() {
    assert_eq!(read_marked_doc_line(&marks("/// a.b..", '.')), Some("a.b".to_string()));
    assert_eq!(read_marked_doc_line(&marks("///a b ", '.')), Some("a b ".to_string()));
    assert_eq!(read_marked_doc_line(&marks("///..", '.')), Some(String::new()));
    assert_eq!(read_marked_doc_line(&marks("/// ", ' ')), Some(String::new()));
    assert_eq!(read_marked_doc_line(&marks("//.", '.')), None);
    // The marks play no part in finding the `///`.
    assert_eq!(read_marked_doc_line(&marks("///x", '/')), Some("x".to_string()));
}
