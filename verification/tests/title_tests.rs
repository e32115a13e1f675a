use miniblog::title::extract_title;

#[test]
fn heading_line_gives_title() {
    assert_eq!(extract_title("# Hello World\n\nSome body."), "Hello World");
}

#[test]
fn no_heading_gives_placeholder() {
    assert_eq!(extract_title("just text\nmore text"), "Untitled");
}

#[test]
fn empty_text_gives_placeholder() {
    assert_eq!(extract_title(""), "Untitled");
}

#[test]
fn heading_on_later_line_is_found() {
    assert_eq!(extract_title("intro line\n# Real Title\nrest"), "Real Title");
}

#[test]
fn double_marker_line_supplies_no_title() {
    assert_eq!(extract_title("## Sub Heading\n"), "Untitled");
}

#[test]
fn scanning_continues_past_double_marker_lines() {
    assert_eq!(extract_title("## Skip Me\n# Real Title\nbody"), "Real Title");
}

#[test]
fn marker_without_space_still_counts() {
    assert_eq!(extract_title("#Tight\nbody"), "Tight");
}

#[test]
fn surrounding_whitespace_is_trimmed() {
    assert_eq!(extract_title("#   Padded Title   \t\nbody"), "Padded Title");
}

#[test]
fn carriage_return_is_trimmed() {
    assert_eq!(extract_title("# Windows Title\r\nbody\r\n"), "Windows Title");
}

#[test]
fn bare_marker_gives_empty_title() {
    assert_eq!(extract_title("#\nbody"), "");
}
