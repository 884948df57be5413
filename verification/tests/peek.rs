use permafrost::peek::peek_code;
use permafrost::source::FrostSource;

#[test]
fn peek_shorter_than_requested() {
    let src = "line1\nline2\nline3";
    assert_eq!(peek_code(src, 10), "line1\nline2\nline3");
}

#[test]
fn peek_exact_lines() {
    let src = (1..=10).map(|i| format!("line{}", i)).collect::<Vec<_>>().join("\n");
    assert_eq!(peek_code(&src, 10), src);
}

#[test]
fn peek_longer_shows_ellipsis() {
    let src = (1..=100).map(|i| format!("line{}", i)).collect::<Vec<_>>().join("\n");
    assert_eq!(
        peek_code(&src, 10),
        "line1\nline2\nline3\nline4\nline5\n...\nline96\nline97\nline98\nline99\nline100"
    );
}

#[test]
fn peek_on_empty_source() {
    let src = "";
    assert_eq!(peek_code(src, 10), "");
}

#[test]
fn peek_rounds_an_odd_count_down() {
    assert_eq!(peek_code("a\nb\nc\nd\n", 3), "a\n...\nd");
    assert_eq!(peek_code("a\nb\n", 1), "\n...\n");
    assert_eq!(peek_code("a\r\nb\r\n", 0), "\n...\n");
    assert_eq!(peek_code("a\r\nb\r\n", 2), "a\nb");
}

#[test]
fn peek_of_a_source_shows_both_sections() {
    let source = FrostSource { fr: "x\ny\n".to_string(), main: "z\n".to_string() };
    assert_eq!(
        source.peek("split"),
        "split:step_name\n==== FR NAMESPACE ====\nx\ny\n==== MAIN SCRIPT ====\nz"
    );
}
