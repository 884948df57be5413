use permafrost::preprocess::preprocess_code;

#[test]
fn removes_single_line_comments() {
    let input = r#"
            let x = 5; // this is a comment
            let y = x + 2; // another one
        "#;
    let out = preprocess_code(input);
    assert!(out.contains("let x = 5;"));
    assert!(out.contains("let y = x + 2;"));
    assert!(!out.contains("//"));
}

#[test]
fn removes_multiline_comments() {
    let input = r#"
            /* This is a
               multiline comment */
            let z = 42;
        "#;
    let out = preprocess_code(input);
    assert!(out.contains("let z = 42;"));
    assert!(!out.contains("multiline"));
}

#[test]
fn preserves_strings_with_comment_like_text() {
    let input = r#"let comment = "// not really";"#;
    let out = preprocess_code(input);
    assert!(out.contains(r#"let comment = "// not really";"#));
}
