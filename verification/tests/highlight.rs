use lepiter::highlight::{tokenize_code_line, CodeToken};

#[test]
fn backslash_escape_in_string() {
    // a trailing escaped backslash must not swallow the closing quote
    let tokens = tokenize_code_line(r#"x = "hello\\""#, Some("python"));
    // the string literal should end after the second backslash + closing quote
    let strings: Vec<_> = tokens
        .iter()
        .filter_map(|t| match t {
            CodeToken::StringLit(s) => Some(*s),
            _ => None,
        })
        .collect();
    assert_eq!(strings, vec![r#""hello\\""#]);
}

#[test]
fn simple_escaped_quote() {
    let tokens = tokenize_code_line(r#""say \"hi\"""#, None);
    let strings: Vec<_> = tokens
        .iter()
        .filter_map(|t| match t {
            CodeToken::StringLit(s) => Some(*s),
            _ => None,
        })
        .collect();
    assert_eq!(strings, vec![r#""say \"hi\"""#]);
}

#[test]
fn python_comment() {
    let tokens = tokenize_code_line("x = 1 # comment", Some("python"));
    assert!(tokens.iter().any(|t| matches!(t, CodeToken::Comment(_))));
    let comment = tokens.last().unwrap();
    assert_eq!(comment, &CodeToken::Comment("# comment"));
}

#[test]
fn javascript_comment() {
    let tokens = tokenize_code_line("let x = 1 // comment", Some("javascript"));
    assert!(tokens.iter().any(|t| matches!(t, CodeToken::Comment(_))));
}

#[test]
fn keyword_detection() {
    let tokens = tokenize_code_line("def foo():", Some("python"));
    assert_eq!(tokens[0], CodeToken::Keyword("def"));
    assert_eq!(tokens[2], CodeToken::Ident("foo"));
}

#[test]
fn number_literal() {
    let tokens = tokenize_code_line("x = 42.5", None);
    let nums: Vec<_> = tokens
        .iter()
        .filter_map(|t| match t {
            CodeToken::Number(s) => Some(*s),
            _ => None,
        })
        .collect();
    assert_eq!(nums, vec!["42.5"]);
}

fn comments<'a>(tokens: &[CodeToken<'a>]) -> Vec<&'a str> {
    tokens
        .iter()
        .filter_map(|t| match t {
            CodeToken::Comment(s) => Some(*s),
            _ => None,
        })
        .collect()
}

fn strings<'a>(tokens: &[CodeToken<'a>]) -> Vec<&'a str> {
    tokens
        .iter()
        .filter_map(|t| match t {
            CodeToken::StringLit(s) => Some(*s),
            _ => None,
        })
        .collect()
}

#[test]
fn smalltalk_double_quote_is_comment_not_string() {
    let tokens = tokenize_code_line(r#"foo "a comment" bar"#, Some("pharo"));
    assert_eq!(comments(&tokens), vec![r#""a comment""#]);
    assert!(strings(&tokens).is_empty());
}

#[test]
fn smalltalk_single_quote_is_string() {
    let tokens = tokenize_code_line("x := 'a string'", Some("pharo"));
    assert_eq!(strings(&tokens), vec!["'a string'"]);
    assert!(comments(&tokens).is_empty());
}

#[test]
fn smalltalk_single_quote_inside_comment_does_not_desync() {
    // the apostrophe inside the comment must not open a string literal and
    // leave the rest of the line mis-tokenised.
    let tokens = tokenize_code_line(r#"foo "it's a comment" 42"#, Some("pharo"));
    assert_eq!(comments(&tokens), vec![r#""it's a comment""#]);
    assert!(strings(&tokens).is_empty());
    // the trailing number still tokenises correctly.
    assert!(tokens.iter().any(|t| matches!(t, CodeToken::Number("42"))));
}

#[test]
fn gemstone_uses_smalltalk_syntax() {
    let tokens = tokenize_code_line(r#""doc" self"#, Some("gemstone"));
    assert_eq!(comments(&tokens), vec![r#""doc""#]);
    assert!(
        tokens
            .iter()
            .any(|t| matches!(t, CodeToken::Keyword("self")))
    );
}

#[test]
fn smalltalk_keyword_detection() {
    let tokens = tokenize_code_line("super foo", Some("pharo"));
    assert_eq!(tokens[0], CodeToken::Keyword("super"));
}

#[test]
fn block_comment_spans_within_line() {
    let tokens = tokenize_code_line("a /* mid */ b", Some("javascript"));
    assert_eq!(comments(&tokens), vec!["/* mid */"]);
    // code on both sides is preserved as identifiers.
    assert!(tokens.iter().any(|t| matches!(t, CodeToken::Ident("a"))));
    assert!(tokens.iter().any(|t| matches!(t, CodeToken::Ident("b"))));
}

#[test]
fn unterminated_block_comment_runs_to_end_of_line() {
    let tokens = tokenize_code_line("x /* oops", Some("javascript"));
    assert_eq!(comments(&tokens), vec!["/* oops"]);
}

#[test]
fn shellcommand_hash_is_comment() {
    // `shellCommandSnippet` infers the language `shellcommand`; its `#`
    // comments must highlight like `shell`/`bash`.
    let tokens = tokenize_code_line("ls -la # list", Some("shellcommand"));
    assert_eq!(comments(&tokens), vec!["# list"]);
}

#[test]
fn non_smalltalk_double_quote_is_still_a_string() {
    let tokens = tokenize_code_line(r#"x = "hi""#, Some("python"));
    assert_eq!(strings(&tokens), vec![r#""hi""#]);
    assert!(comments(&tokens).is_empty());
}
