use namel3ss_native::scan::{scan, tokens_to_json, Token, TokenType};

fn kinds(tokens: &[Token]) -> Vec<TokenType> {
    tokens.iter().map(|t| t.token_type).collect()
}

fn value(t: &Token) -> Option<&str> {
    t.value.as_deref()
}

#[test]
fn empty_source_is_one_eof() {
    let tokens = scan("").unwrap();
    assert_eq!(tokens.len(), 1);
    assert_eq!(tokens[0].token_type, TokenType::EOF);
    assert_eq!(tokens[0].line, 1);
    assert_eq!(tokens[0].column, 1);
    assert_eq!(tokens[0].value, None);
}

#[test]
fn power_is_preferred_over_two_stars() {
    let tokens = scan("a**b").unwrap();
    assert_eq!(
        kinds(&tokens),
        vec![TokenType::IDENT, TokenType::POWER, TokenType::IDENT, TokenType::NEWLINE, TokenType::EOF]
    );
    assert_eq!(value(&tokens[0]), Some("a"));
    assert_eq!(value(&tokens[1]), Some("**"));
    assert_eq!(value(&tokens[2]), Some("b"));
    assert_eq!(tokens[1].column, 2);
    assert_eq!(tokens[2].column, 4);
}

#[test]
fn single_star() {
    let tokens = scan("a * b").unwrap();
    assert_eq!(tokens[1].token_type, TokenType::STAR);
    assert_eq!(tokens[1].column, 3);
}

#[test]
fn escaped_identifier_with_space_fails() {
    assert!(scan("`my var`").is_err());
}

#[test]
fn escaped_identifier_scans() {
    let tokens = scan("`my_var`").unwrap();
    assert_eq!(tokens[0].token_type, TokenType::IDENT_ESCAPED);
    assert!(tokens[0].escaped);
    assert_eq!(value(&tokens[0]), Some("my_var"));
    assert_eq!(tokens[1].token_type, TokenType::NEWLINE);
    assert_eq!(tokens[1].column, 9);
}

#[test]
fn empty_escaped_identifier_fails() {
    assert!(scan("``").is_err());
    assert!(scan("`abc").is_err());
    assert!(scan("`1abc`").is_err());
}

#[test]
fn indentation_is_balanced() {
    let src = "flow demo:\n  set x = 1\n  if x:\n    return x\nask ai\n";
    let tokens = scan(src).unwrap();
    let indents = tokens.iter().filter(|t| t.token_type == TokenType::INDENT).count();
    let dedents = tokens.iter().filter(|t| t.token_type == TokenType::DEDENT).count();
    assert_eq!(indents, 2);
    assert_eq!(dedents, 2);
    let mut depth: i64 = 0;
    for t in &tokens {
        if t.token_type == TokenType::INDENT {
            depth += 1;
        }
        if t.token_type == TokenType::DEDENT {
            depth -= 1;
        }
        assert!(depth >= 0);
    }
    assert_eq!(tokens.last().unwrap().token_type, TokenType::EOF);
    assert_eq!(tokens.last().unwrap().line, 6);
}

#[test]
fn dedents_at_end_of_input() {
    let tokens = scan("a\n  b\n    c").unwrap();
    let tail: Vec<TokenType> = kinds(&tokens[tokens.len() - 3..]);
    assert_eq!(tail, vec![TokenType::DEDENT, TokenType::DEDENT, TokenType::EOF]);
    assert_eq!(tokens[tokens.len() - 2].line, 3);
    assert_eq!(tokens[tokens.len() - 1].line, 4);
}

#[test]
fn inconsistent_dedent_fails() {
    assert!(scan("a\n    b\n  c").is_err());
}

#[test]
fn blank_and_comment_lines_are_skipped() {
    let tokens = scan("a\n\n   # note\n  \nb").unwrap();
    assert_eq!(
        kinds(&tokens),
        vec![TokenType::IDENT, TokenType::NEWLINE, TokenType::IDENT, TokenType::NEWLINE, TokenType::EOF]
    );
    assert_eq!(tokens[2].line, 5);
}

#[test]
fn reserved_words() {
    let tokens = scan("flow true str integer foo").unwrap();
    assert_eq!(
        kinds(&tokens[..5]),
        vec![
            TokenType::FLOW,
            TokenType::BOOLEAN,
            TokenType::TYPE_STRING,
            TokenType::TYPE_INT,
            TokenType::IDENT
        ]
    );
    assert_eq!(value(&tokens[1]), Some("true"));
}

#[test]
fn reserved_words_are_case_sensitive() {
    let tokens = scan("Flow").unwrap();
    assert_eq!(tokens[0].token_type, TokenType::IDENT);
}

#[test]
fn numbers() {
    let tokens = scan("3.14 7. 42").unwrap();
    assert_eq!(
        kinds(&tokens[..4]),
        vec![TokenType::NUMBER, TokenType::NUMBER, TokenType::DOT, TokenType::NUMBER]
    );
    assert_eq!(value(&tokens[0]), Some("3.14"));
    assert_eq!(value(&tokens[1]), Some("7"));
    assert_eq!(value(&tokens[3]), Some("42"));
    assert_eq!(tokens[3].column, 9);
}

#[test]
fn strings_keep_their_text() {
    let tokens = scan("title is \"Hi \\n there\"").unwrap();
    assert_eq!(tokens[2].token_type, TokenType::STRING);
    assert_eq!(value(&tokens[2]), Some("Hi \\n there"));
    assert_eq!(tokens[2].column, 10);
}

#[test]
fn unterminated_string_fails() {
    assert!(scan("\"abc").is_err());
}

#[test]
fn braces_and_unknown_characters_fail() {
    assert!(scan("{").is_err());
    assert!(scan("a }").is_err());
    assert!(scan("a ; b").is_err());
}

#[test]
fn unicode_identifiers_and_columns() {
    let tokens = scan("  ñame").unwrap();
    assert_eq!(tokens[0].token_type, TokenType::INDENT);
    assert_eq!(tokens[1].token_type, TokenType::IDENT);
    assert_eq!(value(&tokens[1]), Some("ñame"));
    assert_eq!(tokens[1].column, 3);
    assert_eq!(tokens[2].column, 7);
}

#[test]
fn line_breaks() {
    let tokens = scan("a\r\nb\rc\u{2028}d").unwrap();
    let lines: Vec<usize> = tokens
        .iter()
        .filter(|t| t.token_type == TokenType::IDENT)
        .map(|t| t.line)
        .collect();
    assert_eq!(lines, vec![1, 2, 3, 4]);
}

#[test]
fn punctuation() {
    let tokens = scan("f(a, b[0]) = x.y + 1 - 2 / 3 % 4").unwrap();
    assert_eq!(
        kinds(&tokens[..8]),
        vec![
            TokenType::IDENT,
            TokenType::LPAREN,
            TokenType::IDENT,
            TokenType::COMMA,
            TokenType::IDENT,
            TokenType::LBRACKET,
            TokenType::NUMBER,
            TokenType::RBRACKET
        ]
    );
    assert_eq!(tokens[8].token_type, TokenType::RPAREN);
    assert_eq!(tokens[9].token_type, TokenType::EQUALS);
}

#[test]
fn tokens_as_json() {
    let tokens = scan("x").unwrap();
    let json = String::from_utf8(tokens_to_json(&tokens)).unwrap();
    assert_eq!(
        json,
        "[{\"column\":1,\"escaped\":false,\"line\":1,\"type\":\"IDENT\",\"value\":\"x\"},\
{\"column\":2,\"escaped\":false,\"line\":1,\"type\":\"NEWLINE\",\"value\":null},\
{\"column\":1,\"escaped\":false,\"line\":2,\"type\":\"EOF\",\"value\":null}]"
    );
}

#[test]
fn tokens_as_json_escape_values() {
    let tokens = scan("`é`").unwrap();
    let json = String::from_utf8(tokens_to_json(&tokens)).unwrap();
    assert!(json.starts_with(
        "[{\"column\":1,\"escaped\":true,\"line\":1,\"type\":\"IDENT_ESCAPED\",\"value\":\"\\u00e9\"}"
    ));
}

#[test]
fn empty_token_list_as_json() {
    assert_eq!(tokens_to_json(&[]), b"[]".to_vec());
}
