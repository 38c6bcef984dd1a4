use flowscript::tokenizer::{BrState, Key, Token, Tokenizer};
use flowscript::pretty::print_tokens;

fn lex(input: &str) -> Vec<Token> {
    let chars: Vec<char> = input.chars().collect();
    let mut t = Tokenizer::new(chars);
    t.tokenize()
}

#[test]
fn lex_smoke() {
    let tokens = lex("digraph{a->b;}");
    assert_eq!(
        tokens,
        vec![
            Token::ReservedText(Key::Digraph),
            Token::Brace(BrState::Open),
            Token::Text("a".to_string()),
            Token::Arrow,
            Token::Text("b".to_string()),
            Token::Semicolon,
            Token::Brace(BrState::Closed),
        ]
    );
}

#[test]
fn lex_single_char_tokens() {
    let tokens = lex("[ ] { } ; = ,");
    assert_eq!(
        tokens,
        vec![
            Token::Bracket(BrState::Open),
            Token::Bracket(BrState::Closed),
            Token::Brace(BrState::Open),
            Token::Brace(BrState::Closed),
            Token::Semicolon,
            Token::Equals,
            Token::Comma,
        ]
    );
}

#[test]
fn lex_keywords_case_insensitive() {
    let tokens = lex("DIGRAPH Shape dAtA");
    assert_eq!(
        tokens,
        vec![
            Token::ReservedText(Key::Digraph),
            Token::ReservedText(Key::Shape),
            Token::ReservedText(Key::Data),
        ]
    );
}

#[test]
fn lex_quoted_text_with_escapes() {
    let tokens = lex("\"a b\" \"x\\\"y\" \"\"");
    assert_eq!(
        tokens,
        vec![
            Token::Text("a b".to_string()),
            Token::Text("x\"y".to_string()),
            Token::Text("".to_string()),
        ]
    );
}

#[test]
fn lex_quoted_json_payload() {
    let tokens = lex("data = \"{\\\"target\\\": \\\"demo\\\"}\"");
    assert_eq!(
        tokens,
        vec![
            Token::ReservedText(Key::Data),
            Token::Equals,
            Token::Text("{\"target\": \"demo\"}".to_string()),
        ]
    );
}

#[test]
fn lex_identifier_with_underscore_and_digits() {
    let tokens = lex("print_error2 x9");
    assert_eq!(
        tokens,
        vec![
            Token::Text("print_error2".to_string()),
            Token::Text("x9".to_string()),
        ]
    );
}

#[test]
fn lex_arrow_needs_greater_than() {
    // a lone '-' starts no token: the stream ends there
    let tokens = lex("a - b");
    assert_eq!(tokens, vec![Token::Text("a".to_string())]);
}

#[test]
fn lex_unexpected_char_ends_stream() {
    let tokens = lex("a % b");
    assert_eq!(tokens, vec![Token::Text("a".to_string())]);
}

#[test]
fn lex_unterminated_quote_takes_rest() {
    let tokens = lex("\"abc");
    assert_eq!(tokens, vec![Token::Text("abc".to_string())]);
}

#[test]
fn print_tokens_roundtrip() {
    // the tokenizer round-trip on a concrete conforming input
    let tokens = lex("digraph G { a [ data = \"{\\\"x\\\": 1}\" ] ; a -> b ; }");
    let printed = print_tokens(&tokens);
    let mut t = Tokenizer::new(printed);
    let again = t.tokenize();
    assert_eq!(tokens, again);
}

#[test]
fn print_tokens_roundtrip_quoted_forms() {
    // text that must be re-quoted: spaces, quotes, keywords, empty text
    let tokens = vec![
        Token::Text("a b".to_string()),
        Token::Text("he said \"hi\"".to_string()),
        Token::Text("digraph".to_string()),
        Token::Text("".to_string()),
        Token::ReservedText(Key::Shape),
        Token::Arrow,
    ];
    let printed = print_tokens(&tokens);
    let mut t = Tokenizer::new(printed);
    let again = t.tokenize();
    assert_eq!(tokens, again);
}

#[test]
fn tokenizer_is_deterministic() {
    let a = lex("digraph { a -> b ; }");
    let b = lex("digraph { a -> b ; }");
    assert_eq!(a, b);
}
