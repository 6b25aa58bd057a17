use ecs::text::{TokenCursor, TokenKind};

fn all_tokens(text: &str) -> Vec<(TokenKind, String)> {
    let mut cursor = TokenCursor::new(text);
    let mut out = Vec::new();
    while let Some(token) = cursor.next() {
        out.push(token);
    }
    out
}

#[test]
fn tokens_of_words_spaces_and_newlines() {
    let tokens = all_tokens("hello world\nfoo");
    assert_eq!(
        tokens,
        vec![
            (TokenKind::Word, "hello".to_string()),
            (TokenKind::Whitespace, " ".to_string()),
            (TokenKind::Word, "world".to_string()),
            (TokenKind::Newline, "\n".to_string()),
            (TokenKind::Word, "foo".to_string()),
        ]
    );
}

#[test]
fn empty_text_has_no_tokens() {
    let mut cursor = TokenCursor::new("");
    assert_eq!(cursor.next(), None);
    assert_eq!(cursor.next(), None);
}

#[test]
fn whitespace_run_is_one_token() {
    let tokens = all_tokens("  \t");
    assert_eq!(tokens, vec![(TokenKind::Whitespace, "  \t".to_string())]);
}

#[test]
fn newlines_are_tokens_of_their_own() {
    let tokens = all_tokens("a \n\n b");
    assert_eq!(
        tokens,
        vec![
            (TokenKind::Word, "a".to_string()),
            (TokenKind::Whitespace, " ".to_string()),
            (TokenKind::Newline, "\n".to_string()),
            (TokenKind::Newline, "\n".to_string()),
            (TokenKind::Whitespace, " ".to_string()),
            (TokenKind::Word, "b".to_string()),
        ]
    );
}

#[test]
fn non_ascii_text_splits_on_unicode_whitespace() {
    let tokens = all_tokens("héllo\u{00A0}wörld");
    assert_eq!(
        tokens,
        vec![
            (TokenKind::Word, "héllo".to_string()),
            (TokenKind::Whitespace, "\u{00A0}".to_string()),
            (TokenKind::Word, "wörld".to_string()),
        ]
    );
}

#[test]
fn tokens_join_back_into_the_text() {
    let text = "  fn main() {\n\tlet x = 1;\r\n}\n";
    let joined: String = all_tokens(text).into_iter().map(|(_, t)| t).collect();
    assert_eq!(joined, text);
}

#[test]
fn neighbouring_tokens_differ_in_kind() {
    let tokens = all_tokens("ab  c\nd \n\ne");
    for pair in tokens.windows(2) {
        assert!(!(pair[0].0 == TokenKind::Word && pair[1].0 == TokenKind::Word));
        assert!(!(pair[0].0 == TokenKind::Whitespace && pair[1].0 == TokenKind::Whitespace));
    }
}

#[test]
fn whitespace_matches_std_for_every_char() {
    for u in 0u32..=0x10FFFF {
        let Some(c) = char::from_u32(u) else { continue };
        if c == '\n' {
            continue;
        }
        let text = format!("a{c}b");
        let tokens = all_tokens(&text);
        let split = tokens.len() == 3 && tokens[1].0 == TokenKind::Whitespace;
        assert_eq!(split, c.is_whitespace(), "char {:#x}", u);
    }
}

#[test]
fn collect_tokens_gives_every_token() {
    let tokens = TokenCursor::new("ab  c\nd").collect_tokens();
    assert_eq!(
        tokens,
        vec![
            (TokenKind::Word, "ab".to_string()),
            (TokenKind::Whitespace, "  ".to_string()),
            (TokenKind::Word, "c".to_string()),
            (TokenKind::Newline, "\n".to_string()),
            (TokenKind::Word, "d".to_string()),
        ]
    );
    let joined: String = tokens.iter().map(|t| t.1.as_str()).collect();
    assert_eq!(joined, "ab  c\nd");
}

#[test]
fn collect_tokens_after_next_gives_the_rest() {
    let mut cursor = TokenCursor::new("one two");
    assert_eq!(cursor.next(), Some((TokenKind::Word, "one".to_string())));
    assert_eq!(
        cursor.collect_tokens(),
        vec![(TokenKind::Whitespace, " ".to_string()), (TokenKind::Word, "two".to_string())]
    );
}
