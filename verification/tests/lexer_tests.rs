use bf_lexer::{Lexer, Location, Token};

fn lex_all(source: &[u8]) -> Vec<Token> {
    let mut lexer = Lexer::new(source.to_vec());
    let mut tokens: Vec<Token> = Vec::new();
    while let Some(token) = lexer.next() {
        tokens.push(token);
    }
    tokens
}

#[test]
fn empty_source_is_end_of_input() {
    let mut lexer = Lexer::new(Vec::new());
    assert!(lexer.next().is_none());

    let mut lexer = Lexer::new(Vec::new());
    assert!(lexer.peek().is_none());
    assert!(lexer.peek().is_none());
    assert!(lexer.next().is_none());
}

#[test]
fn comment_only_source_yields_no_tokens() {
    let mut lexer = Lexer::new(b"hello world 123 (a comment)".to_vec());
    assert!(lexer.next().is_none());

    let mut lexer = Lexer::new(b"\n\n  \t\n".to_vec());
    assert!(lexer.next().is_none());
}

#[test]
fn tokens_are_language_chars_in_order() {
    let tokens = lex_all(b"a+b[c]d-e.f,g<h>");
    let chars: Vec<char> = tokens.iter().map(|t| t.character).collect();
    assert_eq!(chars, vec!['+', '[', ']', '-', '.', ',', '<', '>']);
}

#[test]
fn peek_then_next_return_the_same_token() {
    let mut lexer = Lexer::new(b"x+-".to_vec());
    let peeked1 = lexer.peek().unwrap();
    let peeked2 = lexer.peek().unwrap();
    assert_eq!(peeked1, peeked2);
    let consumed = lexer.next().unwrap();
    assert_eq!(peeked1, consumed);
    assert_eq!(consumed.character, '+');
    assert_eq!(consumed.location, Location { line: 1, column: 2 });

    let after = lexer.next().unwrap();
    assert_eq!(after.character, '-');
}

#[test]
fn peek_does_not_skip_ahead() {
    let mut lexer = Lexer::new(b"+-".to_vec());
    assert_eq!(lexer.peek().unwrap().character, '+');
    assert_eq!(lexer.peek().unwrap().character, '+');
    assert_eq!(lexer.next().unwrap().character, '+');
    assert_eq!(lexer.peek().unwrap().character, '-');
    assert_eq!(lexer.next().unwrap().character, '-');
    assert!(lexer.peek().is_none());
    assert!(lexer.next().is_none());
}

#[test]
fn location_advances_column_by_one_per_byte() {
    let loc = Location { line: 3, column: 7 };
    let next = loc.advanced(b'x');
    assert_eq!(next, Location { line: 3, column: 8 });
}

#[test]
fn location_newline_advances_line_and_resets_column() {
    let loc = Location { line: 3, column: 7 };
    let next = loc.advanced(b'\n');
    assert_eq!(next, Location { line: 4, column: 1 });
}

#[test]
fn location_default_is_line_one_column_one() {
    assert_eq!(Location::default(), Location { line: 1, column: 1 });
}

#[test]
fn end_of_input_is_idempotent() {
    let mut lexer = Lexer::new(b"+".to_vec());
    assert_eq!(lexer.next().unwrap().character, '+');
    assert!(lexer.next().is_none());
    assert!(lexer.next().is_none());
    assert!(lexer.next().is_none());
    assert!(lexer.peek().is_none());
    assert!(lexer.next().is_none());
}

#[test]
fn example_program_tokens_and_positions() {
    let tokens = lex_all(b"+[>,.]\n-");
    let expected = vec![
        ('+', 1, 1),
        ('[', 1, 2),
        ('>', 1, 3),
        (',', 1, 4),
        ('.', 1, 5),
        (']', 1, 6),
        ('-', 2, 1),
    ];
    assert_eq!(tokens.len(), expected.len());
    for (token, (character, line, column)) in tokens.iter().zip(expected.iter()) {
        assert_eq!(token.character, *character);
        assert_eq!(token.location.line, *line);
        assert_eq!(token.location.column, *column);
    }
}

#[test]
fn letters_are_skipped_but_count_toward_columns() {
    let tokens = lex_all(b"hello+world");
    assert_eq!(tokens.len(), 1);
    assert_eq!(tokens[0].character, '+');
    assert_eq!(tokens[0].location, Location { line: 1, column: 6 });
}

#[test]
fn membership_of_the_eight_symbols() {
    for c in ['>', '<', '+', '-', '.', ',', '[', ']'] {
        assert!(Lexer::in_language(c));
    }
    for c in ['a', 'z', ' ', '\n', '\t', '0', '"', ';', '{', '}'] {
        assert!(!Lexer::in_language(c));
    }
}

#[test]
fn trailing_symbol_before_end_of_input_is_emitted() {
    let mut lexer = Lexer::new(b"abc]".to_vec());
    let token = lexer.next().unwrap();
    assert_eq!(token.character, ']');
    assert_eq!(token.location, Location { line: 1, column: 4 });
    assert!(lexer.next().is_none());
}

#[test]
fn multiple_newlines_track_lines() {
    let tokens = lex_all(b".\n.\nxx.\n.");
    let expected = vec![('.', 1, 1), ('.', 2, 1), ('.', 3, 3), ('.', 4, 1)];
    assert_eq!(tokens.len(), expected.len());
    for (token, (character, line, column)) in tokens.iter().zip(expected.iter()) {
        assert_eq!(token.character, *character);
        assert_eq!(token.location.line, *line);
        assert_eq!(token.location.column, *column);
    }
}
