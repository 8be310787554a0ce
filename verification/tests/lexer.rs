use ttparse::definitions::Span;
use ttparse::parser::lexer::{Lexer, Token, TokenStream, TokenType};

fn tokens(source: &str) -> Vec<TokenType> {
    let mut lexer = Lexer::new(source);
    std::iter::repeat_with(|| lexer.next_token())
        .take_while(|t| t.class != TokenType::Eof)
        .map(|token| token.class)
        .collect()
}

fn all_tokens(source: &str) -> Vec<Token> {
    let mut lexer = Lexer::new(source);
    let mut out = Vec::new();
    loop {
        let t = lexer.next_token();
        let end = t.class == TokenType::Eof;
        out.push(t);
        if end {
            return out;
        }
    }
}

fn tok(class: TokenType, start: usize, end: usize, literal: &str) -> Token {
    Token::new(class, Span::new(start, end), literal)
}

#[test]
fn test_lexer() {
    assert_eq!(
        tokens("λ (x : T) . E"),
        vec![
            TokenType::Lambda,
            TokenType::LeftPar,
            TokenType::Ident,
            TokenType::Colon,
            TokenType::Ident,
            TokenType::RightPar,
            TokenType::Dot,
            TokenType::Ident,
        ]
    );
}

#[test]
fn test_whitespace() {
    assert_eq!(
        tokens("left /* not \r\n= expr */ right"),
        vec![TokenType::Ident, TokenType::Ident]
    );

    assert_eq!(
        tokens("left / right"),
        vec![TokenType::Ident, TokenType::Error, TokenType::Ident]
    );

    assert_eq!(
        tokens("left // commented \n \t right"),
        vec![TokenType::Ident, TokenType::Newline, TokenType::Ident]
    );
}

#[test]
fn spans_are_byte_offsets() {
    assert_eq!(
        all_tokens("λ x"),
        vec![
            tok(TokenType::Lambda, 0, 2, "λ"),
            tok(TokenType::Ident, 3, 4, "x"),
            tok(TokenType::Eof, 4, 4, ""),
        ]
    );
    assert_eq!(
        all_tokens("𝒰 12"),
        vec![
            tok(TokenType::Universe, 0, 4, "𝒰"),
            tok(TokenType::Number, 5, 7, "12"),
            tok(TokenType::Eof, 7, 7, ""),
        ]
    );
}

#[test]
fn keywords_need_to_stand_alone() {
    assert_eq!(all_tokens("λx"), vec![tok(TokenType::Ident, 0, 3, "λx"), tok(TokenType::Eof, 3, 3, "")]);
    assert_eq!(tokens("x_1 2a"), vec![TokenType::Ident, TokenType::Number, TokenType::Ident]);
}

#[test]
fn two_character_operators_span_their_first_character() {
    assert_eq!(
        all_tokens("a:≡b->c=>d=e:f"),
        vec![
            tok(TokenType::Ident, 0, 1, "a"),
            tok(TokenType::Assign, 1, 2, ":≡"),
            tok(TokenType::Ident, 5, 6, "b"),
            tok(TokenType::To, 6, 7, "->"),
            tok(TokenType::Ident, 8, 9, "c"),
            tok(TokenType::FatArrow, 9, 10, "=>"),
            tok(TokenType::Ident, 11, 12, "d"),
            tok(TokenType::Eq, 12, 13, "="),
            tok(TokenType::Ident, 13, 14, "e"),
            tok(TokenType::Colon, 14, 15, ":"),
            tok(TokenType::Ident, 15, 16, "f"),
            tok(TokenType::Eof, 16, 16, ""),
        ]
    );
}

#[test]
fn single_character_tokens() {
    assert_eq!(
        tokens(". , × ( ) { }"),
        vec![
            TokenType::Dot,
            TokenType::Comma,
            TokenType::Product,
            TokenType::LeftPar,
            TokenType::RightPar,
            TokenType::LeftBrace,
            TokenType::RightBrace,
        ]
    );
}

#[test]
fn unknown_characters_are_errors() {
    assert_eq!(
        all_tokens("- # /"),
        vec![
            tok(TokenType::Error, 0, 1, "-"),
            tok(TokenType::Error, 2, 3, "#"),
            tok(TokenType::Error, 4, 5, "/"),
            tok(TokenType::Eof, 5, 5, ""),
        ]
    );
}

#[test]
fn newline_token_stands_where_the_next_token_starts() {
    assert_eq!(
        all_tokens("a\n  b"),
        vec![
            tok(TokenType::Ident, 0, 1, "a"),
            tok(TokenType::Newline, 4, 4, "\n"),
            tok(TokenType::Ident, 4, 5, "b"),
            tok(TokenType::Eof, 5, 5, ""),
        ]
    );
}

#[test]
fn unclosed_block_comment_runs_to_the_end() {
    assert_eq!(tokens("a /* b"), vec![TokenType::Ident]);
    assert_eq!(tokens("a /*/ b */ c"), vec![TokenType::Ident, TokenType::Ident]);
}

#[test]
fn end_of_input_repeats() {
    let mut lexer = Lexer::new("x ");
    assert_eq!(lexer.next_token().class, TokenType::Ident);
    let first = lexer.next_token();
    let second = lexer.next_token();
    assert_eq!(first, tok(TokenType::Eof, 2, 2, ""));
    assert_eq!(first, second);
}

#[test]
fn word_text_is_the_source_text_at_its_span() {
    let source = "αβ 𝒰 λ 123 x_y";
    for t in all_tokens(source) {
        if matches!(t.class, TokenType::Ident | TokenType::Lambda | TokenType::Universe | TokenType::Number) {
            assert_eq!(&source[t.span.start..t.span.end], t.literal.as_str());
        }
    }
}

#[test]
fn crossed_newline_is_reported() {
    let mut lexer = Lexer::new("a\nb");
    lexer.next_token();
    assert!(!lexer.crossed_newline());
    assert_eq!(lexer.next_token().class, TokenType::Newline);
    assert!(lexer.crossed_newline());
}

#[test]
fn token_type_descriptions() {
    assert_eq!(TokenType::Ident.describe(), "identifier");
    assert_eq!(TokenType::LeftBrace.describe(), "'{'");
    assert_eq!(TokenType::Assign.describe(), "':≡'");
    assert_eq!(TokenType::Eof.describe(), "end of file");
    assert_eq!(TokenType::Newline.describe(), "new line");
    assert_eq!(TokenType::Error.describe(), "unresolved symbol");
}

#[test]
fn spans_come_in_order_on_char_boundaries() {
    let source = "λ(x : 𝒰 0) . f x\n-- note\nαβ :≡ a -> b × c = d => {e} /* x */ ?";
    let toks = all_tokens(source);
    for pair in toks.windows(2) {
        let (t1, t2) = (&pair[0], &pair[1]);
        assert!(t1.span.start <= t1.span.end);
        assert!(t1.span.end <= t2.span.start);
        assert!(t2.span.start <= t2.span.end);
        assert!(t2.span.end <= source.len());
        for offset in [t1.span.start, t1.span.end, t2.span.start, t2.span.end] {
            assert!(source.is_char_boundary(offset));
        }
    }
}

#[test]
fn end_of_input_comes_within_one_call_per_character() {
    for source in ["", "x", "a b c", "λx.x", "((((", "-- c\n\n\n", "𝒰 0 1 2"] {
        let toks = all_tokens(source);
        assert!(toks.len() <= source.chars().count() + 1);
        assert_eq!(toks.last().map(|t| t.class), Some(TokenType::Eof));
    }
}

#[test]
fn token_text_stands_at_its_span() {
    let source = "λ (x : A) . f x\nαβ :≡ a -> b × c = d => {e} 12 ? ; , |";
    for t in all_tokens(source) {
        match t.class {
            TokenType::Newline => {
                assert_eq!(t.literal, "\n");
                assert_eq!(t.span.start, t.span.end);
            }
            TokenType::Eof => assert_eq!(t.literal, ""),
            _ => {
                assert!(!t.literal.is_empty());
                assert!(source[t.span.start..].starts_with(t.literal.as_str()));
                if !matches!(t.class, TokenType::To | TokenType::FatArrow | TokenType::Assign) {
                    assert_eq!(&source[t.span.start..t.span.end], t.literal.as_str());
                }
            }
        }
    }
}
