//! Lexical analysis.
use vstd::prelude::*;
use vstd::utf8::encode_utf8;

use crate::definitions::Span;
use crate::parser::text::{
    byte_offset, chars_of, is_alphanumeric, is_ascii_digit, is_digit, is_ident_char,
    is_legal_ident_char,
    lemma_byte_offset_mono, lemma_byte_offset_split, lemma_byte_offset_step, len_utf8,
    string_of_chars, string_push,
};

verus! {

/// The kinds of token.
#[derive(Debug, Clone, Copy, PartialEq, Eq, Structural)]
pub enum TokenType {
    // identifiers and literals
    Ident,
    Number,
    // keywords
    Lambda,  // λ
    Universe,  // 𝒰
    // operators
    Colon,  // :
    Assign,  // :≡
    To,  // ->
    FatArrow,  // =>
    Eq,  // =
    Dot,  // .
    Comma,  // ,
    Product,  // ×
    LeftPar,  // (
    RightPar,  // )
    LeftBrace,  // {
    RightBrace,  // }
    // special
    Newline,  // \n
    Eof,
    Error,
}

/// How a kind of token is named in messages.
pub open spec fn spec_describe(t: TokenType) -> Seq<char> {
    match t {
        TokenType::Ident => "identifier"@,
        TokenType::Number => "number"@,
        TokenType::Lambda => "'λ'"@,
        TokenType::Universe => "'𝒰'"@,
        TokenType::Colon => "':'"@,
        TokenType::Assign => "':≡'"@,
        TokenType::To => "'->'"@,
        TokenType::FatArrow => "'=>'"@,
        TokenType::Eq => "'='"@,
        TokenType::Dot => "'.'"@,
        TokenType::Comma => "','"@,
        TokenType::Product => "'×'"@,
        TokenType::LeftPar => "'('"@,
        TokenType::RightPar => "')'"@,
        TokenType::LeftBrace => "'{'"@,
        TokenType::RightBrace => "'}'"@,
        TokenType::Newline => "new line"@,
        TokenType::Eof => "end of file"@,
        TokenType::Error => "unresolved symbol"@,
    }
}

impl TokenType {
    /// How this kind of token is named in messages.
    pub fn describe(&self) -> (s: &'static str)
        ensures
            s@ == spec_describe(*self),
    {
        match self {
            TokenType::Ident => "identifier",
            TokenType::Number => "number",
            TokenType::Lambda => "'λ'",
            TokenType::Universe => "'𝒰'",
            TokenType::Colon => "':'",
            TokenType::Assign => "':≡'",
            TokenType::To => "'->'",
            TokenType::FatArrow => "'=>'",
            TokenType::Eq => "'='",
            TokenType::Dot => "'.'",
            TokenType::Comma => "','",
            TokenType::Product => "'×'",
            TokenType::LeftPar => "'('",
            TokenType::RightPar => "')'",
            TokenType::LeftBrace => "'{'",
            TokenType::RightBrace => "'}'",
            TokenType::Newline => "new line",
            TokenType::Eof => "end of file",
            TokenType::Error => "unresolved symbol",
        }
    }
}

/// A token: its kind, where it stands, and its text.
#[derive(Debug, PartialEq, Eq)]
pub struct Token {
    pub class: TokenType,
    pub span: Span,
    pub literal: String,
}

/// A token with its text as a sequence of characters.
pub struct TokenView {
    pub class: TokenType,
    pub span: Span,
    pub literal: Seq<char>,
}

impl View for Token {
    type V = TokenView;

    open spec fn view(&self) -> TokenView {
        TokenView { class: self.class, span: self.span, literal: self.literal@ }
    }
}

impl Clone for Token {
    fn clone(&self) -> (r: Self)
        ensures
            r == *self,
    {
        Token { class: self.class, span: self.span, literal: self.literal.clone() }
    }
}

impl Token {
    pub fn new(class: TokenType, span: Span, literal: &str) -> (t: Self)
        ensures
            t.class == class,
            t.span == span,
            t@.literal == literal@,
    {
        Token { class, span, literal: literal.to_owned() }
    }
}

/// A source of tokens.
pub trait TokenStream<'src> {
    /// Whether the stream is in a state from which it can go on.
    spec fn stream_ok(&self) -> bool;

    /// Takes the next token.
    fn next_token(&mut self) -> (t: Token)
        requires
            old(self).stream_ok(),
        ensures
            final(self).stream_ok(),
    ;
}

// ============ The token language ============

/// Spaces, tabs and carriage returns.
pub open spec fn is_blank(c: char) -> bool {
    c == ' ' || c == '\t' || c == '\r'
}

/// The index of the first line feed at or after `i`, or the end of `src`.
pub open spec fn line_end(src: Seq<char>, i: int) -> int
    decreases src.len() - i,
{
    if i >= src.len() || src[i] == '\n' {
        i
    } else {
        line_end(src, i + 1)
    }
}

/// The index just past the first `*/` at or after `i`, or the end of `src`.
pub open spec fn block_end(src: Seq<char>, i: int) -> int
    decreases src.len() - i,
{
    if i >= src.len() {
        i
    } else if src[i] == '*' && i + 1 < src.len() && src[i + 1] == '/' {
        i + 2
    } else {
        block_end(src, i + 1)
    }
}

pub proof fn lemma_line_end(src: Seq<char>, i: int)
    requires
        0 <= i <= src.len(),
    ensures
        i <= line_end(src, i) <= src.len(),
        forall|k: int| i <= k < line_end(src, i) ==> src[k] != '\n',
        line_end(src, i) < src.len() ==> src[line_end(src, i)] == '\n',
    decreases src.len() - i,
{
    if i < src.len() && src[i] != '\n' {
        lemma_line_end(src, i + 1);
    }
}

pub proof fn lemma_block_end(src: Seq<char>, i: int)
    requires
        0 <= i <= src.len(),
    ensures
        i <= block_end(src, i) <= src.len(),
    decreases src.len() - i,
{
    if i < src.len() && !(src[i] == '*' && i + 1 < src.len() && src[i + 1] == '/') {
        lemma_block_end(src, i + 1);
    }
}

/// Skips blanks, line feeds and comments from index `i`: the index where the next
/// token starts, whether a line feed outside a comment was passed, and whether a
/// lone `/` was passed (which ends the skipping just after it).
pub open spec fn skip_ws(src: Seq<char>, i: int) -> (int, bool, bool)
    decreases src.len() - i,
{
    if i < 0 || i >= src.len() {
        (i, false, false)
    } else if is_blank(src[i]) {
        skip_ws(src, i + 1)
    } else if src[i] == '\n' {
        let r = skip_ws(src, i + 1);
        (r.0, true, r.2)
    } else if src[i] == '/' {
        if i + 1 < src.len() && src[i + 1] == '/' {
            proof {
                lemma_line_end(src, i + 1);
            }
            skip_ws(src, line_end(src, i + 1))
        } else if i + 1 < src.len() && src[i + 1] == '*' {
            proof {
                lemma_block_end(src, i + 2);
            }
            skip_ws(src, block_end(src, i + 2))
        } else {
            (i + 1, false, true)
        }
    } else {
        (i, false, false)
    }
}

/// The end of the run of ASCII digits that starts at `i`.
pub open spec fn digits_end(src: Seq<char>, i: int) -> int
    decreases src.len() - i,
{
    if i >= 0 && i < src.len() && is_digit(src[i]) {
        digits_end(src, i + 1)
    } else {
        i
    }
}

/// The end of the run of identifier characters that starts at `i`.
pub open spec fn ident_end(src: Seq<char>, i: int) -> int
    decreases src.len() - i,
{
    if i >= 0 && i < src.len() && is_ident_char(src[i]) {
        ident_end(src, i + 1)
    } else {
        i
    }
}

/// The kind of a word: a keyword, or else an identifier.
pub open spec fn word_class(word: Seq<char>) -> TokenType {
    if word == seq!['λ'] {
        TokenType::Lambda
    } else if word == seq!['𝒰'] {
        TokenType::Universe
    } else {
        TokenType::Ident
    }
}

/// The span of the characters `src[from..to]`, in bytes.
pub open spec fn char_span(src: Seq<char>, from: int, to: int) -> Span {
    Span { start: byte_offset(src, from) as usize, end: byte_offset(src, to) as usize }
}

pub open spec fn token_view(
    class: TokenType,
    src: Seq<char>,
    from: int,
    to: int,
    literal: Seq<char>,
) -> TokenView {
    TokenView { class, span: char_span(src, from, to), literal }
}

/// The token that starts with the character at `j` (which is no blank and no
/// comment), and the index just past it. A two-character operator's span covers its
/// first character only.
pub open spec fn scan_token(src: Seq<char>, j: int) -> (TokenView, int) {
    let c = src[j];
    let next_is = |d: char| j + 1 < src.len() && src[j + 1] == d;
    if c == '.' {
        (token_view(TokenType::Dot, src, j, j + 1, "."@), j + 1)
    } else if c == ',' {
        (token_view(TokenType::Comma, src, j, j + 1, ","@), j + 1)
    } else if c == '×' {
        (token_view(TokenType::Product, src, j, j + 1, "×"@), j + 1)
    } else if c == '(' {
        (token_view(TokenType::LeftPar, src, j, j + 1, "("@), j + 1)
    } else if c == ')' {
        (token_view(TokenType::RightPar, src, j, j + 1, ")"@), j + 1)
    } else if c == '{' {
        (token_view(TokenType::LeftBrace, src, j, j + 1, "{"@), j + 1)
    } else if c == '}' {
        (token_view(TokenType::RightBrace, src, j, j + 1, "}"@), j + 1)
    } else if c == ':' {
        if next_is('≡') {
            (token_view(TokenType::Assign, src, j, j + 1, ":≡"@), j + 2)
        } else {
            (token_view(TokenType::Colon, src, j, j + 1, ":"@), j + 1)
        }
    } else if c == '-' {
        if next_is('>') {
            (token_view(TokenType::To, src, j, j + 1, "->"@), j + 2)
        } else {
            (token_view(TokenType::Error, src, j, j + 1, "-"@), j + 1)
        }
    } else if c == '=' {
        if next_is('>') {
            (token_view(TokenType::FatArrow, src, j, j + 1, "=>"@), j + 2)
        } else {
            (token_view(TokenType::Eq, src, j, j + 1, "="@), j + 1)
        }
    } else if is_digit(c) {
        let k = digits_end(src, j + 1);
        (token_view(TokenType::Number, src, j, k, src.subrange(j, k)), k)
    } else if is_ident_char(c) {
        let k = ident_end(src, j + 1);
        let word = src.subrange(j, k);
        (token_view(word_class(word), src, j, k, word), k)
    } else {
        (token_view(TokenType::Error, src, j, j + 1, seq![c]), j + 1)
    }
}

/// The token that the lexer returns when it stands at index `i` of `src`, and the
/// index where it stands afterwards. After passing a line feed it returns a `Newline`
/// token in place of the next one; after a lone `/` it returns an `Error` token for it.
pub open spec fn spec_next_token(src: Seq<char>, i: int) -> (TokenView, int) {
    let (j, crossed, slashed) = skip_ws(src, i);
    if crossed {
        (token_view(TokenType::Newline, src, j, j, "\n"@), j)
    } else if slashed {
        (token_view(TokenType::Error, src, j - 1, j, "/"@), j)
    } else if j >= src.len() {
        (token_view(TokenType::Eof, src, j, j, ""@), j)
    } else {
        scan_token(src, j)
    }
}

// ============ The lexer ============

/// Turns source text into tokens, one at a time.
#[derive(Clone)]
pub struct Lexer<'src> {
    /// The text being read.
    literal: &'src str,
    /// Its characters.
    chars: Vec<char>,
    /// The index of the next character to read.
    index: usize,
    /// The byte offset of the next character to read.
    pos: usize,
    /// Whether the last skip of blanks passed a line feed.
    crossed_newline: bool,
    /// Whether the last skip of blanks passed a lone `/`.
    skipped_slash: bool,
}

impl<'src> Lexer<'src> {
    /// The characters of the source text.
    pub closed spec fn source(&self) -> Seq<char> {
        self.chars@
    }

    /// The index of the next character to read.
    pub closed spec fn char_index(&self) -> int {
        self.index as int
    }

    /// The internal consistency of the lexer.
    pub closed spec fn wf(&self) -> bool {
        &&& self.chars@ == self.literal@
        &&& self.index <= self.chars.len()
        &&& self.pos == byte_offset(self.chars@, self.index as int)
        &&& byte_offset(self.chars@, self.chars@.len() as int) <= usize::MAX
    }

    /// Whether the last token was taken after passing a line feed.
    pub closed spec fn spec_crossed_newline(&self) -> bool {
        self.crossed_newline
    }

    /// What a lexer in a consistent state holds: it stands within its source, and the
    /// UTF-8 encoding of the source fits in `usize`.
    pub proof fn lemma_stream_ok(&self)
        requires
            self.stream_ok(),
        ensures
            0 <= self.char_index() <= self.source().len(),
            encode_utf8(self.source()).len() <= usize::MAX,
    {
        assert(self.chars@.take(self.chars@.len() as int) =~= self.chars@);
    }

    pub fn new(literal: &'src str) -> (l: Self)
        requires
            encode_utf8(literal@).len() <= usize::MAX,
        ensures
            l.wf(),
            l.source() == literal@,
            l.char_index() == 0,
            !l.spec_crossed_newline(),
            0 <= l.char_index() <= l.source().len(),
    {
        let chars = chars_of(literal);
        assert(chars@.take(0) =~= Seq::<char>::empty());
        assert(chars@.take(chars@.len() as int) =~= chars@);
        Lexer { literal, chars, index: 0, pos: 0, crossed_newline: false, skipped_slash: false }
    }

    /// Whether the last token was taken after passing a line feed.
    pub fn crossed_newline(&self) -> (r: bool)
        ensures
            r == self.spec_crossed_newline(),
    {
        self.crossed_newline
    }

    /// The next character, without taking it.
    fn peek(&self) -> (r: Option<char>)
        requires
            self.wf(),
        ensures
            self.index < self.chars.len() ==> r == Some(self.chars@[self.index as int]),
            self.index >= self.chars.len() ==> r is None,
    {
        if self.index < self.chars.len() {
            Some(self.chars[self.index])
        } else {
            None
        }
    }

    /// Whether there is a next character and it is no line feed.
    fn next_is_in_line(&self) -> (r: bool)
        requires
            self.wf(),
        ensures
            r == (self.index < self.chars.len() && self.chars@[self.index as int] != '\n'),
    {
        match self.peek() {
            Some(c) => c != '\n',
            None => false,
        }
    }

    /// Whether there is a next character and it may stand in an identifier.
    fn next_is_ident_char(&self) -> (r: bool)
        requires
            self.wf(),
        ensures
            r == (self.index < self.chars.len() && is_ident_char(self.chars@[self.index as int])),
    {
        match self.peek() {
            Some(c) => is_legal_ident_char(c),
            None => false,
        }
    }

    /// Whether there is a next character and it is an ASCII digit.
    fn next_is_digit(&self) -> (r: bool)
        requires
            self.wf(),
        ensures
            r == (self.index < self.chars.len() && is_digit(self.chars@[self.index as int])),
    {
        match self.peek() {
            Some(c) => is_ascii_digit(c),
            None => false,
        }
    }

    /// Takes the next character.
    fn advance(&mut self) -> (r: Option<char>)
        requires
            old(self).wf(),
        ensures
            final(self).wf(),
            final(self).literal == old(self).literal,
            final(self).chars@ == old(self).chars@,
            final(self).crossed_newline == old(self).crossed_newline,
            final(self).skipped_slash == old(self).skipped_slash,
            old(self).index < old(self).chars.len() ==> r == Some(old(self).chars@[old(self).index as int])
                && final(self).index == old(self).index + 1,
            old(self).index >= old(self).chars.len() ==> r is None && final(self).index
                == old(self).index,
    {
        if self.index < self.chars.len() {
            let c = self.chars[self.index];
            proof {
                lemma_byte_offset_step(self.chars@, self.index as int);
                lemma_byte_offset_mono(self.chars@, self.index + 1, self.chars@.len() as int);
            }
            self.pos = self.pos + len_utf8(c);
            self.index = self.index + 1;
            Some(c)
        } else {
            None
        }
    }

    /// Skips blanks, line feeds and comments, and records whether a line feed or a
    /// lone `/` was passed.
    fn skip_whitespace(&mut self)
        requires
            old(self).wf(),
        ensures
            final(self).wf(),
            final(self).literal == old(self).literal,
            final(self).chars@ == old(self).chars@,
            (final(self).index as int, final(self).crossed_newline, final(self).skipped_slash)
                == skip_ws(old(self).chars@, old(self).index as int),
    {
        let ghost src = self.chars@;
        let ghost start = self.index as int;
        self.crossed_newline = false;
        self.skipped_slash = false;
        loop
            invariant_except_break
                self.wf(),
                self.chars@ == src,
                !self.skipped_slash,
                self.literal == old(self).literal,
                skip_ws(src, start) == (
                    skip_ws(src, self.index as int).0,
                    self.crossed_newline || skip_ws(src, self.index as int).1,
                    skip_ws(src, self.index as int).2,
                ),
            ensures
                self.wf(),
                self.chars@ == src,
                skip_ws(src, start) == (
                    self.index as int,
                    self.crossed_newline,
                    self.skipped_slash,
                ),
                self.literal == old(self).literal,
            decreases self.chars.len() - self.index,
        {
            match self.peek() {
                Some(' ') | Some('\t') | Some('\r') => {
                    self.advance();
                },
                Some('\n') => {
                    self.advance();
                    self.crossed_newline = true;
                },
                Some('/') => {
                    let ghost i = self.index as int;
                    let ghost crossed = self.crossed_newline;
                    self.advance();
                    if self.peek() == Some('/') {
                        // a line comment
                        proof {
                            lemma_line_end(src, i + 1);
                        }
                        while self.next_is_in_line()
                            invariant
                                self.wf(),
                                self.chars@ == src,
                                self.literal == old(self).literal,
                                i + 1 <= self.index <= line_end(src, i + 1),
                                line_end(src, self.index as int) == line_end(src, i + 1),
                                !self.skipped_slash,
                                self.crossed_newline == crossed,
                            decreases self.chars.len() - self.index,
                        {
                            proof {
                                lemma_line_end(src, self.index + 1);
                            }
                            self.advance();
                        }
                        proof {
                            lemma_line_end(src, i + 1);
                        }
                    } else if self.peek() == Some('*') {
                        // a block comment; `/*/` does not close it
                        self.advance();
                        proof {
                            lemma_block_end(src, i + 2);
                        }
                        loop
                            invariant_except_break
                                self.wf(),
                                self.chars@ == src,
                                self.literal == old(self).literal,
                                i + 2 <= self.index <= src.len(),
                                block_end(src, self.index as int) == block_end(src, i + 2),
                                !self.skipped_slash,
                                self.crossed_newline == crossed,
                            ensures
                                self.wf(),
                                self.chars@ == src,
                                self.literal == old(self).literal,
                                self.index == block_end(src, i + 2),
                                !self.skipped_slash,
                                self.crossed_newline == crossed,
                            decreases self.chars.len() - self.index,
                        {
                            match self.peek() {
                                Some(c) => {
                                    self.advance();
                                    if c == '*' {
                                        if self.peek() == Some('/') {
                                            self.advance();
                                            break ;
                                        }
                                    }
                                },
                                None => {
                                    break ;
                                },
                            }
                        }
                    } else {
                        // no comment
                        self.skipped_slash = true;
                        break ;
                    }
                },
                _ => {
                    break ;
                },
            }
        }
    }

    /// Reads the rest of a word whose first character was just taken.
    fn read_ident(&mut self, start: usize) -> (t: Token)
        requires
            old(self).wf(),
            0 < old(self).index <= old(self).chars.len(),
            is_ident_char(old(self).chars@[old(self).index - 1]),
            start == byte_offset(old(self).chars@, old(self).index - 1),
        ensures
            final(self).wf(),
            final(self).literal == old(self).literal,
            final(self).chars@ == old(self).chars@,
            final(self).crossed_newline == old(self).crossed_newline,
            final(self).skipped_slash == old(self).skipped_slash,
            ({
                let src = old(self).chars@;
                let j = old(self).index - 1;
                let k = ident_end(src, j + 1);
                &&& final(self).index == k
                &&& t@ == token_view(word_class(src.subrange(j, k)), src, j, k, src.subrange(j, k))
            }),
    {
        let ghost src = self.chars@;
        let first = self.index - 1;
        while self.next_is_ident_char()
            invariant
                self.wf(),
                self.chars@ == src,
                self.literal == old(self).literal,
                self.crossed_newline == old(self).crossed_newline,
                self.skipped_slash == old(self).skipped_slash,
                old(self).index <= self.index,
                ident_end(src, self.index as int) == ident_end(src, old(self).index as int),
            decreases self.chars.len() - self.index,
        {
            self.advance();
        }
        let literal = string_of_chars(&self.chars, first, self.index);
        let class = if self.index - first == 1 && self.chars[first] == 'λ' {
            TokenType::Lambda
        } else if self.index - first == 1 && self.chars[first] == '𝒰' {
            TokenType::Universe
        } else {
            TokenType::Ident
        };
        proof {
            let word = src.subrange(first as int, self.index as int);
            if word == seq!['λ'] || word == seq!['𝒰'] {
                assert(word.len() == 1 && word[0] == src[first as int]);
            }
            if self.index - first == 1 {
                assert(word =~= seq![src[first as int]]);
            }
        }
        Token { class, span: Span::new(start, self.pos), literal }
    }

    /// Reads the rest of a number whose first digit was just taken.
    fn read_number(&mut self, start: usize) -> (t: Token)
        requires
            old(self).wf(),
            0 < old(self).index <= old(self).chars.len(),
            start == byte_offset(old(self).chars@, old(self).index - 1),
        ensures
            final(self).wf(),
            final(self).literal == old(self).literal,
            final(self).chars@ == old(self).chars@,
            final(self).crossed_newline == old(self).crossed_newline,
            final(self).skipped_slash == old(self).skipped_slash,
            ({
                let src = old(self).chars@;
                let j = old(self).index - 1;
                let k = digits_end(src, j + 1);
                &&& final(self).index == k
                &&& t@ == token_view(TokenType::Number, src, j, k, src.subrange(j, k))
            }),
    {
        let ghost src = self.chars@;
        let first = self.index - 1;
        while self.next_is_digit()
            invariant
                self.wf(),
                self.chars@ == src,
                self.literal == old(self).literal,
                self.crossed_newline == old(self).crossed_newline,
                self.skipped_slash == old(self).skipped_slash,
                old(self).index <= self.index,
                digits_end(src, self.index as int) == digits_end(src, old(self).index as int),
            decreases self.chars.len() - self.index,
        {
            self.advance();
        }
        let literal = string_of_chars(&self.chars, first, self.index);
        Token { class: TokenType::Number, span: Span::new(start, self.pos), literal }
    }
}

impl<'src> TokenStream<'src> for Lexer<'src> {
    open spec fn stream_ok(&self) -> bool {
        self.wf()
    }

    fn next_token(&mut self) -> (t: Token)
        ensures
            final(self).source() == old(self).source(),
            (t@, final(self).char_index()) == spec_next_token(
                old(self).source(),
                old(self).char_index(),
            ),
            final(self).spec_crossed_newline() == skip_ws(
                old(self).source(),
                old(self).char_index(),
            ).1,
            0 <= final(self).char_index() <= final(self).source().len(),
            final(self).spec_crossed_newline() == (t.class == TokenType::Newline),
    {
        let ghost src = self.chars@;
        proof {
            lemma_skip_ws(src, self.index as int);
            lemma_next_token(src, self.index as int);
        }
        self.skip_whitespace();  // skip blanks and comments

        if self.crossed_newline {
            return Token::new(TokenType::Newline, Span::new(self.pos, self.pos), "\n");
        }
        if self.skipped_slash {
            proof {
                lemma_byte_offset_step(src, self.index - 1);
            }
            return Token::new(TokenType::Error, Span::new(self.pos - 1, self.pos), "/");
        }

        let start = self.pos;
        let c = match self.advance() {
            Some(c) => c,
            None => {
                return Token::new(TokenType::Eof, Span::new(start, start), "");
            },
        };
        let span = Span::new(start, self.pos);
        proof {
            lemma_digits_end(src, self.index as int);
            lemma_ident_end(src, self.index as int);
        }

        match c {
            // single characters
            '.' => Token::new(TokenType::Dot, span, "."),
            ',' => Token::new(TokenType::Comma, span, ","),
            '×' => Token::new(TokenType::Product, span, "×"),
            '(' => Token::new(TokenType::LeftPar, span, "("),
            ')' => Token::new(TokenType::RightPar, span, ")"),
            '{' => Token::new(TokenType::LeftBrace, span, "{"),
            '}' => Token::new(TokenType::RightBrace, span, "}"),
            // two characters, taken whenever they stand together
            ':' => {
                if self.peek() == Some('≡') {
                    self.advance();
                    Token::new(TokenType::Assign, span, ":≡")
                } else {
                    Token::new(TokenType::Colon, span, ":")
                }
            },
            '-' => {
                if self.peek() == Some('>') {
                    self.advance();
                    Token::new(TokenType::To, span, "->")
                } else {
                    Token::new(TokenType::Error, span, "-")
                }
            },
            '=' => {
                if self.peek() == Some('>') {
                    self.advance();
                    Token::new(TokenType::FatArrow, span, "=>")
                } else {
                    Token::new(TokenType::Eq, span, "=")
                }
            },
            // number literals
            _ if is_ascii_digit(c) => self.read_number(start),
            // identifiers and keywords
            _ if is_legal_ident_char(c) => self.read_ident(start),
            // anything else
            _ => {
                let mut literal = String::new();
                string_push(&mut literal, c);
                proof {
                    assert(literal@ =~= seq![c]);
                }
                Token { class: TokenType::Error, span, literal }
            },
        }
    }
}

/// Every token but the end of the input moves the lexer forward; at the end it stays.
pub proof fn lemma_next_token(src: Seq<char>, i: int)
    requires
        0 <= i <= src.len(),
    ensures
        i <= spec_next_token(src, i).1 <= src.len(),
        spec_next_token(src, i).0.class != TokenType::Eof ==> spec_next_token(src, i).1 > i,
        spec_next_token(src, i).0.class == TokenType::Eof ==> spec_next_token(src, i).1
            == src.len(),
{
    lemma_skip_ws(src, i);
    let j = skip_ws(src, i).0;
    if j < src.len() {
        lemma_digits_end(src, j + 1);
        lemma_ident_end(src, j + 1);
    }
}

/// The tokens that the lexer returns from index `i` of `src` on, up to and including
/// the first `Eof`.
pub open spec fn lex_from(src: Seq<char>, i: int) -> Seq<TokenView>
    decreases src.len() - i,
    when 0 <= i <= src.len()
{
    let (t, k) = spec_next_token(src, i);
    if t.class == TokenType::Eof {
        seq![t]
    } else {
        proof {
            lemma_next_token(src, i);
        }
        seq![t] + lex_from(src, k)
    }
}

/// All the tokens of `src`, up to and including the first `Eof`.
pub open spec fn tokens_of(src: Seq<char>) -> Seq<TokenView> {
    lex_from(src, 0)
}

/// The token list ends with its only `Eof`, and each token is followed by the tokens
/// that the lexer returns from where that token ends.
pub proof fn lemma_lex_from(src: Seq<char>, i: int)
    requires
        0 <= i <= src.len(),
    ensures
        lex_from(src, i).len() >= 1,
        lex_from(src, i)[0] == spec_next_token(src, i).0,
        lex_from(src, i).last().class == TokenType::Eof,
        forall|m: int|
            0 <= m < lex_from(src, i).len() - 1 ==> #[trigger] lex_from(src, i)[m].class
                != TokenType::Eof,
        spec_next_token(src, i).0.class != TokenType::Eof ==> lex_from(src, i).skip(1) == lex_from(
            src,
            spec_next_token(src, i).1,
        ),
    decreases src.len() - i,
{
    lemma_next_token(src, i);
    let (t, k) = spec_next_token(src, i);
    if t.class != TokenType::Eof {
        lemma_lex_from(src, k);
        let rest = lex_from(src, k);
        assert(lex_from(src, i) == seq![t] + rest);
        assert(lex_from(src, i).skip(1) =~= rest);
        assert forall|m: int| 0 <= m < lex_from(src, i).len() - 1 implies #[trigger] lex_from(
            src,
            i,
        )[m].class != TokenType::Eof by {
            if m > 0 {
                assert(lex_from(src, i)[m] == rest[m - 1]);
            }
        }
    }
}

/// Once the lexer has returned the end of the input, it returns the same end token
/// again, and stays where it is.
pub proof fn law_eof_is_final(src: Seq<char>, i: int)
    requires
        0 <= i <= src.len(),
        spec_next_token(src, i).0.class == TokenType::Eof,
    ensures
        spec_next_token(src, spec_next_token(src, i).1) == spec_next_token(src, i),
{
    lemma_next_token(src, i);
}

/// Where the token that the lexer returns at index `i` stands: the characters
/// `src[a..b]` that its span covers, between where the lexer stood and where it
/// stands afterwards; and, unless it is a `Newline` or `Eof` token, its text, which
/// is written in the source from index `a` on.
pub proof fn lemma_token_place(src: Seq<char>, i: int) -> (r: (int, int))
    requires
        0 <= i <= src.len(),
    ensures
        ({
            let (t, k) = spec_next_token(src, i);
            let (a, b) = r;
            &&& i <= a <= b <= k
            &&& t.span == char_span(src, a, b)
            &&& t.class == TokenType::Newline ==> t.literal == "\n"@ && a == b
            &&& t.class == TokenType::Eof ==> t.literal == ""@ && a == b
            &&& t.class != TokenType::Newline && t.class != TokenType::Eof ==> {
                &&& 1 <= t.literal.len()
                &&& a + t.literal.len() <= k
                &&& t.literal == src.subrange(a, a + t.literal.len())
                &&& t.class != TokenType::To && t.class != TokenType::FatArrow && t.class
                    != TokenType::Assign ==> b == a + t.literal.len()
            }
        }),
{
    lemma_skip_ws(src, i);
    lemma_next_token(src, i);
    let (j, crossed, slashed) = skip_ws(src, i);
    let (t, k) = spec_next_token(src, i);
    if crossed {
        (j, j)
    } else if slashed {
        reveal_strlit("/");
        assert(src.subrange(j - 1, j) =~= seq!['/']);
        (j - 1, j)
    } else if j >= src.len() {
        (j, j)
    } else {
        let word = t.class == TokenType::Number || t.class == TokenType::Ident || t.class
            == TokenType::Lambda || t.class == TokenType::Universe;
        lemma_digits_end(src, j + 1);
        lemma_ident_end(src, j + 1);
        reveal_strlit(".");
        reveal_strlit(",");
        reveal_strlit("×");
        reveal_strlit("(");
        reveal_strlit(")");
        reveal_strlit("{");
        reveal_strlit("}");
        reveal_strlit(":≡");
        reveal_strlit(":");
        reveal_strlit("->");
        reveal_strlit("-");
        reveal_strlit("=>");
        reveal_strlit("=");
        if k == j + 2 {
            assert(t.literal =~= src.subrange(j, j + 2));
        } else if word {
            assert(t.literal =~= src.subrange(j, k));
        } else {
            assert(t.literal =~= src.subrange(j, j + 1));
        }
        (j, if word {
            k
        } else {
            j + 1
        })
    }
}

/// Whether the byte offset `off` is a character boundary of `src`.
pub open spec fn on_char_boundary(src: Seq<char>, off: int) -> bool {
    exists|m: int| 0 <= m <= src.len() && #[trigger] byte_offset(src, m) == off
}

/// The tokens that two calls in a row return come in the order of the source and do
/// not overlap, and their spans begin and end on character boundaries.
pub proof fn law_spans_in_order(src: Seq<char>, i: int)
    requires
        0 <= i <= src.len(),
        encode_utf8(src).len() <= usize::MAX,
    ensures
        ({
            let (t1, k1) = spec_next_token(src, i);
            let t2 = spec_next_token(src, k1).0;
            &&& t1.span.start <= t1.span.end <= t2.span.start <= t2.span.end <= encode_utf8(
                src,
            ).len()
            &&& on_char_boundary(src, t1.span.start as int)
            &&& on_char_boundary(src, t1.span.end as int)
            &&& on_char_boundary(src, t2.span.start as int)
            &&& on_char_boundary(src, t2.span.end as int)
        }),
{
    lemma_next_token(src, i);
    let k1 = spec_next_token(src, i).1;
    lemma_next_token(src, k1);
    let (a1, b1) = lemma_token_place(src, i);
    let (a2, b2) = lemma_token_place(src, k1);
    lemma_byte_offset_mono(src, a1, b1);
    lemma_byte_offset_mono(src, b1, a2);
    lemma_byte_offset_mono(src, a2, b2);
    lemma_byte_offset_mono(src, b2, src.len() as int);
    lemma_byte_offset_mono(src, 0, a1);
    assert(src.take(src.len() as int) =~= src);
    assert(byte_offset(src, a1) >= 0);
}

/// At most one more token than the source has characters comes before the end of
/// the input.
pub proof fn law_token_count(src: Seq<char>, i: int)
    requires
        0 <= i <= src.len(),
    ensures
        lex_from(src, i).len() <= src.len() - i + 1,
    decreases src.len() - i,
{
    lemma_next_token(src, i);
    let (t, k) = spec_next_token(src, i);
    if t.class != TokenType::Eof {
        law_token_count(src, k);
    }
}

/// Each token's text stands in the source where its span begins; a `Newline` token
/// is an empty span with the text of a line feed, and `Eof` has no text. Except for
/// the two-character operators `:≡`, `->` and `=>`, whose span covers their first
/// character only, a token's span covers exactly its text.
pub proof fn law_token_text(src: Seq<char>, i: int)
    requires
        0 <= i <= src.len(),
        encode_utf8(src).len() <= usize::MAX,
    ensures
        ({
            let t = spec_next_token(src, i).0;
            let bytes = encode_utf8(src);
            let text = encode_utf8(t.literal);
            let start = t.span.start as int;
            &&& t.class == TokenType::Newline ==> t.literal == "\n"@ && t.span.start == t.span.end
            &&& t.class == TokenType::Eof ==> t.literal == ""@
            &&& t.class != TokenType::Newline && t.class != TokenType::Eof ==> {
                &&& t.literal.len() >= 1
                &&& start + text.len() <= bytes.len()
                &&& bytes.subrange(start, start + text.len()) == text
                &&& t.class != TokenType::To && t.class != TokenType::FatArrow && t.class
                    != TokenType::Assign ==> bytes.subrange(start, t.span.end as int) == text
            }
        }),
{
    lemma_next_token(src, i);
    let (t, k) = spec_next_token(src, i);
    let (a, b) = lemma_token_place(src, i);
    lemma_byte_offset_mono(src, a, b);
    lemma_byte_offset_mono(src, b, src.len() as int);
    lemma_byte_offset_mono(src, 0, a);
    assert(src.take(src.len() as int) =~= src);
    if t.class != TokenType::Newline && t.class != TokenType::Eof {
        let e = a + t.literal.len();
        lemma_byte_offset_split(src, a, e);
        lemma_byte_offset_split(src, e, src.len() as int);
        lemma_byte_offset_split(src, 0, a);
        let bytes = encode_utf8(src);
        assert(bytes =~= encode_utf8(src.take(a)) + encode_utf8(src.subrange(a, e))
            + encode_utf8(src.subrange(e, src.len() as int)));
        assert(bytes.subrange(byte_offset(src, a), byte_offset(src, e)) =~= encode_utf8(
            src.subrange(a, e),
        ));
    }
}

pub proof fn lemma_skip_ws(src: Seq<char>, i: int)
    requires
        0 <= i <= src.len(),
    ensures
        i <= skip_ws(src, i).0 <= src.len(),
        skip_ws(src, i).1 ==> skip_ws(src, i).0 > i,
        skip_ws(src, i).2 ==> skip_ws(src, i).0 > i && src[skip_ws(src, i).0 - 1] == '/',
        !skip_ws(src, i).2 && skip_ws(src, i).0 < src.len() ==> {
            let c = src[skip_ws(src, i).0];
            !is_blank(c) && c != '\n' && c != '/'
        },
    decreases src.len() - i,
{
    if i < src.len() {
        if is_blank(src[i]) || src[i] == '\n' {
            lemma_skip_ws(src, i + 1);
        } else if src[i] == '/' {
            if i + 1 < src.len() && src[i + 1] == '/' {
                lemma_line_end(src, i + 1);
                lemma_skip_ws(src, line_end(src, i + 1));
            } else if i + 1 < src.len() && src[i + 1] == '*' {
                lemma_block_end(src, i + 2);
                lemma_skip_ws(src, block_end(src, i + 2));
            }
        }
    }
}

pub proof fn lemma_digits_end(src: Seq<char>, i: int)
    requires
        0 <= i <= src.len(),
    ensures
        i <= digits_end(src, i) <= src.len(),
    decreases src.len() - i,
{
    if i < src.len() && is_digit(src[i]) {
        lemma_digits_end(src, i + 1);
    }
}

pub proof fn lemma_ident_end(src: Seq<char>, i: int)
    requires
        0 <= i <= src.len(),
    ensures
        i <= ident_end(src, i) <= src.len(),
    decreases src.len() - i,
{
    if i < src.len() && is_ident_char(src[i]) {
        lemma_ident_end(src, i + 1);
    }
}


/// A carriage return outside a comment is skipped like a space: the lexer returns the
/// same token, and stands at the same place afterwards, whether it starts at the
/// carriage return or just after it.
pub proof fn law_carriage_return_is_skipped(src: Seq<char>, i: int)
    requires
        0 <= i < src.len(),
        src[i] == '\r',
    ensures
        spec_next_token(src, i) == spec_next_token(src, i + 1),
{
    assert(skip_ws(src, i) == skip_ws(src, i + 1));
}

/// No `Error` token is a carriage return: carriage returns are never unrecognised.
pub proof fn law_no_carriage_return_error(src: Seq<char>, i: int)
    requires
        0 <= i <= src.len(),
    ensures
        spec_next_token(src, i).0.class == TokenType::Error ==> spec_next_token(src, i).0.literal
            != seq!['\r'],
{
    lemma_skip_ws(src, i);
    reveal_strlit("/");
    reveal_strlit("-");
    let t = spec_next_token(src, i).0;
    if t.class == TokenType::Error && t.literal == seq!['\r'] {
        assert(t.literal[0] == '\r');
    }
}

/// The end of a run of identifier characters that stops just before `j`.
proof fn lemma_ident_end_at(src: Seq<char>, i: int, j: int)
    requires
        0 <= i <= j <= src.len(),
        forall|m: int| i <= m < j ==> is_alphanumeric(#[trigger] src[m]) || src[m] == '_',
        j == src.len() || !(is_alphanumeric(src[j]) || src[j] == '_'),
    ensures
        ident_end(src, i) == j,
    decreases j - i,
{
    if i < j {
        assert(is_alphanumeric(src[i]) || src[i] == '_');
        lemma_ident_end_at(src, i + 1, j);
    }
}

/// A word of characters that are alphanumeric in the Unicode sense (or underscores),
/// beginning with a letter or an underscore, is one identifier token whose text is
/// the word, unless it is the keyword `λ` or `𝒰`. Letters outside ASCII, such as
/// Greek ones, count as letters like any other.
pub proof fn law_alphanumeric_word_is_identifier(src: Seq<char>, i: int, j: int)
    requires
        0 <= i < j <= src.len(),
        forall|m: int| i <= m < j ==> is_alphanumeric(#[trigger] src[m]) || src[m] == '_',
        j == src.len() || !(is_alphanumeric(src[j]) || src[j] == '_'),
        ('a' <= src[i] && src[i] <= 'z') || ('A' <= src[i] && src[i] <= 'Z') || src[i] == '_'
            || (src[i] as u32 >= 0x80 && src[i] != '×'),
        src.subrange(i, j) != seq!['λ'],
        src.subrange(i, j) != seq!['𝒰'],
    ensures
        spec_next_token(src, i) == (
            TokenView {
                class: TokenType::Ident,
                span: char_span(src, i, j),
                literal: src.subrange(i, j),
            },
            j,
        ),
{
    assert(is_alphanumeric(src[i]) || src[i] == '_');
    assert(skip_ws(src, i) == (i, false, false));
    lemma_ident_end_at(src, i + 1, j);
}
} // verus!
