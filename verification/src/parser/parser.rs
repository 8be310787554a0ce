//! Parsing.
//!
//! ```bnf
//! program       ::= NEWLINE* (decl (NEWLINE+ decl)* NEWLINE*)?
//!
//! decl          ::= signature
//!                 | definition
//!
//! signature     ::= IDENT ':' expr
//!
//! definition    ::= IDENT ':≡' expr
//!
//! expr          ::= 'λ' IDENT '.' expr
//!                 | 'λ' '(' IDENT ':' expr ')' '.' expr
//!                 | infix_expr
//!
//! infix_expr    ::= app_expr -> app_expr
//!                 | app_expr × app_expr
//!                 | app_expr = app_expr
//!                 | app_expr
//!
//! app_expr      ::= atom+
//!
//! atom          ::= IDENT | '(' expr ')' | '𝒰' NUMBER
//! ```
//!
//! The functions `spec_parse_*` below say what each step of the parser returns;
//! `crate::parser::grammar` states this grammar as derivations and proves that the
//! parser returns exactly the trees that it derives.
use vstd::prelude::*;
use vstd::string::StringExecFns;
use vstd::utf8::encode_utf8;

use crate::definitions::{Name, Span};
use crate::parser::lexer::{
    lemma_lex_from, lex_from, spec_describe, tokens_of, Lexer, Token, TokenStream, TokenType,
    TokenView,
};
use crate::syntax::surface::{
    Decl, DeclKind, DeclType, DeclView, Expr, ExprKind, ExprType, ExprView, NameView,
};

verus! {

#[derive(Debug)]
pub struct ParseError {
    pub message: String,
    pub span: Span,
}

/// A parse error with its message as a sequence of characters.
pub struct ParseErrorView {
    pub message: Seq<char>,
    pub span: Span,
}

impl View for ParseError {
    type V = ParseErrorView;

    open spec fn view(&self) -> ParseErrorView {
        ParseErrorView { message: self.message@, span: self.span }
    }
}

// ============ The grammar, over the token list ============

/// The message for finding a token of kind `found` where one of kind `expected` belongs.
pub open spec fn expected_message(expected: TokenType, found: TokenType) -> Seq<char> {
    "Expected "@ + spec_describe(expected) + ", found "@ + spec_describe(found)
}

/// The error for finding `found` where a token of kind `expected` belongs.
pub open spec fn expect_error(expected: TokenType, found: TokenView) -> ParseErrorView {
    ParseErrorView { message: expected_message(expected, found.class), span: found.span }
}

/// From the start of `a` to the end of `b`.
pub open spec fn spec_merge(a: Span, b: Span) -> Span {
    Span { start: a.start, end: b.end }
}

/// How many tokens are left from position `k` on.
pub open spec fn remaining(toks: Seq<TokenView>, k: int) -> nat {
    if k <= toks.len() {
        (toks.len() - k) as nat
    } else {
        0
    }
}

/// Whether a token of kind `c` can begin an argument in an application.
pub open spec fn starts_atom(c: TokenType) -> bool {
    c == TokenType::LeftPar || c == TokenType::Ident || c == TokenType::Universe
}

/// The name that the identifier token `t` stands for.
pub open spec fn name_of(t: TokenView) -> NameView {
    NameView { text: t.literal, span: Some(t.span) }
}

/// The result of parsing an expression at position `k` of `toks`, and the position
/// after it (or, on an error, where the error was found).
///
/// In each function of this group, a branch that is taken when a position has not
/// moved forward cannot be reached: parsing something takes at least one token.
pub open spec fn spec_parse_expr(toks: Seq<TokenView>, k: int) -> (
    Result<ExprView, ParseErrorView>,
    int,
)
    decreases remaining(toks, k), 3nat,
    when 0 <= k < toks.len()
{
    if toks[k].class == TokenType::Lambda {
        if toks[k + 1].class == TokenType::LeftPar {
            // λ (x : A) . e
            if toks[k + 2].class != TokenType::Ident {
                (Err(expect_error(TokenType::Ident, toks[k + 2])), k + 2)
            } else if toks[k + 3].class != TokenType::Colon {
                (Err(expect_error(TokenType::Colon, toks[k + 3])), k + 3)
            } else {
                match spec_parse_expr(toks, k + 4) {
                    (Err(e), p) => (Err(e), p),
                    (Ok(ty), p) => {
                        if toks[p].class != TokenType::RightPar {
                            (Err(expect_error(TokenType::RightPar, toks[p])), p)
                        } else if k < p {
                            let x = toks[k + 2];
                            let param = ExprKind::Anno(
                                Box::new(
                                    ExprView {
                                        class: ExprKind::Var(NameView { text: x.literal, span: None }),
                                        span: x.span,
                                    },
                                ),
                                Box::new(ty),
                            );
                            spec_lambda_body(toks, k, param, p + 1)
                        } else {
                            (Err(expect_error(TokenType::RightPar, toks[p])), p)
                        }
                    },
                }
            }
        } else if toks[k + 1].class != TokenType::Ident {
            // λ x . e
            (Err(expect_error(TokenType::Ident, toks[k + 1])), k + 1)
        } else {
            spec_lambda_body(toks, k, ExprKind::Var(name_of(toks[k + 1])), k + 2)
        }
    } else {
        spec_parse_infix(toks, k)
    }
}

/// The rest of a λ-expression that began at `k`, from the `.` at `q` on.
pub open spec fn spec_lambda_body(toks: Seq<TokenView>, k: int, param: ExprKind, q: int) -> (
    Result<ExprView, ParseErrorView>,
    int,
)
    decreases remaining(toks, q), 3nat,
    when 0 <= q < toks.len()
{
    if toks[q].class != TokenType::Dot {
        (Err(expect_error(TokenType::Dot, toks[q])), q)
    } else {
        match spec_parse_expr(toks, q + 1) {
            (Err(e), r) => (Err(e), r),
            (Ok(body), r) => {
                let span = spec_merge(toks[k].span, body.span);
                (
                    Ok(
                        ExprView {
                            class: ExprKind::Func(
                                NameView { text: "_"@, span: None },
                                Box::new(ExprView { class: param, span }),
                                Box::new(body),
                            ),
                            span,
                        },
                    ),
                    r,
                )
            },
        }
    }
}

/// The type formed from `a` and `b` by the operator token `c`.
pub open spec fn binary_kind(c: TokenType, a: ExprView, b: ExprView) -> ExprKind {
    if c == TokenType::To {
        ExprKind::FuncType(Box::new(a), Box::new(b))
    } else if c == TokenType::Product {
        ExprKind::PairType(Box::new(a), Box::new(b))
    } else {
        ExprKind::EqType(Box::new(a), Box::new(b))
    }
}

pub open spec fn spec_parse_infix(toks: Seq<TokenView>, k: int) -> (
    Result<ExprView, ParseErrorView>,
    int,
)
    decreases remaining(toks, k), 2nat,
    when 0 <= k < toks.len()
{
    match spec_parse_app(toks, k) {
        (Err(e), p) => (Err(e), p),
        (Ok(a), p) => {
            let c = toks[p].class;
            if (c == TokenType::To || c == TokenType::Product || c == TokenType::Eq) && k <= p {
                match spec_parse_app(toks, p + 1) {
                    (Err(e), q) => (Err(e), q),
                    (Ok(b), q) => (
                        Ok(ExprView { class: binary_kind(c, a, b), span: spec_merge(toks[k].span, b.span) }),
                        q,
                    ),
                }
            } else {
                (Ok(a), p)
            }
        },
    }
}

pub open spec fn spec_parse_app(toks: Seq<TokenView>, k: int) -> (
    Result<ExprView, ParseErrorView>,
    int,
)
    decreases remaining(toks, k), 1nat,
    when 0 <= k < toks.len()
{
    match spec_parse_atom(toks, k) {
        (Err(e), p) => (Err(e), p),
        (Ok(a), p) => if k < p {
            spec_app_rest(toks, a, p)
        } else {
            (Ok(a), p)
        },
    }
}

/// The arguments that follow `acc` from position `k` on, applied to it one by one.
pub open spec fn spec_app_rest(toks: Seq<TokenView>, acc: ExprView, k: int) -> (
    Result<ExprView, ParseErrorView>,
    int,
)
    decreases remaining(toks, k), 1nat,
    when 0 <= k < toks.len()
{
    if starts_atom(toks[k].class) {
        match spec_parse_atom(toks, k) {
            (Err(e), p) => (Err(e), p),
            (Ok(arg), p) => if k < p {
                spec_app_rest(
                    toks,
                    ExprView {
                        class: ExprKind::App(Box::new(acc), Box::new(arg)),
                        span: spec_merge(acc.span, arg.span),
                    },
                    p,
                )
            } else {
                (Ok(acc), p)
            },
        }
    } else {
        (Ok(acc), k)
    }
}

/// An atom. A variable takes the span of the token that follows its identifier; a
/// universe the span of its level's number.
pub open spec fn spec_parse_atom(toks: Seq<TokenView>, k: int) -> (
    Result<ExprView, ParseErrorView>,
    int,
)
    decreases remaining(toks, k), 0nat,
    when 0 <= k < toks.len()
{
    if toks[k].class == TokenType::LeftPar {
        match spec_parse_expr(toks, k + 1) {
            (Err(e), p) => (Err(e), p),
            (Ok(e), p) => if toks[p].class == TokenType::RightPar {
                (Ok(e), p + 1)
            } else {
                (Err(expect_error(TokenType::RightPar, toks[p])), p)
            },
        }
    } else if toks[k].class == TokenType::Universe {
        if toks[k + 1].class == TokenType::Number {
            (
                Ok(ExprView { class: ExprKind::Universe(toks[k + 1].literal), span: toks[k + 1].span }),
                k + 2,
            )
        } else {
            (Err(expect_error(TokenType::Number, toks[k + 1])), k + 1)
        }
    } else if toks[k].class == TokenType::Ident {
        (Ok(ExprView { class: ExprKind::Var(name_of(toks[k])), span: toks[k + 1].span }), k + 1)
    } else {
        (Err(expect_error(TokenType::Ident, toks[k])), k)
    }
}

/// A declaration at position `k`.
pub open spec fn spec_parse_decl(toks: Seq<TokenView>, k: int) -> (
    Result<DeclView, ParseErrorView>,
    int,
) {
    if toks[k].class != TokenType::Ident {
        (Err(expect_error(TokenType::Ident, toks[k])), k)
    } else {
        let name = name_of(toks[k]);
        if toks[k + 1].class == TokenType::Colon {
            match spec_parse_expr(toks, k + 2) {
                (Err(e), p) => (Err(e), p),
                (Ok(ty), p) => (
                    Ok(DeclView { class: DeclKind::Sig(name, ty), span: spec_merge(toks[k].span, ty.span) }),
                    p,
                ),
            }
        } else if toks[k + 1].class != TokenType::Assign {
            (Err(expect_error(TokenType::Assign, toks[k + 1])), k + 1)
        } else {
            match spec_parse_expr(toks, k + 2) {
                (Err(e), p) => (Err(e), p),
                (Ok(body), p) => (
                    Ok(DeclView { class: DeclKind::Def(name, body), span: spec_merge(toks[k].span, body.span) }),
                    p,
                ),
            }
        }
    }
}

/// The declarations from position `k` up to the end of the input, after `acc`. Line
/// feeds separate declarations.
pub open spec fn spec_parse_program(toks: Seq<TokenView>, k: int, acc: Seq<DeclView>) -> (
    Result<Seq<DeclView>, ParseErrorView>,
    int,
)
    decreases remaining(toks, k),
    when 0 <= k < toks.len()
{
    if toks[k].class == TokenType::Eof {
        (Ok(acc), k)
    } else if toks[k].class == TokenType::Newline {
        spec_parse_program(toks, k + 1, acc)
    } else {
        match spec_parse_decl(toks, k) {
            (Err(e), p) => (Err(e), p),
            (Ok(d), p) => if k < p {
                spec_parse_program(toks, p, acc.push(d))
            } else {
                (Ok(acc.push(d)), p)
            },
        }
    }
}

pub open spec fn expr_result(r: Result<Expr, ParseError>) -> Result<ExprView, ParseErrorView> {
    match r {
        Ok(e) => Ok(e@),
        Err(e) => Err(e@),
    }
}

pub open spec fn decls_view(v: Seq<Decl>) -> Seq<DeclView> {
    v.map_values(|d: Decl| d@)
}

pub open spec fn program_result(r: Result<Vec<Decl>, ParseError>) -> Result<
    Seq<DeclView>,
    ParseErrorView,
> {
    match r {
        Ok(v) => Ok(decls_view(v@)),
        Err(e) => Err(e@),
    }
}

/// A token list as the lexer produces it: it ends with its only `Eof`.
pub open spec fn well_formed_tokens(toks: Seq<TokenView>) -> bool {
    &&& toks.len() >= 1
    &&& toks.last().class == TokenType::Eof
    &&& forall|m: int| 0 <= m < toks.len() - 1 ==> #[trigger] toks[m].class != TokenType::Eof
}

// ============ Progress ============
//
// Parsing moves forward and stays inside the token list: every successful parse
// takes at least one token. So the branches of the grammar that are taken when a
// position has not moved forward are never reached.

pub proof fn lemma_expr_progress(toks: Seq<TokenView>, k: int)
    requires
        well_formed_tokens(toks),
        0 <= k < toks.len(),
    ensures
        k <= spec_parse_expr(toks, k).1 < toks.len(),
        spec_parse_expr(toks, k).0 is Ok ==> k < spec_parse_expr(toks, k).1,
    decreases remaining(toks, k), 3nat,
{
    if toks[k].class == TokenType::Lambda {
        assert(toks[k].class != TokenType::Eof);
        if toks[k + 1].class == TokenType::LeftPar {
            assert(toks[k + 1].class != TokenType::Eof);
            if toks[k + 2].class == TokenType::Ident {
                assert(toks[k + 2].class != TokenType::Eof);
                if toks[k + 3].class == TokenType::Colon {
                    assert(toks[k + 3].class != TokenType::Eof);
                    lemma_expr_progress(toks, k + 4);
                    let (r, p) = spec_parse_expr(toks, k + 4);
                    if r is Ok && toks[p].class == TokenType::RightPar {
                        assert(toks[p].class != TokenType::Eof);
                        let x = toks[k + 2];
                        let param = ExprKind::Anno(
                            Box::new(
                                ExprView {
                                    class: ExprKind::Var(NameView { text: x.literal, span: None }),
                                    span: x.span,
                                },
                            ),
                            Box::new(r->Ok_0),
                        );
                        lemma_lambda_body_progress(toks, k, param, p + 1);
                    }
                }
            }
        } else if toks[k + 1].class == TokenType::Ident {
            assert(toks[k + 1].class != TokenType::Eof);
            lemma_lambda_body_progress(toks, k, ExprKind::Var(name_of(toks[k + 1])), k + 2);
        }
    } else {
        lemma_infix_progress(toks, k);
    }
}

pub proof fn lemma_lambda_body_progress(toks: Seq<TokenView>, k: int, param: ExprKind, q: int)
    requires
        well_formed_tokens(toks),
        0 <= q < toks.len(),
    ensures
        q <= spec_lambda_body(toks, k, param, q).1 < toks.len(),
        spec_lambda_body(toks, k, param, q).0 is Ok ==> q < spec_lambda_body(toks, k, param, q).1,
    decreases remaining(toks, q), 3nat,
{
    if toks[q].class == TokenType::Dot {
        assert(toks[q].class != TokenType::Eof);
        lemma_expr_progress(toks, q + 1);
    }
}

pub proof fn lemma_infix_progress(toks: Seq<TokenView>, k: int)
    requires
        well_formed_tokens(toks),
        0 <= k < toks.len(),
    ensures
        k <= spec_parse_infix(toks, k).1 < toks.len(),
        spec_parse_infix(toks, k).0 is Ok ==> k < spec_parse_infix(toks, k).1,
    decreases remaining(toks, k), 2nat,
{
    lemma_app_progress(toks, k);
    let (r, p) = spec_parse_app(toks, k);
    let c = toks[p].class;
    if r is Ok && (c == TokenType::To || c == TokenType::Product || c == TokenType::Eq) {
        assert(toks[p].class != TokenType::Eof);
        lemma_app_progress(toks, p + 1);
    }
}

pub proof fn lemma_app_progress(toks: Seq<TokenView>, k: int)
    requires
        well_formed_tokens(toks),
        0 <= k < toks.len(),
    ensures
        k <= spec_parse_app(toks, k).1 < toks.len(),
        spec_parse_app(toks, k).0 is Ok ==> k < spec_parse_app(toks, k).1,
    decreases remaining(toks, k), 1nat,
{
    lemma_atom_progress(toks, k);
    let (r, p) = spec_parse_atom(toks, k);
    if r is Ok {
        lemma_app_rest_progress(toks, r->Ok_0, p);
    }
}

pub proof fn lemma_app_rest_progress(toks: Seq<TokenView>, acc: ExprView, k: int)
    requires
        well_formed_tokens(toks),
        0 <= k < toks.len(),
    ensures
        k <= spec_app_rest(toks, acc, k).1 < toks.len(),
    decreases remaining(toks, k), 1nat,
{
    if starts_atom(toks[k].class) {
        lemma_atom_progress(toks, k);
        let (r, p) = spec_parse_atom(toks, k);
        if r is Ok {
            let arg = r->Ok_0;
            lemma_app_rest_progress(
                toks,
                ExprView {
                    class: ExprKind::App(Box::new(acc), Box::new(arg)),
                    span: spec_merge(acc.span, arg.span),
                },
                p,
            );
        }
    }
}

pub proof fn lemma_atom_progress(toks: Seq<TokenView>, k: int)
    requires
        well_formed_tokens(toks),
        0 <= k < toks.len(),
    ensures
        k <= spec_parse_atom(toks, k).1 < toks.len(),
        spec_parse_atom(toks, k).0 is Ok ==> k < spec_parse_atom(toks, k).1,
    decreases remaining(toks, k), 0nat,
{
    if toks[k].class == TokenType::LeftPar {
        assert(toks[k].class != TokenType::Eof);
        lemma_expr_progress(toks, k + 1);
        let p = spec_parse_expr(toks, k + 1).1;
        if toks[p].class == TokenType::RightPar {
            assert(toks[p].class != TokenType::Eof);
        }
    } else if toks[k].class == TokenType::Universe {
        assert(toks[k].class != TokenType::Eof);
        if toks[k + 1].class == TokenType::Number {
            assert(toks[k + 1].class != TokenType::Eof);
        }
    } else if toks[k].class == TokenType::Ident {
        assert(toks[k].class != TokenType::Eof);
    }
}

pub proof fn lemma_decl_progress(toks: Seq<TokenView>, k: int)
    requires
        well_formed_tokens(toks),
        0 <= k < toks.len(),
    ensures
        k <= spec_parse_decl(toks, k).1 < toks.len(),
        spec_parse_decl(toks, k).0 is Ok ==> k < spec_parse_decl(toks, k).1,
{
    if toks[k].class == TokenType::Ident {
        assert(toks[k].class != TokenType::Eof);
        if toks[k + 1].class == TokenType::Colon || toks[k + 1].class == TokenType::Assign {
            assert(toks[k + 1].class != TokenType::Eof);
            lemma_expr_progress(toks, k + 2);
        }
    }
}

/// A program that parses is read up to the end of the input, and each declaration
/// read is added after those read before.
pub proof fn law_program_reads_to_end(toks: Seq<TokenView>, k: int, acc: Seq<DeclView>)
    requires
        well_formed_tokens(toks),
        0 <= k < toks.len(),
    ensures
        k <= spec_parse_program(toks, k, acc).1 < toks.len(),
        spec_parse_program(toks, k, acc).0 is Ok ==> {
            let ds = spec_parse_program(toks, k, acc).0->Ok_0;
            &&& toks[spec_parse_program(toks, k, acc).1].class == TokenType::Eof
            &&& ds.len() >= acc.len()
            &&& ds.subrange(0, acc.len() as int) == acc
        },
    decreases remaining(toks, k),
{
    if toks[k].class == TokenType::Newline {
        assert(toks[k].class != TokenType::Eof);
        law_program_reads_to_end(toks, k + 1, acc);
    } else if toks[k].class != TokenType::Eof {
        lemma_decl_progress(toks, k);
        let (r, p) = spec_parse_decl(toks, k);
        if r is Ok {
            let d = r->Ok_0;
            law_program_reads_to_end(toks, p, acc.push(d));
            if spec_parse_program(toks, k, acc).0 is Ok {
                let ds = spec_parse_program(toks, k, acc).0->Ok_0;
                assert(ds.subrange(0, acc.len() as int) =~= ds.subrange(
                    0,
                    acc.len() + 1 as int,
                ).subrange(0, acc.len() as int));
                assert(acc.push(d).subrange(0, acc.len() as int) =~= acc);
            }
        }
    } else {
        assert(acc.subrange(0, acc.len() as int) =~= acc);
    }
}

// ============ The parser ============

pub struct Parser<'src> {
    stream: Lexer<'src>,
    current: Token,
    previous: Token,
    /// Whether a line feed stands between the previous token and the current one.
    at_newline: bool,
    /// How many tokens have been taken.
    taken: Ghost<int>,
}

fn expect_error_of(expected: TokenType, found: &Token) -> (e: ParseError)
    ensures
        e@ == expect_error(expected, found@),
{
    let mut message = "Expected ".to_owned();
    message.append(expected.describe());
    message.append(", found ");
    message.append(found.class.describe());
    ParseError { message, span: found.span }
}

impl<'src> Parser<'src> {
    /// The source text.
    pub closed spec fn source(&self) -> Seq<char> {
        self.stream.source()
    }

    /// The position of the current token in the token list of the source.
    pub closed spec fn position(&self) -> int {
        self.taken@
    }

    /// The token taken last.
    pub closed spec fn spec_previous(&self) -> TokenView {
        self.previous@
    }

    /// Whether a line feed stands between the previous token and the current one.
    pub closed spec fn spec_at_newline(&self) -> bool {
        self.at_newline
    }

    /// The token list of the source.
    pub open spec fn tokens(&self) -> Seq<TokenView> {
        tokens_of(self.source())
    }

    /// The internal consistency of the parser.
    pub closed spec fn wf(&self) -> bool {
        let toks = tokens_of(self.stream.source());
        &&& self.stream.wf()
        &&& 0 <= self.stream.char_index() <= self.stream.source().len()
        &&& 0 <= self.taken@ < toks.len()
        &&& self.current@ == toks[self.taken@]
        &&& self.current.class != TokenType::Eof ==> lex_from(
            self.stream.source(),
            self.stream.char_index(),
        ) == toks.skip(self.taken@ + 1)
        &&& well_formed_tokens(toks)
    }

    pub fn new(source: &'src str) -> (p: Self)
        requires
            encode_utf8(source@).len() <= usize::MAX,
        ensures
            p.wf(),
            p.source() == source@,
            p.position() == 0,
            p.spec_previous() == (TokenView {
                class: TokenType::Eof,
                span: Span { start: 0, end: 0 },
                literal: ""@,
            }),
            !p.spec_at_newline(),
    {
        let mut stream = Lexer::new(source);
        let current = stream.next_token();
        proof {
            lemma_lex_from(source@, 0);
        }
        Parser {
            stream,
            current,
            previous: Token::new(TokenType::Eof, Span::new(0, 0), ""),
            at_newline: false,
            taken: Ghost(0),
        }
    }

    /// What a parser in a consistent state holds: its position lies within the token
    /// list of its source, which is well formed, and the UTF-8 encoding of the source
    /// fits in `usize`.
    pub proof fn lemma_consistent(&self)
        requires
            self.wf(),
        ensures
            0 <= self.position() < self.tokens().len(),
            well_formed_tokens(self.tokens()),
            encode_utf8(self.source()).len() <= usize::MAX,
    {
        self.stream.lemma_stream_ok();
    }

    proof fn lemma_wf(&self)
        requires
            self.wf(),
        ensures
            0 <= self.position() < self.tokens().len(),
            self.current@ == self.tokens()[self.position()],
            self.current.class != TokenType::Eof ==> self.position() + 1 < self.tokens().len(),
    {
    }

    fn check(&self, class: TokenType) -> (r: bool)
        requires
            self.wf(),
        ensures
            r == (self.tokens()[self.position()].class == class),
    {
        self.current.class == class
    }

    /// Takes the current token.
    fn advance(&mut self) -> (t: Token)
        requires
            old(self).wf(),
            old(self).tokens()[old(self).position()].class != TokenType::Eof,
        ensures
            final(self).wf(),
            final(self).source() == old(self).source(),
            final(self).position() == old(self).position() + 1,
            t@ == old(self).tokens()[old(self).position()],
            final(self).spec_previous() == old(self).tokens()[old(self).position()],
            final(self).spec_at_newline() == (final(self).tokens()[final(self).position()].class
                == TokenType::Newline),
    {
        let ghost src = self.stream.source();
        let ghost i = self.stream.char_index();
        let mut next = self.stream.next_token();
        std::mem::swap(&mut self.current, &mut next);
        self.previous = next;
        self.at_newline = self.stream.crossed_newline();
        proof {
            lemma_lex_from(src, i);
            self.taken = Ghost(self.taken@ + 1);
            let toks = tokens_of(src);
            assert(toks.skip(self.taken@ - 1 + 1)[0] == toks[self.taken@]);
            if self.current.class != TokenType::Eof {
                assert(toks.skip(self.taken@ + 1) =~= toks.skip(self.taken@).skip(1));
            }
        }
        self.previous.clone()
    }

    fn expect(&mut self, class: TokenType) -> (r: Result<Token, ParseError>)
        requires
            old(self).wf(),
            class != TokenType::Eof,
        ensures
            final(self).wf(),
            final(self).source() == old(self).source(),
            ({
                let toks = old(self).tokens();
                let k = old(self).position();
                if toks[k].class == class {
                    &&& r matches Ok(t) && t@ == toks[k]
                    &&& final(self).position() == k + 1
                    &&& final(self).spec_previous() == toks[k]
                } else {
                    &&& r matches Err(e) && e@ == expect_error(class, toks[k])
                    &&& *final(self) == *old(self)
                }
            }),
    {
        proof {
            self.lemma_wf();
        }
        if self.check(class) {
            Ok(self.advance())
        } else {
            Err(expect_error_of(class, &self.current))
        }
    }

    fn try_match(&mut self, class: TokenType) -> (r: bool)
        requires
            old(self).wf(),
            class != TokenType::Eof,
        ensures
            final(self).wf(),
            final(self).source() == old(self).source(),
            r == (old(self).tokens()[old(self).position()].class == class),
            r ==> final(self).position() == old(self).position() + 1 && final(self).spec_previous()
                == old(self).tokens()[old(self).position()],
            !r ==> *final(self) == *old(self),
    {
        if self.check(class) {
            self.advance();
            true
        } else {
            false
        }
    }

    // ============ Helpers ============

    fn parse_name(&mut self) -> (r: Result<Name, ParseError>)
        requires
            old(self).wf(),
        ensures
            final(self).wf(),
            final(self).source() == old(self).source(),
            ({
                let toks = old(self).tokens();
                let k = old(self).position();
                if toks[k].class == TokenType::Ident {
                    &&& r matches Ok(n) && n@ == name_of(toks[k])
                    &&& final(self).position() == k + 1
                    &&& final(self).spec_previous() == toks[k]
                } else {
                    &&& r matches Err(e) && e@ == expect_error(TokenType::Ident, toks[k])
                    &&& *final(self) == *old(self)
                }
            }),
    {
        let token = self.expect(TokenType::Ident)?;
        Ok(Name::with_span(token.literal, token.span))
    }

    // ============ Expressions ============

    #[verifier::rlimit(30)]
    pub fn parse_expr(&mut self) -> (r: Result<Expr, ParseError>)
        requires
            old(self).wf(),
        ensures
            final(self).wf(),
            final(self).source() == old(self).source(),
            (expr_result(r), final(self).position()) == spec_parse_expr(
                old(self).tokens(),
                old(self).position(),
            ),
            r is Ok ==> final(self).position() > old(self).position(),
        decreases remaining(old(self).tokens(), old(self).position()), 3nat,
    {
        let ghost toks = self.tokens();
        let ghost k = self.position();
        proof {
            self.lemma_wf();
        }
        let start_span = self.current.span;

        if self.try_match(TokenType::Lambda) {
            proof {
                self.lemma_wf();
            }
            let parameter = if self.try_match(TokenType::LeftPar) {
                // λ (x : A) . e
                proof {
                    self.lemma_wf();
                }
                let mut name = self.parse_name()?;
                self.expect(TokenType::Colon)?;
                let typ = self.parse_expr()?;
                self.expect(TokenType::RightPar)?;
                let span = name.span.take();
                ExprType::Anno(Box::new(Expr::var(name, span.unwrap())), Box::new(typ))
            } else {
                // λ x . e
                let name = self.parse_name()?;
                ExprType::Var(name)
            };
            let ghost q = self.position();
            let ghost param = crate::syntax::surface::kind_view(parameter);
            assert(spec_parse_expr(toks, k) == spec_lambda_body(toks, k, param, q));

            self.expect(TokenType::Dot)?;
            let body = self.parse_expr()?;
            let span = start_span.merge(body.span);

            let expr = Expr::unnamed_func(Expr { class: parameter, span }, body, span);
            return Ok(expr);
        }
        self.parse_infix_expr()
    }

    #[verifier::rlimit(30)]
    fn parse_infix_expr(&mut self) -> (r: Result<Expr, ParseError>)
        requires
            old(self).wf(),
        ensures
            final(self).wf(),
            final(self).source() == old(self).source(),
            (expr_result(r), final(self).position()) == spec_parse_infix(
                old(self).tokens(),
                old(self).position(),
            ),
            r is Ok ==> final(self).position() > old(self).position(),
        decreases remaining(old(self).tokens(), old(self).position()), 2nat,
    {
        proof {
            self.lemma_wf();
        }
        let start_span = self.current.span;
        let expr = self.parse_app_expr()?;
        if self.try_match(TokenType::To) {
            let expr2 = self.parse_app_expr()?;
            let span = start_span.merge(expr2.span);
            Ok(Expr { class: ExprType::FuncType(Box::new(expr), Box::new(expr2)), span })
        } else if self.try_match(TokenType::Product) {
            let expr2 = self.parse_app_expr()?;
            let span = start_span.merge(expr2.span);
            Ok(Expr { class: ExprType::PairType(Box::new(expr), Box::new(expr2)), span })
        } else if self.try_match(TokenType::Eq) {
            let expr2 = self.parse_app_expr()?;
            let span = start_span.merge(expr2.span);
            Ok(Expr { class: ExprType::EqType(Box::new(expr), Box::new(expr2)), span })
        } else {
            Ok(expr)
        }
    }

    fn parse_app_expr(&mut self) -> (r: Result<Expr, ParseError>)
        requires
            old(self).wf(),
        ensures
            final(self).wf(),
            final(self).source() == old(self).source(),
            (expr_result(r), final(self).position()) == spec_parse_app(
                old(self).tokens(),
                old(self).position(),
            ),
            r is Ok ==> final(self).position() > old(self).position(),
        decreases remaining(old(self).tokens(), old(self).position()), 1nat,
    {
        let ghost toks = self.tokens();
        let ghost k = self.position();
        let mut expr = self.parse_atom()?;

        while self.is_atom_start()
            invariant
                self.wf(),
                self.source() == old(self).source(),
                toks == self.tokens(),
                toks == old(self).tokens(),
                k == old(self).position(),
                k < self.position(),
                spec_parse_app(toks, k) == spec_app_rest(toks, expr@, self.position()),
            decreases remaining(toks, self.position()),
        {
            proof {
                self.lemma_wf();
            }
            let arg = self.parse_atom()?;
            let span = expr.span.merge(arg.span);
            expr = Expr::app(expr, arg, span);
        }
        proof {
            self.lemma_wf();
        }
        Ok(expr)
    }

    fn is_atom_start(&self) -> (r: bool)
        requires
            self.wf(),
        ensures
            r == starts_atom(self.tokens()[self.position()].class),
    {
        self.check(TokenType::LeftPar) || self.check(TokenType::Ident) || self.check(
            TokenType::Universe,
        )
    }

    fn parse_atom(&mut self) -> (r: Result<Expr, ParseError>)
        requires
            old(self).wf(),
        ensures
            final(self).wf(),
            final(self).source() == old(self).source(),
            (expr_result(r), final(self).position()) == spec_parse_atom(
                old(self).tokens(),
                old(self).position(),
            ),
            r is Ok ==> final(self).position() > old(self).position(),
        decreases remaining(old(self).tokens(), old(self).position()), 0nat,
    {
        proof {
            self.lemma_wf();
        }
        if self.try_match(TokenType::LeftPar) {
            let expr = self.parse_expr()?;
            self.expect(TokenType::RightPar)?;
            Ok(expr)
        } else if self.try_match(TokenType::Universe) {
            proof {
                self.lemma_wf();
            }
            let number = self.expect(TokenType::Number)?;
            Ok(Expr::universe(number.literal, number.span))
        } else {
            let name = self.parse_name()?;
            Ok(Expr::var(name, self.current.span))
        }
    }

    // ============ Programs ============

    pub fn parse_program(&mut self) -> (r: Result<Vec<Decl>, ParseError>)
        requires
            old(self).wf(),
        ensures
            final(self).wf(),
            final(self).source() == old(self).source(),
            (program_result(r), final(self).position()) == spec_parse_program(
                old(self).tokens(),
                old(self).position(),
                Seq::empty(),
            ),
    {
        let ghost toks = self.tokens();
        let ghost k = self.position();
        let mut decls = Vec::<Decl>::new();
        proof {
            assert(decls_view(decls@) =~= Seq::<DeclView>::empty());
        }

        while self.current.class != TokenType::Eof
            invariant
                self.wf(),
                self.source() == old(self).source(),
                toks == self.tokens(),
                k == old(self).position(),
                k <= self.position(),
                spec_parse_program(toks, k, Seq::empty()) == spec_parse_program(
                    toks,
                    self.position(),
                    decls_view(decls@),
                ),
            decreases remaining(toks, self.position()),
        {
            proof {
                self.lemma_wf();
            }
            // line feeds separate declarations
            if !self.try_match(TokenType::Newline) {
                let decl = self.parse_decl()?;
                proof {
                    assert(decls_view(decls@.push(decl)) =~= decls_view(decls@).push(decl@));
                }
                decls.push(decl);
            }
        }
        proof {
            self.lemma_wf();
        }
        Ok(decls)
    }

    fn parse_decl(&mut self) -> (r: Result<Decl, ParseError>)
        requires
            old(self).wf(),
        ensures
            final(self).wf(),
            final(self).source() == old(self).source(),
            ({
                let s = spec_parse_decl(old(self).tokens(), old(self).position());
                &&& final(self).position() == s.1
                &&& match r {
                    Ok(d) => s.0 == Ok::<DeclView, ParseErrorView>(d@),
                    Err(e) => s.0 == Err::<DeclView, ParseErrorView>(e@),
                }
            }),
            r is Ok ==> final(self).position() > old(self).position(),
    {
        proof {
            self.lemma_wf();
        }
        let start_span = self.current.span;

        let name = self.parse_name()?;
        proof {
            self.lemma_wf();
        }

        if self.try_match(TokenType::Colon) {
            let typ = self.parse_expr()?;
            let span = start_span.merge(typ.span);
            Ok(Decl { class: DeclType::Sig(name, typ), span })
        } else {
            self.expect(TokenType::Assign)?;
            let body = self.parse_expr()?;
            let span = start_span.merge(body.span);
            Ok(Decl { class: DeclType::Def(name, body), span })
        }
    }
}

} // verus!
