//! The grammar of the surface syntax, as derivations of trees from stretches of the
//! token list, and the laws that tie it to the parser both ways: what the parser
//! returns has a derivation, and what has a derivation the parser returns.
//!
//! ```bnf
//! program       ::= NEWLINE* (decl (NEWLINE+ decl)* NEWLINE*)?
//! decl          ::= IDENT ':' expr | IDENT ':≡' expr
//! expr          ::= 'λ' IDENT '.' expr
//!                 | 'λ' '(' IDENT ':' expr ')' '.' expr
//!                 | infix_expr
//! infix_expr    ::= app_expr ('->' | '×' | '=') app_expr | app_expr
//! app_expr      ::= atom+
//! atom          ::= IDENT | '(' expr ')' | '𝒰' NUMBER
//! ```
use vstd::prelude::*;

use crate::parser::lexer::{lemma_lex_from, tokens_of, TokenType, TokenView};
use crate::definitions::Span;
use crate::parser::parser::ParseErrorView;
use crate::parser::parser::{
    lemma_app_progress, lemma_atom_progress, lemma_decl_progress, lemma_expr_progress,
    lemma_infix_progress, law_program_reads_to_end, remaining, name_of, spec_app_rest, spec_merge, spec_parse_app,
    spec_lambda_body, spec_parse_atom, spec_parse_decl, spec_parse_expr, spec_parse_infix, spec_parse_program,
    starts_atom, well_formed_tokens,
};
use crate::syntax::surface::{DeclKind, DeclView, ExprKind, ExprView, NameView};

verus! {

/// How a stretch of tokens is derived in the grammar: which rule was used at each
/// step, and where the stretch was split.
pub enum Derivation {
    /// `atom ::= IDENT`
    Ident,
    /// `atom ::= '𝒰' NUMBER`
    Universe,
    /// `atom ::= '(' expr ')'`
    Paren(Box<Derivation>),
    /// `app_expr ::= app_expr atom`, the function taking the first `m` tokens.
    App(Box<Derivation>, int, Box<Derivation>),
    /// `infix_expr ::= app_expr op app_expr`, the operator standing at `m`.
    Infix(Box<Derivation>, int, Box<Derivation>),
    /// `expr ::= 'λ' IDENT '.' expr`
    Lambda(Box<Derivation>),
    /// `expr ::= 'λ' '(' IDENT ':' expr ')' '.' expr`, the `)` standing at `m`.
    AnnotatedLambda(Box<Derivation>, int, Box<Derivation>),
}

/// By `d`, `ts` is an atom whose tree is `e`, where `next` is the span of the token
/// that follows `ts`: a variable takes that span, a universe the span of the number of
/// its level, and a parenthesised expression is the expression inside.
pub open spec fn atom_by(d: Derivation, ts: Seq<TokenView>, next: Span, e: ExprView) -> bool
    decreases d, 0nat,
{
    match d {
        Derivation::Ident => ts.len() == 1 && ts[0].class == TokenType::Ident && e == ExprView {
            class: ExprKind::Var(name_of(ts[0])),
            span: next,
        },
        Derivation::Universe => ts.len() == 2 && ts[0].class == TokenType::Universe && ts[1].class
            == TokenType::Number && e == ExprView {
            class: ExprKind::Universe(ts[1].literal),
            span: ts[1].span,
        },
        Derivation::Paren(inner) => ts.len() >= 3 && ts[0].class == TokenType::LeftPar
            && ts[ts.len() - 1].class == TokenType::RightPar && expr_by(
            *inner,
            ts.subrange(1, ts.len() - 1),
            ts[ts.len() - 1].span,
            e,
        ),
        _ => false,
    }
}

/// By `d`, `ts` is one or more atoms, applied from the left, whose tree is `e`;
/// `next` is the span of the token that follows `ts`.
pub open spec fn app_by(d: Derivation, ts: Seq<TokenView>, next: Span, e: ExprView) -> bool
    decreases d, 1nat,
{
    match d {
        Derivation::App(df, m, da) => match e.class {
            ExprKind::App(f, a) => {
                &&& 0 < m < ts.len()
                &&& e.span == spec_merge(f.span, a.span)
                &&& app_by(*df, ts.take(m), ts[m].span, *f)
                &&& atom_by(*da, ts.skip(m), next, *a)
            },
            _ => false,
        },
        _ => atom_by(d, ts, next, e),
    }
}

/// The operator token of an infix tree, and its two operands.
pub open spec fn infix_parts(e: ExprView) -> Option<(TokenType, ExprView, ExprView)> {
    match e.class {
        ExprKind::FuncType(a, b) => Some((TokenType::To, *a, *b)),
        ExprKind::PairType(a, b) => Some((TokenType::Product, *a, *b)),
        ExprKind::EqType(a, b) => Some((TokenType::Eq, *a, *b)),
        _ => None,
    }
}

/// By `d`, `ts` is an infix expression whose tree is `e`; it spans from its first
/// token to the end of its right operand. `next` is the span of the token that
/// follows `ts`.
pub open spec fn infix_by(d: Derivation, ts: Seq<TokenView>, next: Span, e: ExprView) -> bool
    decreases d, 2nat,
{
    match d {
        Derivation::Infix(da, m, db) => match infix_parts(e) {
            Some((op, a, b)) => {
                &&& 0 < m < ts.len() - 1
                &&& ts[m].class == op
                &&& e.span == spec_merge(ts[0].span, b.span)
                &&& app_by(*da, ts.take(m), ts[m].span, a)
                &&& app_by(*db, ts.skip(m + 1), next, b)
            },
            None => false,
        },
        _ => app_by(d, ts, next, e),
    }
}

/// By `d`, `ts` is an expression whose tree is `e`; `next` is the span of the token
/// that follows `ts`. A λ-expression is a function named `_` whose parameter (a
/// variable, or a variable annotated with its type) and whole expression span from
/// the `λ` to the end of the body.
pub open spec fn expr_by(d: Derivation, ts: Seq<TokenView>, next: Span, e: ExprView) -> bool
    decreases d, 3nat,
{
    match d {
        Derivation::Lambda(db) => match e.class {
            ExprKind::Func(n, param, body) => {
                &&& n == NameView { text: "_"@, span: None }
                &&& ts.len() >= 4
                &&& ts[0].class == TokenType::Lambda
                &&& ts[1].class == TokenType::Ident
                &&& ts[2].class == TokenType::Dot
                &&& e.span == spec_merge(ts[0].span, body.span)
                &&& *param == ExprView { class: ExprKind::Var(name_of(ts[1])), span: e.span }
                &&& expr_by(*db, ts.skip(3), next, *body)
            },
            _ => false,
        },
        Derivation::AnnotatedLambda(dt, m, db) => match e.class {
            ExprKind::Func(n, param, body) => match param.class {
                ExprKind::Anno(x, ty) => {
                    &&& n == NameView { text: "_"@, span: None }
                    &&& 4 < m && m + 3 <= ts.len()
                    &&& ts[0].class == TokenType::Lambda
                    &&& ts[1].class == TokenType::LeftPar
                    &&& ts[2].class == TokenType::Ident
                    &&& ts[3].class == TokenType::Colon
                    &&& ts[m].class == TokenType::RightPar
                    &&& ts[m + 1].class == TokenType::Dot
                    &&& e.span == spec_merge(ts[0].span, body.span)
                    &&& param.span == e.span
                    &&& *x == ExprView {
                        class: ExprKind::Var(NameView { text: ts[2].literal, span: None }),
                        span: ts[2].span,
                    }
                    &&& expr_by(*dt, ts.subrange(4, m), ts[m].span, *ty)
                    &&& expr_by(*db, ts.skip(m + 2), next, *body)
                },
                _ => false,
            },
            _ => false,
        },
        _ => infix_by(d, ts, next, e),
    }
}

/// `ts`, followed by a token whose span is `next`, is an expression whose tree is `e`.
pub open spec fn derives_expr(ts: Seq<TokenView>, next: Span, e: ExprView) -> bool {
    exists|d: Derivation| #[trigger] expr_by(d, ts, next, e)
}

/// By `d` for its expression, `ts` is a declaration whose tree is `decl`; `next` is
/// the span of the token that follows `ts`.
pub open spec fn decl_by(d: Derivation, ts: Seq<TokenView>, next: Span, decl: DeclView) -> bool {
    &&& ts.len() >= 3
    &&& ts[0].class == TokenType::Ident
    &&& match decl.class {
        DeclKind::Sig(n, ty) => ts[1].class == TokenType::Colon && n == name_of(ts[0])
            && decl.span == spec_merge(ts[0].span, ty.span) && expr_by(d, ts.skip(2), next, ty),
        DeclKind::Def(n, body) => ts[1].class == TokenType::Assign && n == name_of(ts[0])
            && decl.span == spec_merge(ts[0].span, body.span) && expr_by(
            d,
            ts.skip(2),
            next,
            body,
        ),
    }
}

/// `ts` is a program, line feeds and declarations, whose declarations are `ds`; the
/// `i`-th declaration takes `lens[i]` tokens, is derived by `derivs[i]`, and is
/// followed by a line feed or by the end. `end` is the span of the token after `ts`.
pub open spec fn program_by(
    lens: Seq<int>,
    derivs: Seq<Derivation>,
    ts: Seq<TokenView>,
    end: Span,
    ds: Seq<DeclView>,
) -> bool
    decreases ts.len(),
{
    if ts.len() == 0 {
        ds.len() == 0
    } else if ts[0].class == TokenType::Newline {
        program_by(lens, derivs, ts.skip(1), end, ds)
    } else {
        &&& ds.len() >= 1
        &&& lens.len() >= 1
        &&& derivs.len() >= 1
        &&& 1 <= lens[0] <= ts.len()
        &&& lens[0] == ts.len() || ts[lens[0]].class == TokenType::Newline
        &&& decl_by(
            derivs[0],
            ts.take(lens[0]),
            if lens[0] == ts.len() {
                end
            } else {
                ts[lens[0]].span
            },
            ds[0],
        )
        &&& program_by(lens.skip(1), derivs.skip(1), ts.skip(lens[0]), end, ds.skip(1))
    }
}

/// `ts`, followed by a token whose span is `end`, is a program whose declarations are
/// `ds`.
pub open spec fn derives_program(ts: Seq<TokenView>, end: Span, ds: Seq<DeclView>) -> bool {
    exists|lens: Seq<int>, derivs: Seq<Derivation>| #[trigger] program_by(lens, derivs, ts, end, ds)
}

// ============ What the parser returns has a derivation ============

proof fn lemma_expr_sound(toks: Seq<TokenView>, k: int) -> (d: Derivation)
    requires
        well_formed_tokens(toks),
        0 <= k < toks.len(),
    ensures
        spec_parse_expr(toks, k).0 is Ok ==> expr_by(
            d,
            toks.subrange(k, spec_parse_expr(toks, k).1),
            toks[spec_parse_expr(toks, k).1].span,
            spec_parse_expr(toks, k).0->Ok_0,
        ),
        spec_parse_expr(toks, k).0 is Ok ==> !starts_atom(toks[spec_parse_expr(toks, k).1].class),
    decreases remaining(toks, k), 3nat,
{
    lemma_expr_progress(toks, k);
    if toks[k].class == TokenType::Lambda {
        assert(toks[k].class != TokenType::Eof);
        if toks[k + 1].class == TokenType::LeftPar {
            assert(toks[k + 1].class != TokenType::Eof);
            if toks[k + 2].class == TokenType::Ident {
                assert(toks[k + 2].class != TokenType::Eof);
            }
            if toks[k + 2].class == TokenType::Ident && toks[k + 3].class == TokenType::Colon {
                assert(toks[k + 3].class != TokenType::Eof);
                let dt = lemma_expr_sound(toks, k + 4);
                lemma_expr_progress(toks, k + 4);
                let (r, p) = spec_parse_expr(toks, k + 4);
                if r is Ok && toks[p].class == TokenType::RightPar {
                    assert(toks[p].class != TokenType::Eof);
                    let x = toks[k + 2];
                    let param = ExprKind::Anno(
                        Box::new(
                            ExprView {
                                class: ExprKind::Var(NameView { text: x.literal, span: None }),
                                span: x.span,
                            },
                        ),
                        Box::new(r->Ok_0),
                    );
                    assert(spec_parse_expr(toks, k) == spec_lambda_body(toks, k, param, p + 1));
                    if toks[p + 1].class == TokenType::Dot {
                        assert(toks[p + 1].class != TokenType::Eof);
                        let db = lemma_expr_sound(toks, p + 2);
                        lemma_expr_progress(toks, p + 2);
                        let q = spec_parse_expr(toks, p + 2).1;
                        let ts = toks.subrange(k, q);
                        let m = p - k;
                        assert(ts.subrange(4, m) =~= toks.subrange(k + 4, p));
                        assert(ts.skip(m + 2) =~= toks.subrange(p + 2, q));
                        assert(ts[0] == toks[k] && ts[1] == toks[k + 1] && ts[2] == toks[k + 2]
                            && ts[3] == toks[k + 3] && ts[m] == toks[p] && ts[m + 1] == toks[p
                            + 1]);
                        Derivation::AnnotatedLambda(Box::new(dt), m, Box::new(db))
                    } else {
                        assert(spec_lambda_body(toks, k, param, p + 1).0 is Err);
                        Derivation::Ident
                    }
                } else {
                    assert(spec_parse_expr(toks, k).0 is Err);
                    Derivation::Ident
                }
            } else {
                Derivation::Ident
            }
        } else if toks[k + 1].class == TokenType::Ident && toks[k + 2].class == TokenType::Dot {
            assert(toks[k + 1].class != TokenType::Eof);
            assert(toks[k + 2].class != TokenType::Eof);
            let db = lemma_expr_sound(toks, k + 3);
            lemma_expr_progress(toks, k + 3);
            let q = spec_parse_expr(toks, k + 3).1;
            let ts = toks.subrange(k, q);
            assert(ts.skip(3) =~= toks.subrange(k + 3, q));
            assert(ts[0] == toks[k] && ts[1] == toks[k + 1] && ts[2] == toks[k + 2]);
            assert(spec_parse_expr(toks, k) == spec_lambda_body(
                toks,
                k,
                ExprKind::Var(name_of(toks[k + 1])),
                k + 2,
            ));
            Derivation::Lambda(Box::new(db))
        } else {
            if toks[k + 1].class == TokenType::Ident {
                assert(toks[k + 1].class != TokenType::Eof);
                assert(spec_lambda_body(toks, k, ExprKind::Var(name_of(toks[k + 1])), k + 2).0 is Err);
            }
            assert(spec_parse_expr(toks, k).0 is Err);
            Derivation::Ident
        }
    } else {
        let d = lemma_infix_sound(toks, k);
        assert(spec_parse_expr(toks, k) == spec_parse_infix(toks, k));
        d
    }
}

proof fn lemma_infix_sound(toks: Seq<TokenView>, k: int) -> (d: Derivation)
    requires
        well_formed_tokens(toks),
        0 <= k < toks.len(),
        toks[k].class != TokenType::Lambda,
    ensures
        spec_parse_infix(toks, k).0 is Ok ==> infix_by(
            d,
            toks.subrange(k, spec_parse_infix(toks, k).1),
            toks[spec_parse_infix(toks, k).1].span,
            spec_parse_infix(toks, k).0->Ok_0,
        ),
        spec_parse_infix(toks, k).0 is Ok ==> !starts_atom(toks[spec_parse_infix(toks, k).1].class),
        d !is Lambda && d !is AnnotatedLambda,
    decreases remaining(toks, k), 2nat,
{
    let da = lemma_app_sound(toks, k);
    lemma_app_progress(toks, k);
    let (r, p) = spec_parse_app(toks, k);
    let c = toks[p].class;
    if r is Ok && (c == TokenType::To || c == TokenType::Product || c == TokenType::Eq) {
        assert(toks[p].class != TokenType::Eof);
        let db = lemma_app_sound(toks, p + 1);
        lemma_app_progress(toks, p + 1);
        let q = spec_parse_app(toks, p + 1).1;
        let ts = toks.subrange(k, q);
        let m = p - k;
        assert(ts.take(m) =~= toks.subrange(k, p));
        assert(ts.skip(m + 1) =~= toks.subrange(p + 1, q));
        Derivation::Infix(Box::new(da), m, Box::new(db))
    } else {
        da
    }
}

proof fn lemma_app_sound(toks: Seq<TokenView>, k: int) -> (d: Derivation)
    requires
        well_formed_tokens(toks),
        0 <= k < toks.len(),
    ensures
        spec_parse_app(toks, k).0 is Ok ==> app_by(
            d,
            toks.subrange(k, spec_parse_app(toks, k).1),
            toks[spec_parse_app(toks, k).1].span,
            spec_parse_app(toks, k).0->Ok_0,
        ),
        spec_parse_app(toks, k).0 is Ok ==> !starts_atom(toks[spec_parse_app(toks, k).1].class),
        d is Ident || d is Universe || d is Paren || d is App,
    decreases remaining(toks, k), 1nat,
{
    let da = lemma_atom_sound(toks, k);
    lemma_atom_progress(toks, k);
    let (r, p) = spec_parse_atom(toks, k);
    if r is Ok {
        lemma_app_rest_sound(toks, k, da, r->Ok_0, p)
    } else {
        da
    }
}

proof fn lemma_app_rest_sound(
    toks: Seq<TokenView>,
    k0: int,
    dacc: Derivation,
    acc: ExprView,
    k: int,
) -> (d: Derivation)
    requires
        well_formed_tokens(toks),
        0 <= k0 < k < toks.len(),
        app_by(dacc, toks.subrange(k0, k), toks[k].span, acc),
        dacc is Ident || dacc is Universe || dacc is Paren || dacc is App,
    ensures
        spec_app_rest(toks, acc, k).0 is Ok ==> app_by(
            d,
            toks.subrange(k0, spec_app_rest(toks, acc, k).1),
            toks[spec_app_rest(toks, acc, k).1].span,
            spec_app_rest(toks, acc, k).0->Ok_0,
        ),
        spec_app_rest(toks, acc, k).0 is Ok ==> !starts_atom(toks[spec_app_rest(toks, acc, k).1].class),
        d is Ident || d is Universe || d is Paren || d is App,
    decreases remaining(toks, k), 1nat,
{
    if starts_atom(toks[k].class) {
        let da = lemma_atom_sound(toks, k);
        lemma_atom_progress(toks, k);
        let (r, p) = spec_parse_atom(toks, k);
        if r is Ok {
            let arg = r->Ok_0;
            let acc2 = ExprView {
                class: ExprKind::App(Box::new(acc), Box::new(arg)),
                span: spec_merge(acc.span, arg.span),
            };
            let ts = toks.subrange(k0, p);
            let m = k - k0;
            assert(ts.take(m) =~= toks.subrange(k0, k));
            assert(ts.skip(m) =~= toks.subrange(k, p));
            let d2 = Derivation::App(Box::new(dacc), m, Box::new(da));
            assert(app_by(d2, ts, toks[p].span, acc2));
            lemma_app_rest_sound(toks, k0, d2, acc2, p)
        } else {
            dacc
        }
    } else {
        dacc
    }
}

proof fn lemma_atom_sound(toks: Seq<TokenView>, k: int) -> (d: Derivation)
    requires
        well_formed_tokens(toks),
        0 <= k < toks.len(),
    ensures
        spec_parse_atom(toks, k).0 is Ok ==> atom_by(
            d,
            toks.subrange(k, spec_parse_atom(toks, k).1),
            toks[spec_parse_atom(toks, k).1].span,
            spec_parse_atom(toks, k).0->Ok_0,
        ),
        d is Ident || d is Universe || d is Paren,
    decreases remaining(toks, k), 0nat,
{
    lemma_atom_progress(toks, k);
    if toks[k].class == TokenType::LeftPar {
        assert(toks[k].class != TokenType::Eof);
        let di = lemma_expr_sound(toks, k + 1);
        lemma_expr_progress(toks, k + 1);
        let p = spec_parse_expr(toks, k + 1).1;
        let ts = toks.subrange(k, p + 1);
        if toks[p].class == TokenType::RightPar {
            assert(toks[p].class != TokenType::Eof);
            assert(ts.subrange(1, ts.len() - 1) =~= toks.subrange(k + 1, p));
        }
        Derivation::Paren(Box::new(di))
    } else if toks[k].class == TokenType::Universe {
        Derivation::Universe
    } else {
        Derivation::Ident
    }
}

proof fn lemma_decl_sound(toks: Seq<TokenView>, k: int) -> (d: Derivation)
    requires
        well_formed_tokens(toks),
        0 <= k < toks.len(),
    ensures
        spec_parse_decl(toks, k).0 is Ok ==> decl_by(
            d,
            toks.subrange(k, spec_parse_decl(toks, k).1),
            toks[spec_parse_decl(toks, k).1].span,
            spec_parse_decl(toks, k).0->Ok_0,
        ),
        spec_parse_decl(toks, k).0 is Ok ==> !starts_atom(toks[spec_parse_decl(toks, k).1].class),
{
    lemma_decl_progress(toks, k);
    if toks[k].class == TokenType::Ident && (toks[k + 1].class == TokenType::Colon || toks[k
        + 1].class == TokenType::Assign) {
        assert(toks[k].class != TokenType::Eof);
        assert(toks[k + 1].class != TokenType::Eof);
        let d = lemma_expr_sound(toks, k + 2);
        lemma_expr_progress(toks, k + 2);
        let p = spec_parse_expr(toks, k + 2).1;
        assert(toks.subrange(k, p).skip(2) =~= toks.subrange(k + 2, p));
        d
    } else {
        Derivation::Ident
    }
}

proof fn lemma_program_sound(toks: Seq<TokenView>, k: int, acc: Seq<DeclView>) -> (r: (
    Seq<int>,
    Seq<Derivation>,
))
    requires
        well_formed_tokens(toks),
        0 <= k < toks.len(),
    ensures
        spec_parse_program(toks, k, acc).0 is Ok ==> program_by(
            r.0,
            r.1,
            toks.subrange(k, spec_parse_program(toks, k, acc).1),
            toks[spec_parse_program(toks, k, acc).1].span,
            spec_parse_program(toks, k, acc).0->Ok_0.skip(acc.len() as int),
        ),
    decreases remaining(toks, k),
{
    law_program_reads_to_end(toks, k, acc);
    if toks[k].class == TokenType::Eof {
        assert(toks.subrange(k, k) =~= Seq::<TokenView>::empty());
        (Seq::empty(), Seq::empty())
    } else if toks[k].class == TokenType::Newline {
        assert(toks[k].class != TokenType::Eof);
        let w = lemma_program_sound(toks, k + 1, acc);
        law_program_reads_to_end(toks, k + 1, acc);
        let p = spec_parse_program(toks, k, acc).1;
        assert(toks.subrange(k, p).skip(1) =~= toks.subrange(k + 1, p));
        w
    } else {
        let dd = lemma_decl_sound(toks, k);
        lemma_decl_progress(toks, k);
        let (r, p1) = spec_parse_decl(toks, k);
        if r is Ok {
            let d = r->Ok_0;
            let (lens, derivs) = lemma_program_sound(toks, p1, acc.push(d));
            law_program_reads_to_end(toks, p1, acc.push(d));
            let (rr, p) = spec_parse_program(toks, k, acc);
            let m = p1 - k;
            let lens2 = seq![m] + lens;
            let derivs2 = seq![dd] + derivs;
            if rr is Ok {
                let ds = rr->Ok_0;
                let ts = toks.subrange(k, p);
                let n = acc.len() as int;
                assert(ts.take(m) =~= toks.subrange(k, p1));
                assert(ts.skip(m) =~= toks.subrange(p1, p));
                assert(ds.subrange(0, n + 1) == acc.push(d));
                assert(ds.skip(n)[0] == ds.subrange(0, n + 1)[n]);
                assert(ds.skip(n).skip(1) =~= ds.skip(n + 1));
                assert(lens2.skip(1) =~= lens);
                assert(derivs2.skip(1) =~= derivs);
            }
            (lens2, derivs2)
        } else {
            (Seq::empty(), Seq::empty())
        }
    }
}

// ============ What has a derivation, the parser returns ============

/// Whether a token of kind `c` may stand right after an expression: it begins no
/// argument and is no infix operator, so the expression cannot go on over it.
pub open spec fn ends_expr(c: TokenType) -> bool {
    &&& !starts_atom(c)
    &&& c != TokenType::To
    &&& c != TokenType::Product
    &&& c != TokenType::Eq
}

/// Whether the derivation `d` ends in an infix expression: it is one, or it is a
/// λ-expression whose body ends in one. Such an expression is complete once its
/// right operand is read, whatever token follows.
pub open spec fn ends_in_infix(d: Derivation) -> bool
    decreases d,
{
    match d {
        Derivation::Infix(_, _, _) => true,
        Derivation::Lambda(db) => ends_in_infix(*db),
        Derivation::AnnotatedLambda(_, _, db) => ends_in_infix(*db),
        _ => false,
    }
}

proof fn lemma_atom_complete(toks: Seq<TokenView>, k: int, q: int, d: Derivation, e: ExprView)
    requires
        well_formed_tokens(toks),
        0 <= k < q < toks.len(),
        atom_by(d, toks.subrange(k, q), toks[q].span, e),
    ensures
        spec_parse_atom(toks, k) == (Ok::<ExprView, ParseErrorView>(e), q),
        starts_atom(toks[k].class),
    decreases d, 0nat,
{
    let ts = toks.subrange(k, q);
    assert(ts[0] == toks[k]);
    match d {
        Derivation::Paren(inner) => {
            assert(ts.subrange(1, ts.len() - 1) =~= toks.subrange(k + 1, q - 1));
            assert(ts[ts.len() - 1] == toks[q - 1]);
            lemma_expr_complete(toks, k + 1, q - 1, *inner, e);
        },
        Derivation::Universe => {
            assert(ts[1] == toks[k + 1]);
        },
        _ => {},
    }
}

proof fn lemma_app_complete(toks: Seq<TokenView>, k: int, j: int, d: Derivation, f: ExprView)
    requires
        well_formed_tokens(toks),
        0 <= k < j < toks.len(),
        app_by(d, toks.subrange(k, j), toks[j].span, f),
    ensures
        spec_parse_app(toks, k) == spec_app_rest(toks, f, j),
        starts_atom(toks[k].class),
    decreases d, 1nat,
{
    let ts = toks.subrange(k, j);
    match d {
        Derivation::App(df, m, da) => {
            match f.class {
                ExprKind::App(g, a) => {
                    assert(ts.take(m) =~= toks.subrange(k, k + m));
                    assert(ts.skip(m) =~= toks.subrange(k + m, j));
                    lemma_app_complete(toks, k, k + m, *df, *g);
                    lemma_atom_complete(toks, k + m, j, *da, *a);
                },
                _ => {},
            }
        },
        _ => {
            lemma_atom_complete(toks, k, j, d, f);
        },
    }
}

proof fn lemma_infix_complete(toks: Seq<TokenView>, k: int, q: int, d: Derivation, e: ExprView)
    requires
        well_formed_tokens(toks),
        0 <= k < q < toks.len(),
        infix_by(d, toks.subrange(k, q), toks[q].span, e),
        ends_expr(toks[q].class) || (ends_in_infix(d) && !starts_atom(toks[q].class)),
    ensures
        spec_parse_infix(toks, k) == (Ok::<ExprView, ParseErrorView>(e), q),
        starts_atom(toks[k].class),
    decreases d, 2nat,
{
    let ts = toks.subrange(k, q);
    match d {
        Derivation::Infix(da, m, db) => {
            let (op, a, b) = infix_parts(e)->Some_0;
            assert(ts.take(m) =~= toks.subrange(k, k + m));
            assert(ts.skip(m + 1) =~= toks.subrange(k + m + 1, q));
            assert(ts[m] == toks[k + m] && ts[0] == toks[k]);
            lemma_app_complete(toks, k, k + m, *da, a);
            lemma_app_complete(toks, k + m + 1, q, *db, b);
            assert(spec_parse_app(toks, k) == (Ok::<ExprView, ParseErrorView>(a), k + m));
            assert(spec_parse_app(toks, k + m + 1) == (Ok::<ExprView, ParseErrorView>(b), q));
        },
        _ => {
            lemma_app_complete(toks, k, q, d, e);
            assert(spec_parse_app(toks, k) == (Ok::<ExprView, ParseErrorView>(e), q));
        },
    }
}

proof fn lemma_expr_complete(toks: Seq<TokenView>, k: int, q: int, d: Derivation, e: ExprView)
    requires
        well_formed_tokens(toks),
        0 <= k < q < toks.len(),
        expr_by(d, toks.subrange(k, q), toks[q].span, e),
        ends_expr(toks[q].class) || (ends_in_infix(d) && !starts_atom(toks[q].class)),
    ensures
        spec_parse_expr(toks, k) == (Ok::<ExprView, ParseErrorView>(e), q),
    decreases d, 3nat,
{
    let ts = toks.subrange(k, q);
    match d {
        Derivation::Lambda(db) => {
            match e.class {
                ExprKind::Func(n, param, body) => {
                    assert(ts[0] == toks[k] && ts[1] == toks[k + 1] && ts[2] == toks[k + 2]);
                    assert(ts.skip(3) =~= toks.subrange(k + 3, q));
                    lemma_expr_complete(toks, k + 3, q, *db, *body);
                    let pk = ExprKind::Var(name_of(toks[k + 1]));
                    assert(spec_parse_expr(toks, k) == spec_lambda_body(toks, k, pk, k + 2));
                    let span = spec_merge(toks[k].span, body.span);
                    assert(*param == ExprView { class: pk, span });
                    assert(spec_lambda_body(toks, k, pk, k + 2) == (
                        Ok::<ExprView, ParseErrorView>(
                            ExprView {
                                class: ExprKind::Func(
                                    NameView { text: "_"@, span: None },
                                    Box::new(ExprView { class: pk, span }),
                                    body,
                                ),
                                span,
                            },
                        ),
                        q,
                    ));
                },
                _ => {},
            }
        },
        Derivation::AnnotatedLambda(dt, m, db) => {
            match e.class {
                ExprKind::Func(n, param, body) => {
                    match param.class {
                        ExprKind::Anno(x, ty) => {
                            assert(ts[0] == toks[k] && ts[1] == toks[k + 1] && ts[2] == toks[k + 2]
                                && ts[3] == toks[k + 3] && ts[m] == toks[k + m] && ts[m + 1]
                                == toks[k + m + 1]);
                            assert(ts.subrange(4, m) =~= toks.subrange(k + 4, k + m));
                            assert(ts.skip(m + 2) =~= toks.subrange(k + m + 2, q));
                            lemma_expr_complete(toks, k + 4, k + m, *dt, *ty);
                            lemma_expr_complete(toks, k + m + 2, q, *db, *body);
                            let xv = toks[k + 2];
                            let pk = ExprKind::Anno(
                                Box::new(
                                    ExprView {
                                        class: ExprKind::Var(NameView { text: xv.literal, span: None }),
                                        span: xv.span,
                                    },
                                ),
                                ty,
                            );
                            assert(spec_parse_expr(toks, k) == spec_lambda_body(toks, k, pk, k + m + 1));
                            let span = spec_merge(toks[k].span, body.span);
                            assert(spec_lambda_body(toks, k, pk, k + m + 1) == (
                                Ok::<ExprView, ParseErrorView>(
                                    ExprView {
                                        class: ExprKind::Func(
                                            NameView { text: "_"@, span: None },
                                            Box::new(ExprView { class: pk, span }),
                                            body,
                                        ),
                                        span,
                                    },
                                ),
                                q,
                            ));
                        },
                        _ => {},
                    }
                },
                _ => {},
            }
        },
        _ => {
            lemma_infix_complete(toks, k, q, d, e);
        },
    }
}

proof fn lemma_decl_complete(toks: Seq<TokenView>, k: int, q: int, d: Derivation, decl: DeclView)
    requires
        well_formed_tokens(toks),
        0 <= k < q < toks.len(),
        decl_by(d, toks.subrange(k, q), toks[q].span, decl),
        ends_expr(toks[q].class),
    ensures
        spec_parse_decl(toks, k) == (Ok::<DeclView, ParseErrorView>(decl), q),
{
    let ts = toks.subrange(k, q);
    assert(ts[0] == toks[k] && ts[1] == toks[k + 1]);
    assert(ts.skip(2) =~= toks.subrange(k + 2, q));
    match decl.class {
        DeclKind::Sig(n, ty) => lemma_expr_complete(toks, k + 2, q, d, ty),
        DeclKind::Def(n, body) => lemma_expr_complete(toks, k + 2, q, d, body),
    }
}

proof fn lemma_program_complete(
    toks: Seq<TokenView>,
    k: int,
    lens: Seq<int>,
    derivs: Seq<Derivation>,
    ds: Seq<DeclView>,
    acc: Seq<DeclView>,
)
    requires
        well_formed_tokens(toks),
        0 <= k < toks.len(),
        program_by(lens, derivs, toks.subrange(k, toks.len() - 1), toks[toks.len() - 1].span, ds),
    ensures
        spec_parse_program(toks, k, acc) == (
            Ok::<Seq<DeclView>, ParseErrorView>(acc + ds),
            toks.len() - 1,
        ),
    decreases toks.len() - k,
{
    let ts = toks.subrange(k, toks.len() - 1);
    if ts.len() == 0 {
        assert(acc + ds =~= acc);
    } else {
        assert(ts[0] == toks[k]);
        if ts[0].class == TokenType::Newline {
            assert(ts.skip(1) =~= toks.subrange(k + 1, toks.len() - 1));
            lemma_program_complete(toks, k + 1, lens, derivs, ds, acc);
        } else {
            let n = lens[0];
            assert(ts.take(n) =~= toks.subrange(k, k + n));
            assert(ts.skip(n) =~= toks.subrange(k + n, toks.len() - 1));
            if n < ts.len() {
                assert(ts[n] == toks[k + n]);
            }
            lemma_decl_complete(toks, k, k + n, derivs[0], ds[0]);
            lemma_program_complete(
                toks,
                k + n,
                lens.skip(1),
                derivs.skip(1),
                ds.skip(1),
                acc.push(ds[0]),
            );
            assert(acc.push(ds[0]) + ds.skip(1) =~= acc + ds);
        }
    }
}

/// What the parser returns for a whole program has a derivation in the grammar: the
/// tokens of the source, up to the end of the input, are a program whose
/// declarations are the ones returned.
pub proof fn law_parse_program_follows_grammar(toks: Seq<TokenView>)
    requires
        well_formed_tokens(toks),
    ensures
        spec_parse_program(toks, 0, Seq::empty()).0 is Ok ==> {
            let p = spec_parse_program(toks, 0, Seq::empty()).1;
            &&& p == toks.len() - 1
            &&& derives_program(
                toks.subrange(0, p),
                toks[p].span,
                spec_parse_program(toks, 0, Seq::empty()).0->Ok_0,
            )
        },
{
    let (lens, derivs) = lemma_program_sound(toks, 0, Seq::empty());
    law_program_reads_to_end(toks, 0, Seq::empty());
    let (r, p) = spec_parse_program(toks, 0, Seq::empty());
    if r is Ok {
        assert(r->Ok_0.skip(0) =~= r->Ok_0);
        assert(program_by(lens, derivs, toks.subrange(0, p), toks[p].span, r->Ok_0));
    }
}

/// What the parser returns for an expression has a derivation in the grammar, from
/// the tokens that it took.
pub proof fn law_parse_expr_follows_grammar(toks: Seq<TokenView>, k: int)
    requires
        well_formed_tokens(toks),
        0 <= k < toks.len(),
    ensures
        spec_parse_expr(toks, k).0 is Ok ==> derives_expr(
            toks.subrange(k, spec_parse_expr(toks, k).1),
            toks[spec_parse_expr(toks, k).1].span,
            spec_parse_expr(toks, k).0->Ok_0,
        ),
{
    let d = lemma_expr_sound(toks, k);
    if spec_parse_expr(toks, k).0 is Ok {
        let p = spec_parse_expr(toks, k).1;
        assert(expr_by(d, toks.subrange(k, p), toks[p].span, spec_parse_expr(toks, k).0->Ok_0));
    }
}

/// Every program of the grammar is parsed: when the tokens of the source, up to the
/// end of the input, are a program whose declarations are `ds`, the parser returns
/// exactly `ds` and stops at the end of the input.
pub proof fn law_grammar_programs_parse(toks: Seq<TokenView>, ds: Seq<DeclView>)
    requires
        well_formed_tokens(toks),
        derives_program(toks.subrange(0, toks.len() - 1), toks[toks.len() - 1].span, ds),
    ensures
        spec_parse_program(toks, 0, Seq::empty()) == (
            Ok::<Seq<DeclView>, ParseErrorView>(ds),
            toks.len() - 1,
        ),
{
    let (lens, derivs) = choose|lens: Seq<int>, derivs: Seq<Derivation>|
        #[trigger] program_by(
            lens,
            derivs,
            toks.subrange(0, toks.len() - 1),
            toks[toks.len() - 1].span,
            ds,
        );
    lemma_program_complete(toks, 0, lens, derivs, ds, Seq::empty());
    assert(Seq::<DeclView>::empty() + ds =~= ds);
}

/// Every expression of the grammar is parsed: when `toks[k..q]` is an expression
/// whose tree is `e`, and the token at `q` cannot continue an expression, the parser
/// returns `e` from `k` and stops at `q`.
pub proof fn law_grammar_exprs_parse(toks: Seq<TokenView>, k: int, q: int, e: ExprView)
    requires
        well_formed_tokens(toks),
        0 <= k < q < toks.len(),
        derives_expr(toks.subrange(k, q), toks[q].span, e),
        ends_expr(toks[q].class),
    ensures
        spec_parse_expr(toks, k) == (Ok::<ExprView, ParseErrorView>(e), q),
{
    let d = choose|d: Derivation| #[trigger] expr_by(d, toks.subrange(k, q), toks[q].span, e);
    lemma_expr_complete(toks, k, q, d, e);
}

/// A source text parses as the declarations `ds` exactly when its tokens, up to the
/// end of the input, are a program of the grammar whose declarations are `ds`.
pub proof fn law_source_parses_by_grammar(src: Seq<char>, ds: Seq<DeclView>)
    ensures
        ({
            let toks = tokens_of(src);
            spec_parse_program(toks, 0, Seq::empty()).0 == Ok::<Seq<DeclView>, ParseErrorView>(ds)
                <==> derives_program(
                toks.subrange(0, toks.len() - 1),
                toks[toks.len() - 1].span,
                ds,
            )
        }),
{
    lemma_lex_from(src, 0);
    let toks = tokens_of(src);
    assert(well_formed_tokens(toks));
    law_parse_program_follows_grammar(toks);
    if derives_program(toks.subrange(0, toks.len() - 1), toks[toks.len() - 1].span, ds) {
        law_grammar_programs_parse(toks, ds);
    }
}

/// An expression that ends in an infix expression stops where its right operand
/// ends: when `toks[k..q]` is such an expression, with tree `e`, and the token at `q`
/// begins no argument, the parser returns `e` from `k` and stops at `q`, even where
/// that token is another infix operator (so `A -> B -> C` reads as `A -> B`, leaving
/// the second `->`).
pub proof fn law_infix_expr_stops_after_its_operand(
    toks: Seq<TokenView>,
    k: int,
    q: int,
    d: Derivation,
    e: ExprView,
)
    requires
        well_formed_tokens(toks),
        0 <= k < q < toks.len(),
        expr_by(d, toks.subrange(k, q), toks[q].span, e),
        ends_in_infix(d),
        !starts_atom(toks[q].class),
    ensures
        spec_parse_expr(toks, k) == (Ok::<ExprView, ParseErrorView>(e), q),
{
    lemma_expr_complete(toks, k, q, d, e);
}

} // verus!
