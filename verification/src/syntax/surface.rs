//! Surface syntax: expressions and declarations as they are written.
use vstd::prelude::*;

use crate::definitions::{Name, Span};

verus! {

// ============ Expressions ============

#[derive(Debug, PartialEq, Eq)]
pub enum ExprType {
    // simple type theory
    Var(Name),
    Func(Name, Box<Expr>, Box<Expr>),
    App(Box<Expr>, Box<Expr>),
    /// A type annotation.
    Anno(Box<Expr>, Box<Expr>),
    // type formers
    FuncType(Box<Expr>, Box<Expr>),
    PairType(Box<Expr>, Box<Expr>),
    EqType(Box<Expr>, Box<Expr>),
    /// A universe, with its level as written.
    Universe(String),
}

#[derive(Debug, PartialEq, Eq)]
pub struct Expr {
    pub class: ExprType,
    pub span: Span,
}

/// A name with its text as a sequence of characters.
pub struct NameView {
    pub text: Seq<char>,
    pub span: Option<Span>,
}

impl View for Name {
    type V = NameView;

    open spec fn view(&self) -> NameView {
        NameView { text: self.text@, span: self.span }
    }
}

/// The shape of an expression, with texts as sequences of characters.
pub enum ExprKind {
    Var(NameView),
    Func(NameView, Box<ExprView>, Box<ExprView>),
    App(Box<ExprView>, Box<ExprView>),
    Anno(Box<ExprView>, Box<ExprView>),
    FuncType(Box<ExprView>, Box<ExprView>),
    PairType(Box<ExprView>, Box<ExprView>),
    EqType(Box<ExprView>, Box<ExprView>),
    Universe(Seq<char>),
}

/// An expression with texts as sequences of characters.
pub struct ExprView {
    pub class: ExprKind,
    pub span: Span,
}

pub open spec fn expr_view(e: Expr) -> ExprView
    decreases e,
{
    ExprView { class: kind_view(e.class), span: e.span }
}

pub open spec fn kind_view(k: ExprType) -> ExprKind
    decreases k,
{
    match k {
        ExprType::Var(n) => ExprKind::Var(n@),
        ExprType::Func(n, p, b) => ExprKind::Func(
            n@,
            Box::new(expr_view(*p)),
            Box::new(expr_view(*b)),
        ),
        ExprType::App(f, a) => ExprKind::App(Box::new(expr_view(*f)), Box::new(expr_view(*a))),
        ExprType::Anno(e, t) => ExprKind::Anno(Box::new(expr_view(*e)), Box::new(expr_view(*t))),
        ExprType::FuncType(a, b) => ExprKind::FuncType(
            Box::new(expr_view(*a)),
            Box::new(expr_view(*b)),
        ),
        ExprType::PairType(a, b) => ExprKind::PairType(
            Box::new(expr_view(*a)),
            Box::new(expr_view(*b)),
        ),
        ExprType::EqType(a, b) => ExprKind::EqType(
            Box::new(expr_view(*a)),
            Box::new(expr_view(*b)),
        ),
        ExprType::Universe(level) => ExprKind::Universe(level@),
    }
}

impl View for Expr {
    type V = ExprView;

    open spec fn view(&self) -> ExprView {
        expr_view(*self)
    }
}

impl Expr {
    pub fn var(name: Name, span: Span) -> (e: Self)
        ensures
            e@ == (ExprView { class: ExprKind::Var(name@), span }),
    {
        Expr { class: ExprType::Var(name), span }
    }

    /// A function whose parameter is not named: its name is `_`.
    pub fn unnamed_func(parameter: Expr, body: Expr, span: Span) -> (e: Self)
        ensures
            e@ == (ExprView {
                class: ExprKind::Func(
                    NameView { text: "_"@, span: None },
                    Box::new(parameter@),
                    Box::new(body@),
                ),
                span,
            }),
    {
        Expr {
            class: ExprType::Func(Name::raw("_".to_owned()), Box::new(parameter), Box::new(body)),
            span: span,
        }
    }

    pub fn app(func: Expr, arg: Expr, span: Span) -> (e: Self)
        ensures
            e@ == (ExprView { class: ExprKind::App(Box::new(func@), Box::new(arg@)), span }),
    {
        Expr { class: ExprType::App(Box::new(func), Box::new(arg)), span }
    }

    /// The universe of the level written as `level`.
    pub fn universe(level: String, span: Span) -> (e: Self)
        ensures
            e@ == (ExprView { class: ExprKind::Universe(level@), span }),
    {
        Expr { class: ExprType::Universe(level), span }
    }
}

// ============ Top-level declarations ============

#[derive(Debug, PartialEq, Eq)]
pub enum DeclType {
    /// A type signature.
    Sig(Name, Expr),
    /// A definition.
    Def(Name, Expr),
}

#[derive(Debug, PartialEq, Eq)]
pub struct Decl {
    pub class: DeclType,
    pub span: Span,
}

pub enum DeclKind {
    Sig(NameView, ExprView),
    Def(NameView, ExprView),
}

/// A declaration with texts as sequences of characters.
pub struct DeclView {
    pub class: DeclKind,
    pub span: Span,
}

impl View for Decl {
    type V = DeclView;

    open spec fn view(&self) -> DeclView {
        DeclView {
            class: match self.class {
                DeclType::Sig(n, e) => DeclKind::Sig(n@, e@),
                DeclType::Def(n, e) => DeclKind::Def(n@, e@),
            },
            span: self.span,
        }
    }
}

impl Clone for Expr {
    fn clone(&self) -> (r: Self)
        ensures
            r == *self,
        decreases self,
    {
        Expr { class: self.class.clone(), span: self.span }
    }
}

impl Clone for ExprType {
    fn clone(&self) -> (r: Self)
        ensures
            r == *self,
        decreases self,
    {
        match self {
            ExprType::Var(n) => ExprType::Var(n.clone()),
            ExprType::Func(n, p, b) => ExprType::Func(
                n.clone(),
                Box::new((**p).clone()),
                Box::new((**b).clone()),
            ),
            ExprType::App(f, a) => ExprType::App(Box::new((**f).clone()), Box::new((**a).clone())),
            ExprType::Anno(e, t) => ExprType::Anno(Box::new((**e).clone()), Box::new((**t).clone())),
            ExprType::FuncType(a, b) => ExprType::FuncType(
                Box::new((**a).clone()),
                Box::new((**b).clone()),
            ),
            ExprType::PairType(a, b) => ExprType::PairType(
                Box::new((**a).clone()),
                Box::new((**b).clone()),
            ),
            ExprType::EqType(a, b) => ExprType::EqType(
                Box::new((**a).clone()),
                Box::new((**b).clone()),
            ),
            ExprType::Universe(level) => ExprType::Universe(level.clone()),
        }
    }
}

impl Clone for DeclType {
    fn clone(&self) -> (r: Self)
        ensures
            r == *self,
    {
        match self {
            DeclType::Sig(n, e) => DeclType::Sig(n.clone(), e.clone()),
            DeclType::Def(n, e) => DeclType::Def(n.clone(), e.clone()),
        }
    }
}

impl Clone for Decl {
    fn clone(&self) -> (r: Self)
        ensures
            r == *self,
    {
        Decl { class: self.class.clone(), span: self.span }
    }
}

} // verus!
