use ttparse::definitions::{Name, Span};
use ttparse::parser::parser::Parser;
use ttparse::syntax::surface::{Decl, DeclType, Expr, ExprType};

fn named(text: &str, start: usize, end: usize) -> Name {
    Name::with_span(text.to_string(), Span::new(start, end))
}

fn var(text: &str, start: usize, end: usize, span: Span) -> Expr {
    Expr::var(named(text, start, end), span)
}

#[test]
fn lambda_with_plain_parameter() {
    let mut parser = Parser::new("λ x . x");
    let e = parser.parse_expr().unwrap();
    let span = Span::new(0, 8);
    let expected = Expr::unnamed_func(
        Expr { class: ExprType::Var(named("x", 3, 4)), span },
        var("x", 7, 8, Span::new(8, 8)),
        span,
    );
    assert_eq!(e, expected);
}

#[test]
fn lambda_with_annotated_parameter() {
    let mut parser = Parser::new("λ (x : A) . x");
    let e = parser.parse_expr().unwrap();
    let span = Span::new(0, 14);
    let parameter = ExprType::Anno(
        Box::new(Expr::var(Name::raw("x".to_string()), Span::new(4, 5))),
        Box::new(var("A", 8, 9, Span::new(9, 10))),
    );
    let expected = Expr::unnamed_func(
        Expr { class: parameter, span },
        var("x", 13, 14, Span::new(14, 14)),
        span,
    );
    assert_eq!(e, expected);
}

#[test]
fn application_and_function_type() {
    let mut parser = Parser::new("f : A -> B");
    let decls = parser.parse_program().unwrap();
    let ty = Expr {
        class: ExprType::FuncType(
            Box::new(var("A", 4, 5, Span::new(6, 7))),
            Box::new(var("B", 9, 10, Span::new(10, 10))),
        ),
        span: Span::new(4, 10),
    };
    assert_eq!(
        decls,
        vec![Decl { class: DeclType::Sig(named("f", 0, 1), ty), span: Span::new(0, 10) }]
    );
}

#[test]
fn definitions_and_products() {
    let mut parser = Parser::new("p :≡ f (a) × b");
    let decls = parser.parse_program().unwrap();
    assert_eq!(decls.len(), 1);
    match &decls[0].class {
        DeclType::Def(name, body) => {
            assert_eq!(name.text, "p");
            match &body.class {
                ExprType::PairType(left, right) => {
                    assert!(matches!(left.class, ExprType::App(_, _)));
                    assert!(matches!(right.class, ExprType::Var(_)));
                }
                other => panic!("unexpected {:?}", other),
            }
        }
        other => panic!("unexpected {:?}", other),
    }
}

#[test]
fn equality_and_universe() {
    let mut parser = Parser::new("𝒰 1 = X");
    let e = parser.parse_expr().unwrap();
    let expected = Expr {
        class: ExprType::EqType(
            Box::new(Expr::universe("1".to_string(), Span::new(5, 6))),
            Box::new(var("X", 9, 10, Span::new(10, 10))),
        ),
        span: Span::new(0, 10),
    };
    assert_eq!(e, expected);
}

#[test]
fn application_is_left_nested() {
    let mut parser = Parser::new("f a b");
    let e = parser.parse_expr().unwrap();
    match e.class {
        ExprType::App(fa, b) => {
            assert!(matches!(fa.class, ExprType::App(_, _)));
            assert_eq!(*b, var("b", 4, 5, Span::new(5, 5)));
        }
        other => panic!("unexpected {:?}", other),
    }
}

#[test]
fn empty_program() {
    let mut parser = Parser::new("  // nothing here");
    assert_eq!(parser.parse_program().unwrap(), vec![]);
}

#[test]
fn missing_dot_is_reported() {
    let mut parser = Parser::new("λ x x");
    let err = parser.parse_expr().unwrap_err();
    assert_eq!(err.message, "Expected '.', found identifier");
    assert_eq!(err.span, Span::new(5, 6));
}

#[test]
fn declarations_on_separate_lines() {
    let mut parser = Parser::new("a : T\nb : U");
    let decls = parser.parse_program().unwrap();
    assert_eq!(
        decls,
        vec![
            Decl {
                class: DeclType::Sig(named("a", 0, 1), var("T", 4, 5, Span::new(6, 6))),
                span: Span::new(0, 6),
            },
            Decl {
                class: DeclType::Sig(named("b", 6, 7), var("U", 10, 11, Span::new(11, 11))),
                span: Span::new(6, 11),
            },
        ]
    );
}

#[test]
fn blank_lines_between_declarations() {
    let mut parser = Parser::new("\n\na :≡ b\n\n// note\nc : 𝒰 0\n");
    let decls = parser.parse_program().unwrap();
    assert_eq!(decls.len(), 2);
    assert!(matches!(decls[0].class, DeclType::Def(_, _)));
    assert!(matches!(decls[1].class, DeclType::Sig(_, _)));
}

#[test]
fn a_line_feed_ends_an_application() {
    let mut parser = Parser::new("a : f x\ny : g");
    let decls = parser.parse_program().unwrap();
    assert_eq!(decls.len(), 2);
}

#[test]
fn two_declarations_on_one_line_do_not_parse() {
    let mut parser = Parser::new("a : T b : U");
    let err = parser.parse_program().unwrap_err();
    assert_eq!(err.message, "Expected identifier, found ':'");
}

#[test]
fn variable_takes_the_span_of_the_next_token() {
    let mut parser = Parser::new("x y");
    let e = parser.parse_expr().unwrap();
    assert_eq!(
        e,
        Expr::app(var("x", 0, 1, Span::new(2, 3)), var("y", 2, 3, Span::new(3, 3)), Span::new(2, 3))
    );
}

#[test]
fn universe_as_an_argument() {
    let mut parser = Parser::new("f 𝒰 0");
    let e = parser.parse_expr().unwrap();
    assert_eq!(
        e,
        Expr::app(
            var("f", 0, 1, Span::new(2, 6)),
            Expr::universe("0".to_string(), Span::new(7, 8)),
            Span::new(2, 8)
        )
    );
}

#[test]
fn missing_assignment_is_reported() {
    let mut parser = Parser::new("x");
    let err = parser.parse_program().unwrap_err();
    assert_eq!(err.message, "Expected ':≡', found end of file");
    assert_eq!(err.span, Span::new(1, 1));
}

#[test]
fn universe_needs_a_number() {
    let mut parser = Parser::new("𝒰 x");
    let err = parser.parse_expr().unwrap_err();
    assert_eq!(err.message, "Expected number, found identifier");
}

#[test]
fn unclosed_parenthesis_is_reported() {
    let mut parser = Parser::new("(a b");
    let err = parser.parse_expr().unwrap_err();
    assert_eq!(err.message, "Expected ')', found end of file");
    assert_eq!(err.span, Span::new(4, 4));
}

#[test]
fn infix_operators_do_not_chain() {
    let mut parser = Parser::new("a : A -> B -> C");
    let err = parser.parse_program().unwrap_err();
    assert_eq!(err.message, "Expected identifier, found '->'");
    assert_eq!(err.span, Span::new(11, 12));
}
