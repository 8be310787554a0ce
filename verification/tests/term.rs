use ttparse::definitions::Name;
use ttparse::syntax::term::Term;

fn func(t: Term) -> Term {
    Term::Func(Box::new(t))
}

fn app(f: Term, a: Term) -> Term {
    Term::App(Box::new(f), Box::new(a))
}

#[test]
fn test_shift() {
    // λ. #0
    let t = Term::Func(Box::new(Term::Var(0)));
    assert_eq!(t.shift(0, 1), Term::Func(Box::new(Term::Var(0))));

    // #0
    let t = Term::Var(0);
    assert_eq!(t.shift(0, 1), Term::Var(1));
}

#[test]
fn test_subst() {
    // (λ. #0) with #0 :≡ y
    let t = Term::Func(Box::new(Term::Var(0)));
    let s = Term::Var(42);
    assert_eq!(t.subst(0, &s), Term::Func(Box::new(Term::Var(0))));

    // #0 with #0 :≡ y
    let t = Term::Var(0);
    let s = Term::Var(42);
    assert_eq!(t.subst(0, &s), Term::Var(42));
}

#[test]
fn shift_moves_only_free_variables() {
    // λ. (#0 #1)  shifted by 2 gives  λ. (#0 #3)
    let t = func(app(Term::Var(0), Term::Var(1)));
    assert_eq!(t.shift(0, 2), func(app(Term::Var(0), Term::Var(3))));
    // a negative amount moves down
    assert_eq!(Term::Var(5).shift(2, -3), Term::Var(2));
    // below the cutoff nothing moves
    assert_eq!(Term::Var(1).shift(2, 7), Term::Var(1));
}

#[test]
fn subst_under_binder_shifts_the_replacement() {
    // λ. #1  with #0 :≡ #0  gives  λ. #1
    let t = func(Term::Var(1));
    assert_eq!(t.subst(0, &Term::Var(0)), func(Term::Var(1)));
    // variables above the index move down
    assert_eq!(Term::Var(3).subst(1, &Term::Var(9)), Term::Var(2));
    assert_eq!(Term::Var(0).subst(1, &Term::Var(9)), Term::Var(0));
}

#[test]
fn subst_in_annotation_uses_the_annotated_term() {
    let t = Term::Anno(Box::new(Term::Var(0)), Box::new(Term::Var(0)));
    assert_eq!(
        t.subst(0, &Term::Var(42)),
        Term::Anno(Box::new(Term::Var(0)), Box::new(Term::Var(0)))
    );
    let t = Term::Anno(Box::new(Term::Var(1)), Box::new(Term::Var(1)));
    assert_eq!(
        t.subst(0, &Term::Var(42)),
        Term::Anno(Box::new(Term::Var(0)), Box::new(Term::Var(0)))
    );
    let t = Term::Anno(Box::new(Term::Var(0)), Box::new(Term::Var(1)));
    assert_eq!(
        t.subst(0, &Term::Var(42)),
        Term::Anno(Box::new(Term::Var(0)), Box::new(Term::Var(0)))
    );
}

#[test]
fn shift_down_undoes_shift_up() {
    let t = func(app(Term::Var(3), Term::Anno(Box::new(Term::Var(0)), Box::new(Term::Var(1)))));
    assert_eq!(t.shift(1, 4).shift(1, -4), t);
}

#[test]
fn shift_by_zero_changes_nothing() {
    let t = func(app(Term::Var(0), Term::Global(Name::raw("g".to_string()))));
    assert_eq!(t.shift(0, 0), t);
}

#[test]
fn two_shifts_are_one() {
    let t = func(app(Term::Var(2), Term::Var(0)));
    assert_eq!(t.shift(1, 2).shift(1, 3), t.shift(1, 5));
}

#[test]
fn subst_after_shift_gives_back_the_term() {
    let t = func(app(Term::Var(2), Term::Anno(Box::new(Term::Var(0)), Box::new(Term::Var(1)))));
    let s = Term::Global(Name::raw("s".to_string()));
    assert_eq!(t.shift(0, 1).subst(0, &s), t);
}

#[test]
fn render_terms() {
    let t = func(app(Term::Var(0), Term::Global(Name::raw("y".to_string()))));
    assert_eq!(t.render(), "(λ. (#0 y))");
    assert_eq!(Term::Var(-3).render(), "#-3");
    assert_eq!(Term::Var(i32::MIN).render(), "#-2147483648");
    assert_eq!(Term::Universe(12).render(), "𝒰 12");
    assert_eq!(
        Term::FuncType(Box::new(Term::Universe(0)), Box::new(Term::Var(7))).render(),
        "(𝒰 0 -> #7)"
    );
    assert_eq!(
        Term::Anno(Box::new(Term::Var(1)), Box::new(Term::Universe(1))).render(),
        "(#1: 𝒰 1)"
    );
}
