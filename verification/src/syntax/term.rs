//! Core syntax: terms with de Bruijn indices.
use vstd::prelude::*;

use vstd::string::StringExecFns;

use crate::definitions::Name;
use crate::parser::text::{decimal, int_text, push_decimal, push_int};

verus! {

/// A core term. Bound variables are de Bruijn indices.
#[derive(Debug, PartialEq, Eq)]
pub enum Term {
    /// A bound variable, as a de Bruijn index.
    Var(i32),
    /// A global variable.
    Global(Name),
    Func(Box<Term>),
    App(Box<Term>, Box<Term>),
    Anno(Box<Term>, Box<Term>),
    Universe(usize),
    FuncType(Box<Term>, Box<Term>),
}

impl Clone for Term {
    fn clone(&self) -> (r: Self)
        ensures
            r == *self,
        decreases self,
    {
        match self {
            Term::Var(i) => Term::Var(*i),
            Term::Global(name) => Term::Global(name.clone()),
            Term::Func(body) => Term::Func(Box::new((**body).clone())),
            Term::App(f, a) => Term::App(Box::new((**f).clone()), Box::new((**a).clone())),
            Term::Anno(t, ty) => Term::Anno(Box::new((**t).clone()), Box::new((**ty).clone())),
            Term::Universe(level) => Term::Universe(*level),
            Term::FuncType(d, c) => Term::FuncType(Box::new((**d).clone()), Box::new((**c).clone())),
        }
    }
}

/// Whether `x` fits in an `i32`.
pub open spec fn fits_i32(x: int) -> bool {
    i32::MIN <= x <= i32::MAX
}

/// Shifting `t` by `amount` above `cutoff` stays within `i32`: every shifted index
/// fits, and so does the cutoff under every binder.
pub open spec fn shift_ok(t: Term, cutoff: int, amount: int) -> bool
    decreases t,
{
    match t {
        Term::Var(i) => i >= cutoff ==> fits_i32(i + amount),
        Term::Global(_) => true,
        Term::Func(body) => cutoff + 1 <= i32::MAX && shift_ok(*body, cutoff + 1, amount),
        Term::App(f, a) => shift_ok(*f, cutoff, amount) && shift_ok(*a, cutoff, amount),
        Term::Anno(e, ty) => shift_ok(*e, cutoff, amount) && shift_ok(*ty, cutoff, amount),
        Term::Universe(_) => true,
        Term::FuncType(d, c) => shift_ok(*d, cutoff, amount) && shift_ok(*c, cutoff, amount),
    }
}

/// `t` with every variable whose index is at least `cutoff` (counted under the binders
/// passed so far) moved by `amount`.
pub open spec fn spec_shift(t: Term, cutoff: int, amount: int) -> Term
    decreases t,
{
    match t {
        Term::Var(i) => if i >= cutoff {
            Term::Var((i + amount) as i32)
        } else {
            Term::Var(i)
        },
        Term::Global(n) => Term::Global(n),
        Term::Func(body) => Term::Func(Box::new(spec_shift(*body, cutoff + 1, amount))),
        Term::App(f, a) => Term::App(
            Box::new(spec_shift(*f, cutoff, amount)),
            Box::new(spec_shift(*a, cutoff, amount)),
        ),
        Term::Anno(e, ty) => Term::Anno(
            Box::new(spec_shift(*e, cutoff, amount)),
            Box::new(spec_shift(*ty, cutoff, amount)),
        ),
        Term::Universe(l) => Term::Universe(l),
        Term::FuncType(d, c) => Term::FuncType(
            Box::new(spec_shift(*d, cutoff, amount)),
            Box::new(spec_shift(*c, cutoff, amount)),
        ),
    }
}

/// Substituting into `t` stays within `i32`: the index under every binder fits, and so
/// do the shifts of the replacement made on the way.
pub open spec fn subst_ok(t: Term, index: int, s: Term) -> bool
    decreases t,
{
    match t {
        Term::Var(_) => true,
        Term::Global(_) => true,
        Term::Func(body) => index + 1 <= i32::MAX && shift_ok(s, 0, 1) && subst_ok(
            *body,
            index + 1,
            spec_shift(s, 0, 1),
        ),
        Term::App(f, a) => subst_ok(*f, index, s) && subst_ok(*a, index, s),
        Term::Anno(e, ty) => subst_ok(*e, index, *e) && subst_ok(*ty, index, *e),
        Term::Universe(_) => true,
        Term::FuncType(d, c) => subst_ok(*d, index, s) && subst_ok(*c, index, s),
    }
}

/// `t` with variable `index` replaced by `s`, variables above `index` moved down by
/// one, and `s` shifted up by one under each binder. Within an annotation `(e : ty)`
/// the replacement is `e` itself, in both halves.
pub open spec fn spec_subst(t: Term, index: int, s: Term) -> Term
    decreases t,
{
    match t {
        Term::Var(i) => if i == index {
            s
        } else if i > index {
            Term::Var((i - 1) as i32)
        } else {
            Term::Var(i)
        },
        Term::Global(n) => Term::Global(n),
        Term::Func(body) => Term::Func(Box::new(spec_subst(*body, index + 1, spec_shift(s, 0, 1)))),
        Term::App(f, a) => Term::App(
            Box::new(spec_subst(*f, index, s)),
            Box::new(spec_subst(*a, index, s)),
        ),
        Term::Anno(e, ty) => Term::Anno(
            Box::new(spec_subst(*e, index, *e)),
            Box::new(spec_subst(*ty, index, *e)),
        ),
        Term::Universe(l) => Term::Universe(l),
        Term::FuncType(d, c) => Term::FuncType(
            Box::new(spec_subst(*d, index, s)),
            Box::new(spec_subst(*c, index, s)),
        ),
    }
}

impl Term {
    /// Moves every variable at or above `cutoff` by `amount`.
    pub fn shift(&self, cutoff: i32, amount: i32) -> (r: Term)
        requires
            shift_ok(*self, cutoff as int, amount as int),
        ensures
            r == spec_shift(*self, cutoff as int, amount as int),
        decreases self,
    {
        match self {
            Term::Var(i) => {
                if *i >= cutoff {
                    Term::Var(*i + amount)
                } else {
                    Term::Var(*i)
                }
            },
            Term::Global(name) => Term::Global(name.clone()),
            Term::Func(body) => Term::Func(Box::new(body.shift(cutoff + 1, amount))),
            Term::App(func, arg) => Term::App(
                Box::new(func.shift(cutoff, amount)),
                Box::new(arg.shift(cutoff, amount)),
            ),
            Term::Anno(term, ty) => Term::Anno(
                Box::new(term.shift(cutoff, amount)),
                Box::new(ty.shift(cutoff, amount)),
            ),
            Term::Universe(level) => Term::Universe(*level),
            Term::FuncType(dom, codom) => Term::FuncType(
                Box::new(dom.shift(cutoff, amount)),
                Box::new(codom.shift(cutoff, amount)),
            ),
        }
    }

    /// Replaces variable `index` by `term`.
    pub fn subst(&self, index: i32, term: &Term) -> (r: Term)
        requires
            subst_ok(*self, index as int, *term),
        ensures
            r == spec_subst(*self, index as int, *term),
        decreases self,
    {
        match self {
            Term::Var(i) => {
                if *i == index {
                    term.clone()
                } else if *i > index {
                    Term::Var(*i - 1)
                } else {
                    Term::Var(*i)
                }
            },
            Term::Global(name) => Term::Global(name.clone()),
            Term::Func(body) => {
                let shifted = term.shift(0, 1);
                Term::Func(Box::new(body.subst(index + 1, &shifted)))
            },
            Term::App(func, arg) => Term::App(
                Box::new(func.subst(index, term)),
                Box::new(arg.subst(index, term)),
            ),
            Term::Anno(annotated, ty) => Term::Anno(
                Box::new(annotated.subst(index, annotated)),
                Box::new(ty.subst(index, annotated)),
            ),
            Term::Universe(level) => Term::Universe(*level),
            Term::FuncType(dom, codom) => Term::FuncType(
                Box::new(dom.subst(index, term)),
                Box::new(codom.subst(index, term)),
            ),
        }
    }
}

/// How a term is written out.
pub open spec fn spec_render(t: Term) -> Seq<char>
    decreases t,
{
    match t {
        Term::Var(i) => "#"@ + int_text(i as int),
        Term::Global(name) => name.text@,
        Term::Func(body) => "(λ. "@ + spec_render(*body) + ")"@,
        Term::App(f, a) => "("@ + spec_render(*f) + " "@ + spec_render(*a) + ")"@,
        Term::Anno(e, ty) => "("@ + spec_render(*e) + ": "@ + spec_render(*ty) + ")"@,
        Term::Universe(level) => "𝒰 "@ + decimal(level as nat),
        Term::FuncType(d, c) => "("@ + spec_render(*d) + " -> "@ + spec_render(*c) + ")"@,
    }
}

impl Term {
    /// The term written out: `#i` for a bound variable, `(λ. body)`, `(f a)`,
    /// `(e: T)`, `𝒰 n` and `(A -> B)`.
    pub fn render(&self) -> (s: String)
        ensures
            s@ == spec_render(*self),
    {
        let mut out = String::new();
        self.render_into(&mut out);
        assert(out@ =~= spec_render(*self));
        out
    }

    fn render_into(&self, out: &mut String)
        ensures
            final(out)@ == old(out)@ + spec_render(*self),
        decreases self,
    {
        match self {
            Term::Var(i) => {
                out.append("#");
                push_int(out, *i);
            },
            Term::Global(name) => {
                out.append(name.text.as_str());
            },
            Term::Func(body) => {
                out.append("(λ. ");
                body.render_into(out);
                out.append(")");
            },
            Term::App(func, arg) => {
                out.append("(");
                func.render_into(out);
                out.append(" ");
                arg.render_into(out);
                out.append(")");
            },
            Term::Anno(term, ty) => {
                out.append("(");
                term.render_into(out);
                out.append(": ");
                ty.render_into(out);
                out.append(")");
            },
            Term::Universe(level) => {
                out.append("𝒰 ");
                push_decimal(out, *level as u64);
            },
            Term::FuncType(dom, codom) => {
                out.append("(");
                dom.render_into(out);
                out.append(" -> ");
                codom.render_into(out);
                out.append(")");
            },
        }
        assert(final(out)@ =~= old(out)@ + spec_render(*self));
    }
}

/// Shifting by nothing leaves a term as it is.
pub proof fn law_shift_zero(t: Term, cutoff: int)
    requires
        shift_ok(t, cutoff, 0),
    ensures
        spec_shift(t, cutoff, 0) == t,
    decreases t,
{
    match t {
        Term::Func(body) => law_shift_zero(*body, cutoff + 1),
        Term::App(f, a) => {
            law_shift_zero(*f, cutoff);
            law_shift_zero(*a, cutoff);
        },
        Term::Anno(e, ty) => {
            law_shift_zero(*e, cutoff);
            law_shift_zero(*ty, cutoff);
        },
        Term::FuncType(d, c) => {
            law_shift_zero(*d, cutoff);
            law_shift_zero(*c, cutoff);
        },
        _ => {},
    }
}

/// Two upward shifts at the same cutoff are one shift by their sum.
pub proof fn law_shift_shift(t: Term, cutoff: int, a: int, b: int)
    requires
        a >= 0,
        b >= 0,
        shift_ok(t, cutoff, a),
        shift_ok(spec_shift(t, cutoff, a), cutoff, b),
    ensures
        shift_ok(t, cutoff, a + b),
        spec_shift(spec_shift(t, cutoff, a), cutoff, b) == spec_shift(t, cutoff, a + b),
    decreases t,
{
    match t {
        Term::Func(body) => law_shift_shift(*body, cutoff + 1, a, b),
        Term::App(f, x) => {
            law_shift_shift(*f, cutoff, a, b);
            law_shift_shift(*x, cutoff, a, b);
        },
        Term::Anno(e, ty) => {
            law_shift_shift(*e, cutoff, a, b);
            law_shift_shift(*ty, cutoff, a, b);
        },
        Term::FuncType(d, c) => {
            law_shift_shift(*d, cutoff, a, b);
            law_shift_shift(*c, cutoff, a, b);
        },
        _ => {},
    }
}

/// Shifting down by `n` undoes shifting up by `n` at the same cutoff.
pub proof fn law_shift_down_undoes_shift_up(t: Term, cutoff: int, n: int)
    requires
        n >= 0,
        shift_ok(t, cutoff, n),
    ensures
        shift_ok(spec_shift(t, cutoff, n), cutoff, -n),
        spec_shift(spec_shift(t, cutoff, n), cutoff, -n) == t,
    decreases t,
{
    match t {
        Term::Func(body) => law_shift_down_undoes_shift_up(*body, cutoff + 1, n),
        Term::App(f, a) => {
            law_shift_down_undoes_shift_up(*f, cutoff, n);
            law_shift_down_undoes_shift_up(*a, cutoff, n);
        },
        Term::Anno(e, ty) => {
            law_shift_down_undoes_shift_up(*e, cutoff, n);
            law_shift_down_undoes_shift_up(*ty, cutoff, n);
        },
        Term::FuncType(d, c) => {
            law_shift_down_undoes_shift_up(*d, cutoff, n);
            law_shift_down_undoes_shift_up(*c, cutoff, n);
        },
        _ => {},
    }
}

/// Substituting for the variable that a shift by one has just freed gives back the
/// term that was shifted, whatever is substituted.
pub proof fn law_subst_after_shift(t: Term, index: int, s: Term)
    requires
        shift_ok(t, index, 1),
    ensures
        spec_subst(spec_shift(t, index, 1), index, s) == t,
    decreases t,
{
    match t {
        Term::Func(body) => law_subst_after_shift(*body, index + 1, spec_shift(s, 0, 1)),
        Term::App(f, a) => {
            law_subst_after_shift(*f, index, s);
            law_subst_after_shift(*a, index, s);
        },
        Term::Anno(e, ty) => {
            law_subst_after_shift(*e, index, spec_shift(*e, index, 1));
            law_subst_after_shift(*ty, index, spec_shift(*e, index, 1));
        },
        Term::FuncType(d, c) => {
            law_subst_after_shift(*d, index, s);
            law_subst_after_shift(*c, index, s);
        },
        _ => {},
    }
}

} // verus!
