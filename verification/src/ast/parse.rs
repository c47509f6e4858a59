//! Named surface syntax and its resolution into the De Bruijn core.

use std::collections::VecDeque;
use vstd::prelude::*;

use crate::ast::debruijn;

verus! {

/// A surface term with named binders, as produced by a parser.
#[derive(Debug, PartialEq, Eq)]
pub enum Term {
    Unit,
    Appl(Box<Term>, Box<Term>),
    Lambda(String, Box<Term>),
    Bool(bool),
    Var(String),
    Ann(Box<Term>, Ty),
    TypeAppl(Box<Term>, Ty),
}

/// A surface type with named universal binders.
#[derive(Debug, PartialEq, Eq)]
pub enum Ty {
    Unit,
    Bool,
    Arrow(Box<Ty>, Box<Ty>),
    Forall(String, Box<Ty>),
    Var(String),
}

impl Clone for Ty {
    fn clone(&self) -> (res: Self)
        ensures
            res == *self,
        decreases *self,
    {
        match self {
            Ty::Unit => Ty::Unit,
            Ty::Bool => Ty::Bool,
            Ty::Arrow(inp, out) => Ty::Arrow(Box::new((**inp).clone()), Box::new((**out).clone())),
            Ty::Forall(name, body) => Ty::Forall(name.clone(), Box::new((**body).clone())),
            Ty::Var(name) => Ty::Var(name.clone()),
        }
    }
}

impl Clone for Term {
    fn clone(&self) -> (res: Self)
        ensures
            res == *self,
        decreases *self,
    {
        match self {
            Term::Unit => Term::Unit,
            Term::Appl(func, arg) => {
                Term::Appl(Box::new((**func).clone()), Box::new((**arg).clone()))
            },
            Term::Lambda(name, body) => Term::Lambda(name.clone(), Box::new((**body).clone())),
            Term::Bool(b) => Term::Bool(*b),
            Term::Var(name) => Term::Var(name.clone()),
            Term::Ann(term, ty) => Term::Ann(Box::new((**term).clone()), ty.clone()),
            Term::TypeAppl(term, ty) => Term::TypeAppl(Box::new((**term).clone()), ty.clone()),
        }
    }
}


/// Position of the first binder at index `i` or later of `stack` whose
/// name reads `name` (index `0` is the innermost binder).
pub open spec fn spec_resolve_from(stack: Seq<String>, name: Seq<char>, i: int) -> Option<int>
    decreases stack.len() - i,
{
    if i < 0 || i >= stack.len() {
        None
    } else if stack[i]@ == name {
        Some(i)
    } else {
        spec_resolve_from(stack, name, i + 1)
    }
}

/// Resolution of a surface type under the binder stack `stack` into the
/// De Bruijn core; `None` when a name is unbound.
pub open spec fn spec_ty_to_core(t: Ty, stack: Seq<String>) -> Option<debruijn::Ty>
    decreases t,
{
    match t {
        Ty::Bool => Some(debruijn::Ty::Bool),
        Ty::Unit => Some(debruijn::Ty::Unit),
        Ty::Arrow(inp, out) => match spec_ty_to_core(*inp, stack) {
            Some(i) => match spec_ty_to_core(*out, stack) {
                Some(o) => Some(debruijn::Ty::Arrow(Box::new(i), Box::new(o))),
                None => None,
            },
            None => None,
        },
        Ty::Forall(name, body) => match spec_ty_to_core(*body, seq![name] + stack) {
            Some(b) => Some(debruijn::Ty::Forall(Box::new(b))),
            None => None,
        },
        Ty::Var(name) => match spec_resolve_from(stack, name@, 0) {
            Some(i) => Some(debruijn::Ty::Var(i as usize)),
            None => None,
        },
    }
}

/// Resolution of a surface term under the binder stack `stack` into the
/// De Bruijn core; type ascriptions are resolved under an empty type
/// binder stack of their own.
pub open spec fn spec_term_to_core(e: Term, stack: Seq<String>) -> Option<debruijn::Term>
    decreases e,
{
    match e {
        Term::Unit => Some(debruijn::Term::Unit),
        Term::Bool(b) => Some(debruijn::Term::Bool(b)),
        Term::Appl(func, arg) => match spec_term_to_core(*func, stack) {
            Some(f) => match spec_term_to_core(*arg, stack) {
                Some(a) => Some(debruijn::Term::Appl(Box::new(f), Box::new(a))),
                None => None,
            },
            None => None,
        },
        Term::Lambda(name, body) => match spec_term_to_core(*body, seq![name] + stack) {
            Some(b) => Some(debruijn::Term::Lambda(Box::new(b))),
            None => None,
        },
        Term::Var(name) => match spec_resolve_from(stack, name@, 0) {
            Some(i) => Some(debruijn::Term::Var(i as usize)),
            None => None,
        },
        Term::Ann(term, ty) => match spec_term_to_core(*term, stack) {
            Some(e2) => match spec_ty_to_core(ty, Seq::empty()) {
                Some(t2) => Some(debruijn::Term::Ann(Box::new(e2), t2)),
                None => None,
            },
            None => None,
        },
        Term::TypeAppl(term, ty) => match spec_term_to_core(*term, stack) {
            Some(e2) => match spec_ty_to_core(ty, Seq::empty()) {
                Some(t2) => Some(debruijn::Term::TypeAppl(Box::new(e2), t2)),
                None => None,
            },
            None => None,
        },
    }
}

/// Find the innermost binder of `stack` named `name`.
fn resolve(stack: &VecDeque<String>, name: &String) -> (res: Option<usize>)
    ensures
        match res {
            Some(i) => spec_resolve_from(stack@, name@, 0) == Some(i as int),
            None => spec_resolve_from(stack@, name@, 0) is None,
        },
{
    let ghost s = stack@;
    let n = stack.len();
    let mut i: usize = 0;
    while i < n
        invariant
            n == s.len(),
            0 <= i <= n,
            s == stack@,
            spec_resolve_from(s, name@, 0) == spec_resolve_from(s, name@, i as int),
        decreases n - i,
    {
        if stack[i] == *name {
            return Some(i);
        }
        i = i + 1;
    }
    None
}

impl Term {
    /// Resolve a closed surface term into the De Bruijn core; `None` when
    /// a name is unbound.
    pub fn into_core(self) -> (res: Option<debruijn::Term>)
        ensures
            res == spec_term_to_core(self, Seq::<String>::empty()),
    {
        let mut stack: VecDeque<String> = VecDeque::new();
        self.into_core_(&mut stack)
    }

    fn into_core_(self, ctx: &mut VecDeque<String>) -> (res: Option<debruijn::Term>)
        ensures
            final(ctx)@ == old(ctx)@,
            res == spec_term_to_core(self, old(ctx)@),
        decreases self,
    {
        match self {
            Term::Appl(func, arg) => match func.into_core_(ctx) {
                Some(f) => match arg.into_core_(ctx) {
                    Some(a) => Some(debruijn::Term::Appl(Box::new(f), Box::new(a))),
                    None => None,
                },
                None => None,
            },
            Term::Lambda(name, body) => {
                let ghost name_spec = name;
                ctx.push_front(name);
                let new_body = body.into_core_(ctx);
                let _ = ctx.pop_front();
                proof {
                    assert((seq![name_spec] + old(ctx)@).subrange(
                        1,
                        (seq![name_spec] + old(ctx)@).len() as int,
                    ) =~= old(ctx)@);
                }
                match new_body {
                    Some(b) => Some(debruijn::Term::Lambda(Box::new(b))),
                    None => None,
                }
            },
            Term::Bool(b) => Some(debruijn::Term::Bool(b)),
            Term::Unit => Some(debruijn::Term::Unit),
            Term::Var(name) => match resolve(ctx, &name) {
                Some(i) => Some(debruijn::Term::Var(i)),
                None => None,
            },
            Term::Ann(term, ty) => match term.into_core_(ctx) {
                Some(e2) => match ty.into_core() {
                    Some(t2) => Some(debruijn::Term::Ann(Box::new(e2), t2)),
                    None => None,
                },
                None => None,
            },
            Term::TypeAppl(term, ty) => match term.into_core_(ctx) {
                Some(e2) => match ty.into_core() {
                    Some(t2) => Some(debruijn::Term::TypeAppl(Box::new(e2), t2)),
                    None => None,
                },
                None => None,
            },
        }
    }
}

impl Ty {
    /// Resolve a closed surface type into the De Bruijn core; `None` when
    /// a name is unbound.
    pub fn into_core(self) -> (res: Option<debruijn::Ty>)
        ensures
            res == spec_ty_to_core(self, Seq::<String>::empty()),
    {
        let mut stack: VecDeque<String> = VecDeque::new();
        self.into_core_(&mut stack)
    }

    /// Resolve a surface type under the binder stack `ctx`, which is
    /// restored before returning.
    pub fn into_core_(self, ctx: &mut VecDeque<String>) -> (res: Option<debruijn::Ty>)
        ensures
            final(ctx)@ == old(ctx)@,
            res == spec_ty_to_core(self, old(ctx)@),
        decreases self,
    {
        match self {
            Ty::Bool => Some(debruijn::Ty::Bool),
            Ty::Unit => Some(debruijn::Ty::Unit),
            Ty::Arrow(inp, out) => match inp.into_core_(ctx) {
                Some(i) => match out.into_core_(ctx) {
                    Some(o) => Some(debruijn::Ty::Arrow(Box::new(i), Box::new(o))),
                    None => None,
                },
                None => None,
            },
            Ty::Forall(name, body) => {
                let ghost name_spec = name;
                ctx.push_front(name);
                let new_body = body.into_core_(ctx);
                let _ = ctx.pop_front();
                proof {
                    assert((seq![name_spec] + old(ctx)@).subrange(
                        1,
                        (seq![name_spec] + old(ctx)@).len() as int,
                    ) =~= old(ctx)@);
                }
                match new_body {
                    Some(b) => Some(debruijn::Ty::Forall(Box::new(b))),
                    None => None,
                }
            },
            Ty::Var(name) => match resolve(ctx, &name) {
                Some(i) => Some(debruijn::Ty::Var(i)),
                None => None,
            },
        }
    }
}

} // verus!
