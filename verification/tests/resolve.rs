//! Tests of the named surface syntax and its De Bruijn resolution.

use bidir::ast::debruijn;
use bidir::ast::parse::{Term, Ty};
use bidir::typeck::infer_type;

const FUEL: usize = 10_000;

fn lam(name: &str, body: Term) -> Term {
    Term::Lambda(name.to_string(), Box::new(body))
}

fn var(name: &str) -> Term {
    Term::Var(name.to_string())
}

fn tvar(name: &str) -> Ty {
    Ty::Var(name.to_string())
}

fn tforall(name: &str, body: Ty) -> Ty {
    Ty::Forall(name.to_string(), Box::new(body))
}

fn tarrow(a: Ty, b: Ty) -> Ty {
    Ty::Arrow(Box::new(a), Box::new(b))
}

#[test]
fn resolve_identity() {
    let term = lam("x", var("x"));
    assert_eq!(
        term.into_core(),
        Some(debruijn::Term::Lambda(Box::new(debruijn::Term::Var(0)))),
    );
}

#[test]
fn resolve_inner_binder_shadows() {
    let term = lam("x", lam("x", var("x")));
    assert_eq!(
        term.into_core(),
        Some(debruijn::Term::Lambda(Box::new(debruijn::Term::Lambda(
            Box::new(debruijn::Term::Var(0)),
        )))),
    );
}

#[test]
fn resolve_outer_reference() {
    let term = lam("x", lam("y", var("x")));
    assert_eq!(
        term.into_core(),
        Some(debruijn::Term::Lambda(Box::new(debruijn::Term::Lambda(
            Box::new(debruijn::Term::Var(1)),
        )))),
    );
}

#[test]
fn resolve_unbound_name_fails() {
    assert_eq!(var("y").into_core(), None);
    assert_eq!(lam("x", var("y")).into_core(), None);
}

#[test]
fn resolve_forall_type() {
    let ty = tforall("a", tarrow(tvar("a"), tvar("a")));
    assert_eq!(
        ty.into_core(),
        Some(debruijn::Ty::Forall(Box::new(debruijn::Ty::Arrow(
            Box::new(debruijn::Ty::Var(0)),
            Box::new(debruijn::Ty::Var(0)),
        )))),
    );
}

#[test]
fn resolve_type_binders_nest() {
    let ty = tforall("a", tforall("b", tarrow(tvar("a"), tvar("b"))));
    assert_eq!(
        ty.into_core(),
        Some(debruijn::Ty::Forall(Box::new(debruijn::Ty::Forall(
            Box::new(debruijn::Ty::Arrow(
                Box::new(debruijn::Ty::Var(1)),
                Box::new(debruijn::Ty::Var(0)),
            )),
        )))),
    );
}

#[test]
fn resolve_annotation_uses_fresh_type_scope() {
    // Term binders do not capture type names: the annotation resolves in
    // a type scope of its own.
    let term = lam("a", Term::Ann(Box::new(var("a")), Ty::Bool));
    assert_eq!(
        term.into_core(),
        Some(debruijn::Term::Lambda(Box::new(debruijn::Term::Ann(
            Box::new(debruijn::Term::Var(0)),
            debruijn::Ty::Bool,
        )))),
    );
    // A type variable never picks up a term binder's name.
    let bad = lam("a", Term::Ann(Box::new(var("a")), tvar("a")));
    assert_eq!(bad.into_core(), None);
}

#[test]
fn surface_identity_checks_end_to_end() {
    // `|x| x :: 'a => 'a -> 'a` resolved and inferred.
    let term = Term::Ann(
        Box::new(lam("x", var("x"))),
        tforall("a", tarrow(tvar("a"), tvar("a"))),
    );
    let core = term.into_core().unwrap();
    assert_eq!(
        infer_type(&core, FUEL),
        Some(debruijn::Ty::Forall(Box::new(debruijn::Ty::Arrow(
            Box::new(debruijn::Ty::Var(0)),
            Box::new(debruijn::Ty::Var(0)),
        )))),
    );
}

#[test]
fn surface_terms_clone_and_compare() {
    let term = lam("x", Term::Appl(Box::new(var("x")), Box::new(Term::Bool(true))));
    assert_eq!(term.clone(), term);
}
