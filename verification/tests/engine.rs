//! End-to-end tests of the bidirectional inference engine.

use bidir::ast::debruijn::{Term, Ty};
use bidir::ctx::TyCtxt;
use bidir::typeck::subtyping::{inst_left, inst_right, subtype};
use bidir::typeck::{check, infer, infer_type};

const FUEL: usize = 10_000;

fn arrow(a: Ty, b: Ty) -> Ty {
    Ty::Arrow(Box::new(a), Box::new(b))
}

fn forall_ty(b: Ty) -> Ty {
    Ty::Forall(Box::new(b))
}

fn lam(b: Term) -> Term {
    Term::Lambda(Box::new(b))
}

fn app(f: Term, x: Term) -> Term {
    Term::Appl(Box::new(f), Box::new(x))
}

fn ann(e: Term, t: Ty) -> Term {
    Term::Ann(Box::new(e), t)
}

fn tapp(e: Term, t: Ty) -> Term {
    Term::TypeAppl(Box::new(e), t)
}

/// `(|x| x :: Bool -> Bool) true` infers `Bool`.
#[test]
fn scenario_annotated_identity_applied() {
    let term = app(
        ann(lam(Term::Var(0)), arrow(Ty::Bool, Ty::Bool)),
        Term::Bool(true),
    );
    assert_eq!(infer_type(&term, FUEL), Some(Ty::Bool));
}

/// The annotated polymorphic identity infers its annotation.
#[test]
fn scenario_polymorphic_identity() {
    let id_ty = forall_ty(arrow(Ty::Var(0), Ty::Var(0)));
    let term = ann(lam(Term::Var(0)), id_ty.clone());
    assert_eq!(infer_type(&term, FUEL), Some(id_ty));
}

/// Explicit instantiation of the polymorphic identity at `Bool`, applied.
#[test]
fn scenario_type_application() {
    let id_ty = forall_ty(arrow(Ty::Var(0), Ty::Var(0)));
    let term = app(
        tapp(ann(lam(Term::Var(0)), id_ty), Ty::Bool),
        Term::Bool(true),
    );
    assert_eq!(infer_type(&term, FUEL), Some(Ty::Bool));
}

/// The polymorphic identity applied to `true`: the existential is solved
/// by the application.
#[test]
fn scenario_polymorphic_identity_applied() {
    let id_ty = forall_ty(arrow(Ty::Var(0), Ty::Var(0)));
    let term = app(ann(lam(Term::Var(0)), id_ty), Term::Bool(true));
    assert_eq!(infer_type(&term, FUEL), Some(Ty::Bool));
}

/// The doubly quantified constant function infers its annotation.
#[test]
fn scenario_const_function() {
    let const_ty = forall_ty(forall_ty(arrow(Ty::Var(1), arrow(Ty::Var(0), Ty::Var(1)))));
    let term = ann(lam(lam(Term::Var(1))), const_ty.clone());
    assert_eq!(infer_type(&term, FUEL), Some(const_ty));
}

/// The constant function applied to two arguments returns its first.
#[test]
fn scenario_const_function_applied() {
    let const_ty = forall_ty(forall_ty(arrow(Ty::Var(1), arrow(Ty::Var(0), Ty::Var(1)))));
    let term = app(
        app(ann(lam(lam(Term::Var(1))), const_ty), Term::Bool(true)),
        Term::Bool(false),
    );
    assert_eq!(infer_type(&term, FUEL), Some(Ty::Bool));
}

/// An unannotated lambda synthesizes an arrow between two unsolved
/// existentials, so the driver rejects it; the raw judgment still
/// succeeds.
#[test]
fn scenario_unannotated_lambda_rejected() {
    let term = lam(Term::Var(0));
    let mut ctx = TyCtxt::new();
    let raw = infer(&mut ctx, &term, FUEL);
    assert_eq!(
        raw,
        Some(arrow(Ty::ExstVar(0), Ty::ExstVar(1))),
    );
    assert_eq!(infer_type(&term, FUEL), None);
}

/// Two runs on the same input produce the same result and the same final
/// context.
#[test]
fn determinism_identical_runs() {
    let id_ty = forall_ty(arrow(Ty::Var(0), Ty::Var(0)));
    let term = app(ann(lam(Term::Var(0)), id_ty), Term::Bool(true));
    let mut ctx1 = TyCtxt::new();
    let mut ctx2 = TyCtxt::new();
    let r1 = infer(&mut ctx1, &term, FUEL);
    let r2 = infer(&mut ctx2, &term, FUEL);
    assert_eq!(r1, r2);
    assert_eq!(ctx1, ctx2);
}

/// Every solution a successful inference records is a monotype.
#[test]
fn predicativity_solutions_are_monotypes() {
    let id_ty = forall_ty(arrow(Ty::Var(0), Ty::Var(0)));
    let term = app(ann(lam(Term::Var(0)), id_ty), Term::Bool(true));
    let mut ctx = TyCtxt::new();
    assert!(infer(&mut ctx, &term, FUEL).is_some());
    let solved = ctx.get_solved();
    assert!(!solved.is_empty());
    for ty in solved.values() {
        assert!(ty.is_mono());
    }
}

/// If `check(e, t)` succeeds, inferring `Ann(e, t)` succeeds with `t` and
/// the same final context.
#[test]
fn ascription_soundness_on_values() {
    let t = arrow(Ty::Bool, Ty::Bool);
    let e = lam(Term::Var(0));
    let mut ctx1 = TyCtxt::new();
    assert!(check(&mut ctx1, &e, &t, FUEL).is_some());
    let mut ctx2 = TyCtxt::new();
    assert_eq!(infer(&mut ctx2, &ann(e, t.clone()), FUEL + 1), Some(t));
    assert_eq!(ctx1, ctx2);
}

/// Subtyping is reflexive on closed monotypes and leaves the context
/// unchanged.
#[test]
fn subtype_reflexive_on_closed_monotype() {
    let t = arrow(Ty::Bool, arrow(Ty::Unit, Ty::Bool));
    let mut ctx = TyCtxt::new();
    assert!(subtype(&mut ctx, &t, &t, FUEL).is_some());
    assert_eq!(ctx, TyCtxt::new());
}

/// The occurs check: `EVar a <: EVar a -> Unit` fails for a fresh
/// existential.
#[test]
fn occurs_check_fails() {
    let mut ctx = TyCtxt::new();
    let alpha = ctx.fresh_evar();
    ctx.add_unsolved(alpha);
    let lhs = Ty::ExstVar(alpha);
    let rhs = arrow(Ty::ExstVar(alpha), Ty::Unit);
    assert_eq!(subtype(&mut ctx, &lhs, &rhs, FUEL), None);
}

/// The polymorphic identity type is a subtype of any of its instances.
#[test]
fn subtype_forall_left_instance() {
    let id_ty = forall_ty(arrow(Ty::Var(0), Ty::Var(0)));
    let inst = arrow(Ty::Bool, Ty::Bool);
    let mut ctx = TyCtxt::new();
    assert!(subtype(&mut ctx, &id_ty, &inst, FUEL).is_some());
}

/// A monomorphic arrow is not a subtype of the polymorphic identity type.
#[test]
fn subtype_forall_right_fails_for_concrete() {
    let id_ty = forall_ty(arrow(Ty::Var(0), Ty::Var(0)));
    let inst = arrow(Ty::Bool, Ty::Bool);
    let mut ctx = TyCtxt::new();
    assert_eq!(subtype(&mut ctx, &inst, &id_ty, FUEL), None);
}

/// Any term checks against `Bool` or `Unit` immediately: the base-type
/// rule fires before the term is examined.
#[test]
fn check_base_type_rule_fires_first() {
    let mut ctx = TyCtxt::new();
    assert!(check(&mut ctx, &lam(Term::Var(0)), &Ty::Bool, FUEL).is_some());
    assert!(check(&mut ctx, &Term::Unit, &Ty::Unit, FUEL).is_some());
}

/// An out-of-range variable does not infer.
#[test]
fn unbound_variable_fails() {
    let mut ctx = TyCtxt::new();
    assert_eq!(infer(&mut ctx, &Term::Var(0), FUEL), None);
}

/// An annotation mentioning an unbound universal is rejected.
#[test]
fn ill_formed_annotation_fails() {
    let term = ann(lam(Term::Var(0)), arrow(Ty::Var(3), Ty::Unit));
    let mut ctx = TyCtxt::new();
    assert_eq!(infer(&mut ctx, &term, FUEL), None);
}

/// Applying a non-function fails.
#[test]
fn apply_non_function_fails() {
    let term = app(Term::Bool(true), Term::Unit);
    let mut ctx = TyCtxt::new();
    assert_eq!(infer(&mut ctx, &term, FUEL), None);
}

/// Type application of a non-quantified term fails.
#[test]
fn type_application_non_forall_fails() {
    let term = tapp(Term::Bool(true), Ty::Bool);
    let mut ctx = TyCtxt::new();
    assert_eq!(infer(&mut ctx, &term, FUEL), None);
}

/// Type application with a quantified argument fails: the system is
/// predicative.
#[test]
fn type_application_poly_argument_fails() {
    let id_ty = forall_ty(arrow(Ty::Var(0), Ty::Var(0)));
    let term = tapp(ann(lam(Term::Var(0)), id_ty.clone()), id_ty);
    let mut ctx = TyCtxt::new();
    assert_eq!(infer(&mut ctx, &term, FUEL), None);
}

/// Unit and Bool do not subtype each other.
#[test]
fn base_types_distinct() {
    let mut ctx = TyCtxt::new();
    assert_eq!(subtype(&mut ctx, &Ty::Unit, &Ty::Bool, FUEL), None);
    let mut ctx = TyCtxt::new();
    assert_eq!(subtype(&mut ctx, &Ty::Bool, &Ty::Unit, FUEL), None);
}

/// Instantiation from the left solves a fresh existential to the given
/// monotype.
#[test]
fn inst_left_solves_to_monotype() {
    let mut ctx = TyCtxt::new();
    let alpha = ctx.fresh_evar();
    ctx.add_unsolved(alpha);
    assert!(inst_left(&mut ctx, alpha, &Ty::Bool, FUEL).is_some());
    let solved = ctx.get_solved();
    assert_eq!(solved.get(&alpha), Some(&Ty::Bool));
}

/// Instantiation from the right dually solves the existential.
#[test]
fn inst_right_solves_to_monotype() {
    let mut ctx = TyCtxt::new();
    let alpha = ctx.fresh_evar();
    ctx.add_unsolved(alpha);
    assert!(inst_right(&mut ctx, &arrow(Ty::Unit, Ty::Bool), alpha, FUEL).is_some());
    let solved = ctx.get_solved();
    assert_eq!(solved.get(&alpha), Some(&arrow(Ty::Unit, Ty::Bool)));
}

/// Instantiation of an existential that is absent or already solved
/// fails.
#[test]
fn inst_left_requires_unsolved() {
    let mut ctx = TyCtxt::new();
    assert_eq!(inst_left(&mut ctx, 0, &Ty::Bool, FUEL), None);
    let mut ctx = TyCtxt::new();
    let alpha = ctx.fresh_evar();
    ctx.add_unsolved(alpha);
    assert!(ctx.solve_evar(alpha, Ty::Unit).is_some());
    assert_eq!(inst_left(&mut ctx, alpha, &Ty::Bool, FUEL), None);
}

/// With the budget exhausted every judgment reports failure.
#[test]
fn zero_fuel_fails() {
    let mut ctx = TyCtxt::new();
    assert_eq!(infer(&mut ctx, &Term::Unit, 0), None);
    assert_eq!(check(&mut ctx, &Term::Unit, &Ty::Unit, 0), None);
    assert_eq!(subtype(&mut ctx, &Ty::Unit, &Ty::Unit, 0), None);
}

/// An accepted top-level result is closed: free of existentials and
/// well-formed in the empty context.
#[test]
fn accepted_results_are_closed_and_wellformed() {
    let id_ty = forall_ty(arrow(Ty::Var(0), Ty::Var(0)));
    let terms = vec![
        app(
            ann(lam(Term::Var(0)), arrow(Ty::Bool, Ty::Bool)),
            Term::Bool(true),
        ),
        ann(lam(Term::Var(0)), id_ty.clone()),
        app(ann(lam(Term::Var(0)), id_ty), Term::Bool(true)),
    ];
    for term in terms {
        let ty = infer_type(&term, FUEL).unwrap();
        assert!(!ty.contains_some_evar());
        assert!(ty.is_wellformed_in(&TyCtxt::new()));
    }
}
