//! Tests of the ordered context and the context-aware type operations.

use bidir::ast::debruijn::{Term, Ty};
use bidir::ctx::TyCtxt;

fn arrow(a: Ty, b: Ty) -> Ty {
    Ty::Arrow(Box::new(a), Box::new(b))
}

fn forall_ty(b: Ty) -> Ty {
    Ty::Forall(Box::new(b))
}

#[test]
fn fresh_evar_counts_up() {
    let mut ctx = TyCtxt::new();
    assert_eq!(ctx.fresh_evar(), 0);
    assert_eq!(ctx.fresh_evar(), 1);
    assert_eq!(ctx.fresh_evar(), 2);
}

#[test]
fn clear_resets_entries_and_counter() {
    let mut ctx = TyCtxt::new();
    let a = ctx.fresh_evar();
    ctx.add_unsolved(a);
    ctx.add_uvar();
    ctx.clear();
    assert_eq!(ctx.num_entries(), 0);
    assert_eq!(ctx.fresh_evar(), 0);
}

#[test]
fn solve_evar_replaces_unsolved_in_place() {
    let mut ctx = TyCtxt::new();
    let a = ctx.fresh_evar();
    ctx.add_unsolved(a);
    assert!(ctx.contains_unsolved_evar(a));
    assert!(ctx.solve_evar(a, Ty::Bool).is_some());
    assert!(!ctx.contains_unsolved_evar(a));
    assert!(ctx.contains_evar(a));
    assert_eq!(ctx.num_entries(), 1);
    assert_eq!(ctx.solve_evar(a, Ty::Unit), None);
}

#[test]
fn insert_unsolved_before_evar_lands_left() {
    let mut ctx = TyCtxt::new();
    let a = ctx.fresh_evar();
    ctx.add_unsolved(a);
    let b = ctx.fresh_evar();
    assert!(ctx.insert_unsolved_before_evar(a, b).is_some());
    // The prefix strictly left of `a` now holds `b`.
    let view = ctx.slice_until_evar(a).unwrap();
    assert!(view.contains_evar(b));
    // Inserting before an absent existential fails.
    assert_eq!(ctx.insert_unsolved_before_evar(77, 78), None);
}

#[test]
fn drop_after_marker_removes_marker_and_suffix() {
    let mut ctx = TyCtxt::new();
    let a = ctx.fresh_evar();
    ctx.add_unsolved(a);
    let m = ctx.fresh_evar();
    ctx.add_marker(m);
    ctx.add_unsolved(m);
    ctx.add_uvar();
    assert_eq!(ctx.num_entries(), 4);
    assert!(ctx.drop_after_marker(m).is_some());
    assert_eq!(ctx.num_entries(), 1);
    assert!(ctx.contains_evar(a));
    assert!(!ctx.contains_evar(m));
    assert_eq!(ctx.drop_after_marker(m), None);
}

#[test]
fn drop_after_term_var_keeps_left_entries() {
    let mut ctx = TyCtxt::new();
    let a = ctx.fresh_evar();
    ctx.add_unsolved(a);
    ctx.add_term_var(Ty::Bool);
    let b = ctx.fresh_evar();
    ctx.add_unsolved(b);
    assert!(ctx.drop_after_term_var(0).is_some());
    assert_eq!(ctx.num_entries(), 1);
    assert!(ctx.contains_evar(a));
    assert!(!ctx.contains_evar(b));
}

#[test]
fn drop_after_uvar_removes_uvar_and_suffix() {
    let mut ctx = TyCtxt::new();
    ctx.add_uvar();
    ctx.add_uvar();
    let a = ctx.fresh_evar();
    ctx.add_unsolved(a);
    // Index 0 is the most recent uvar: the second one.
    assert!(ctx.drop_after_uvar(0).is_some());
    assert_eq!(ctx.num_entries(), 1);
    assert!(ctx.contains_uvar(0));
    assert!(!ctx.contains_uvar(1));
}

#[test]
fn get_term_var_counts_from_the_right() {
    let mut ctx = TyCtxt::new();
    ctx.add_term_var(Ty::Bool);
    ctx.add_term_var(Ty::Unit);
    assert_eq!(ctx.get_term_var(0), Some(&Ty::Unit));
    assert_eq!(ctx.get_term_var(1), Some(&Ty::Bool));
    assert_eq!(ctx.get_term_var(2), None);
}

#[test]
fn get_uvar_returns_absolute_positions() {
    let mut ctx = TyCtxt::new();
    ctx.add_uvar();
    ctx.add_term_var(Ty::Bool);
    ctx.add_uvar();
    assert_eq!(ctx.get_uvar(0), Some(2));
    assert_eq!(ctx.get_uvar(1), Some(0));
    assert_eq!(ctx.get_uvar(2), None);
}

#[test]
fn get_solved_snapshots_solutions() {
    let mut ctx = TyCtxt::new();
    let a = ctx.fresh_evar();
    ctx.add_solved(a, Ty::Bool);
    let b = ctx.fresh_evar();
    ctx.add_unsolved(b);
    let solved = ctx.get_solved();
    assert_eq!(solved.len(), 1);
    assert_eq!(solved.get(&a), Some(&Ty::Bool));
    assert_eq!(solved.get(&b), None);
}

#[test]
fn subst_ctx_resolves_transitively() {
    let mut ctx = TyCtxt::new();
    let a = ctx.fresh_evar();
    ctx.add_solved(a, Ty::Bool);
    let b = ctx.fresh_evar();
    // The solution of `b` mentions `a`, solved further left.
    ctx.add_solved(b, arrow(Ty::ExstVar(a), Ty::Unit));
    let t = arrow(Ty::ExstVar(b), Ty::ExstVar(a));
    let once = t.clone().subst_ctx(&ctx);
    assert_eq!(once, arrow(arrow(Ty::Bool, Ty::Unit), Ty::Bool));
    // Idempotence: substituting the substituted type changes nothing.
    let twice = once.clone().subst_ctx(&ctx);
    assert_eq!(twice, once);
}

#[test]
fn subst_ctx_leaves_unsolved_untouched() {
    let mut ctx = TyCtxt::new();
    let a = ctx.fresh_evar();
    ctx.add_unsolved(a);
    let t = arrow(Ty::ExstVar(a), Ty::Bool);
    assert_eq!(t.clone().subst_ctx(&ctx), t);
}

#[test]
fn subst_uvar0_bare_decrements_deeper_variables() {
    // In the body of a removed binder, its own variable becomes the
    // replacement and deeper references shift down across the cut.
    let body = arrow(Ty::Var(0), Ty::Var(1));
    assert_eq!(body.subst_uvar0_bare(&Ty::Bool), arrow(Ty::Bool, Ty::Var(0)));
}

#[test]
fn subst_uvar0_bare_skips_inner_binders() {
    let body = forall_ty(arrow(Ty::Var(0), Ty::Var(1)));
    assert_eq!(
        body.subst_uvar0_bare(&Ty::Bool),
        forall_ty(arrow(Ty::Var(0), Ty::Bool)),
    );
}

#[test]
fn subst_uvar0_unwraps_the_quantifier() {
    let t = forall_ty(arrow(Ty::Var(0), Ty::Var(0)));
    assert_eq!(t.subst_uvar0(&Ty::Bool), arrow(Ty::Bool, Ty::Bool));
}

#[test]
fn contains_evar_is_structural() {
    let t = forall_ty(arrow(Ty::ExstVar(3), Ty::Var(0)));
    assert!(t.contains_evar(3));
    assert!(!t.contains_evar(4));
}

#[test]
fn is_mono_rejects_quantifiers() {
    assert!(arrow(Ty::Bool, Ty::Unit).is_mono());
    assert!(!forall_ty(Ty::Var(0)).is_mono());
    assert!(!arrow(forall_ty(Ty::Var(0)), Ty::Bool).is_mono());
}

#[test]
fn wellformed_counts_binders_and_context_uvars() {
    let ctx = TyCtxt::new();
    assert!(forall_ty(arrow(Ty::Var(0), Ty::Var(0))).is_wellformed_in(&ctx));
    assert!(!Ty::Var(0).is_wellformed_in(&ctx));
    assert!(!forall_ty(Ty::Var(1)).is_wellformed_in(&ctx));
    // A universal brought into scope by the context also binds.
    let mut ctx = TyCtxt::new();
    ctx.add_uvar();
    assert!(Ty::Var(0).is_wellformed_in(&ctx));
    assert!(forall_ty(Ty::Var(1)).is_wellformed_in(&ctx));
    // An existential is well-formed only while it is in the context.
    let t = Ty::ExstVar(0);
    assert!(!t.is_wellformed_in(&ctx));
    let a = ctx.fresh_evar();
    ctx.add_unsolved(a);
    assert!(t.is_wellformed_in(&ctx));
}

#[test]
fn mono_wellformed_uses_the_viewed_prefix() {
    let mut ctx = TyCtxt::new();
    ctx.add_uvar();
    let a = ctx.fresh_evar();
    ctx.add_unsolved(a);
    let full = ctx.as_view();
    assert!(Ty::Var(0).is_mono_wellformed_in(full));
    assert!(Ty::ExstVar(a).is_mono_wellformed_in(full));
    assert!(!forall_ty(Ty::Var(0)).is_mono_wellformed_in(full));
    // The prefix strictly left of `a` holds the uvar but not `a` itself.
    let pre = ctx.slice_until_evar(a).unwrap();
    assert!(Ty::Var(0).is_mono_wellformed_in(pre));
    assert!(!Ty::ExstVar(a).is_mono_wellformed_in(pre));
}

#[test]
fn terms_and_types_compare_structurally() {
    let t1 = Term::Ann(Box::new(Term::Unit), Ty::Unit);
    let t2 = t1.clone();
    assert_eq!(t1, t2);
    assert_ne!(Ty::Bool, Ty::Unit);
}
