//! The bidirectional judgment engine.
//!
//! `infer` synthesizes a type for a term, `check` checks a term against a
//! type, and `infer_appl` infers the result type of applying a function of
//! a given type to an argument. The three are mutually recursive and share
//! mutable access to the ordered context. Each executable function is
//! proved to compute exactly what its specification-level mirror
//! (`spec_infer`, `spec_check`, `spec_infer_appl`) defines, so results and
//! final contexts are a function of the inputs alone.
//!
//! All take an explicit recursion budget `fuel`; a call returns `None`
//! when the budget runs out, and every caller can pick a budget larger
//! than any derivation it expects. On failure the context is left in an
//! unspecified intermediate state and must be discarded (or cleared) by
//! the caller.

use vstd::prelude::*;

use crate::ast::debruijn::{
    spec_contains_some_evar, spec_mono_wf, spec_subst_in_state, spec_subst_outer, spec_wf, Term,
    Ty,
};
use crate::ctx::{
    seq_has_unsolved, st_drop_term_var, st_drop_uvar, st_insert_before, st_push, st_solve,
    term_var_pos, CtxState, TyCtxt, TyCtxtEntry,
};
use crate::typeck::subtyping::{spec_subtype, subtype};

pub mod subtyping;

verus! {

/// Type synthesis, mirrored at the specification level: `None` is failure
/// (or an exhausted budget), `Some((t, c))` is success with the
/// synthesized type `t` and the output context `c`.
pub open spec fn spec_infer(c: CtxState, e: Term, fuel: nat) -> Option<(Ty, CtxState)>
    decreases fuel,
{
    if fuel == 0 {
        None
    } else {
        match e {
            Term::Var(idx) => match term_var_pos(c.entries, idx as nat) {
                Some(p) => match c.entries[p] {
                    TyCtxtEntry::TermVar(ty) => Some((ty, c)),
                    _ => None,
                },
                None => None,
            },
            Term::Ann(term, ty) => if !spec_wf(ty, c.entries, 0) {
                None
            } else {
                match spec_check(c, *term, ty, (fuel - 1) as nat) {
                    Some(c1) => Some((ty, c1)),
                    None => None,
                }
            },
            Term::Unit => Some((Ty::Unit, c)),
            Term::Bool(_) => Some((Ty::Bool, c)),
            Term::Lambda(body) => if c.next + 2 > usize::MAX {
                None
            } else {
                let alpha = c.next as usize;
                let beta = (c.next + 1) as usize;
                let c1 = CtxState { entries: c.entries, next: c.next + 2 };
                let c2 = st_push(c1, TyCtxtEntry::UnsolvedExst(alpha));
                let c3 = st_push(c2, TyCtxtEntry::UnsolvedExst(beta));
                let c4 = st_push(c3, TyCtxtEntry::TermVar(Ty::ExstVar(alpha)));
                match spec_check(c4, *body, Ty::ExstVar(beta), (fuel - 1) as nat) {
                    Some(c5) => {
                        let c6 = match st_drop_term_var(c5, 0) {
                            Some(cc) => cc,
                            None => c5,
                        };
                        Some(
                            (
                                Ty::Arrow(
                                    Box::new(Ty::ExstVar(alpha)),
                                    Box::new(Ty::ExstVar(beta)),
                                ),
                                c6,
                            ),
                        )
                    },
                    None => None,
                }
            },
            Term::Appl(func, arg) => match spec_infer(c, *func, (fuel - 1) as nat) {
                Some((fty, c1)) => {
                    let ftys = spec_subst_in_state(fty, c1);
                    spec_infer_appl(c1, ftys, *arg, (fuel - 1) as nat)
                },
                None => None,
            },
            Term::TypeAppl(term, ty) => match spec_infer(c, *term, (fuel - 1) as nat) {
                Some((fty, c1)) => if !spec_mono_wf(ty, c1.entries) {
                    None
                } else {
                    match fty {
                        Ty::Forall(body) => Some((spec_subst_outer(*body, ty, 0), c1)),
                        _ => None,
                    }
                },
                None => None,
            },
        }
    }
}

/// Type checking, mirrored at the specification level.
pub open spec fn spec_check(c: CtxState, e: Term, t: Ty, fuel: nat) -> Option<CtxState>
    decreases fuel,
{
    if fuel == 0 {
        None
    } else {
        match (e, t) {
            (_, Ty::Unit) | (_, Ty::Bool) => Some(c),
            (_, Ty::Forall(body)) => {
                let c1 = st_push(c, TyCtxtEntry::Uvar);
                match spec_check(c1, e, *body, (fuel - 1) as nat) {
                    Some(c2) => Some(
                        match st_drop_uvar(c2, 0) {
                            Some(c3) => c3,
                            None => c2,
                        },
                    ),
                    None => None,
                }
            },
            (Term::Lambda(body), Ty::Arrow(inp, out)) => {
                let c1 = st_push(c, TyCtxtEntry::TermVar(*inp));
                match spec_check(c1, *body, *out, (fuel - 1) as nat) {
                    Some(c2) => Some(
                        match st_drop_term_var(c2, 0) {
                            Some(c3) => c3,
                            None => c2,
                        },
                    ),
                    None => None,
                }
            },
            _ => match spec_infer(c, e, (fuel - 1) as nat) {
                Some((a, c1)) => {
                    let asub = spec_subst_in_state(a, c1);
                    let bsub = spec_subst_in_state(t, c1);
                    spec_subtype(c1, asub, bsub, (fuel - 1) as nat)
                },
                None => None,
            },
        }
    }
}

/// Application inference, mirrored at the specification level: given the
/// (already substituted) type `fty` of the function, the type of applying
/// it to the argument `e`.
pub open spec fn spec_infer_appl(c: CtxState, fty: Ty, e: Term, fuel: nat) -> Option<
    (Ty, CtxState),
>
    decreases fuel,
{
    if fuel == 0 {
        None
    } else {
        match fty {
            Ty::Forall(body) => if c.next + 1 > usize::MAX {
                None
            } else {
                let evar = c.next as usize;
                let c1 = CtxState { entries: c.entries, next: c.next + 1 };
                let c2 = st_push(c1, TyCtxtEntry::UnsolvedExst(evar));
                let bsub = spec_subst_outer(*body, Ty::ExstVar(evar), 0);
                spec_infer_appl(c2, bsub, e, (fuel - 1) as nat)
            },
            Ty::ExstVar(evar) => if !seq_has_unsolved(c.entries, evar) {
                None
            } else if c.next + 2 > usize::MAX {
                None
            } else {
                let alpha2 = c.next as usize;
                let alpha1 = (c.next + 1) as usize;
                let c0 = CtxState { entries: c.entries, next: c.next + 2 };
                match st_insert_before(c0, evar, alpha2) {
                    Some(c1) => match st_insert_before(c1, evar, alpha1) {
                        Some(c2) => match st_solve(
                            c2,
                            evar,
                            Ty::Arrow(Box::new(Ty::ExstVar(alpha1)), Box::new(Ty::ExstVar(alpha2))),
                        ) {
                            Some(c3) => match spec_check(
                                c3,
                                e,
                                Ty::ExstVar(alpha1),
                                (fuel - 1) as nat,
                            ) {
                                Some(c4) => Some((Ty::ExstVar(alpha2), c4)),
                                None => None,
                            },
                            None => None,
                        },
                        None => None,
                    },
                    None => None,
                }
            },
            Ty::Arrow(inp, out) => match spec_check(c, e, *inp, (fuel - 1) as nat) {
                Some(c1) => Some((*out, c1)),
                None => None,
            },
            _ => None,
        }
    }
}

/// Synthesize a type for `term` under `ctx`. On success the context has
/// been extended with the existentials and solutions the derivation
/// introduced; the returned type may still mention existentials and is
/// finished by `Ty::subst_ctx`. On failure the context is left in an
/// unspecified intermediate state and must be discarded by the caller.
pub fn infer(ctx: &mut TyCtxt, term: &Term, fuel: usize) -> (res: Option<Ty>)
    ensures
        match spec_infer(old(ctx)@, *term, fuel as nat) {
            Some((t, c)) => res == Some(t) && final(ctx)@ == c,
            None => res is None,
        },
    decreases fuel,
{
    if fuel == 0 {
        return None;
    }
    match term {
        Term::Var(idx) => match ctx.get_term_var(*idx) {
            Some(ty) => Some(ty.clone()),
            None => None,
        },
        Term::Ann(term2, ty) => {
            if !ty.is_wellformed_in(ctx) {
                return None;
            }
            match check(ctx, term2, ty, fuel - 1) {
                Some(()) => Some(ty.clone()),
                None => None,
            }
        },
        Term::Unit => Some(Ty::Unit),
        Term::Bool(_) => Some(Ty::Bool),
        Term::Lambda(body) => {
            if !ctx.can_mint(2) {
                return None;
            }
            let alpha = ctx.fresh_evar();
            let beta = ctx.fresh_evar();
            ctx.add_unsolved(alpha);
            ctx.add_unsolved(beta);
            ctx.add_term_var(Ty::ExstVar(alpha));
            match check(ctx, body, &Ty::ExstVar(beta), fuel - 1) {
                Some(()) => {
                    let _ = ctx.drop_after_term_var(0);
                    Some(Ty::Arrow(Box::new(Ty::ExstVar(alpha)), Box::new(Ty::ExstVar(beta))))
                },
                None => None,
            }
        },
        Term::Appl(func, arg) => match infer(ctx, func, fuel - 1) {
            Some(fty) => {
                let ftys = fty.subst_ctx(ctx);
                infer_appl(ctx, &ftys, arg, fuel - 1)
            },
            None => None,
        },
        Term::TypeAppl(term2, ty) => match infer(ctx, term2, fuel - 1) {
            Some(fty) => {
                if !ty.is_mono_wellformed_in(ctx.as_view()) {
                    return None;
                }
                match fty {
                    Ty::Forall(body) => Some((*body).subst_uvar0_bare(ty)),
                    _ => None,
                }
            },
            None => None,
        },
    }
}

/// Check `term` against `ty` under `ctx`. On failure the context must be
/// discarded by the caller.
pub fn check(ctx: &mut TyCtxt, term: &Term, ty: &Ty, fuel: usize) -> (res: Option<()>)
    ensures
        match spec_check(old(ctx)@, *term, *ty, fuel as nat) {
            Some(c) => res is Some && final(ctx)@ == c,
            None => res is None,
        },
    decreases fuel,
{
    if fuel == 0 {
        return None;
    }
    match (term, ty) {
        (_, Ty::Unit) | (_, Ty::Bool) => Some(()),
        (_, Ty::Forall(body)) => {
            ctx.add_uvar();
            match check(ctx, term, body, fuel - 1) {
                Some(()) => {
                    let _ = ctx.drop_after_uvar(0);
                    Some(())
                },
                None => None,
            }
        },
        (Term::Lambda(body), Ty::Arrow(inp, out)) => {
            ctx.add_term_var((**inp).clone());
            match check(ctx, body, out, fuel - 1) {
                Some(()) => {
                    let _ = ctx.drop_after_term_var(0);
                    Some(())
                },
                None => None,
            }
        },
        _ => match infer(ctx, term, fuel - 1) {
            Some(tya) => {
                let asub = tya.subst_ctx(ctx);
                let bsub = ty.clone().subst_ctx(ctx);
                subtype(ctx, &asub, &bsub, fuel - 1)
            },
            None => None,
        },
    }
}

/// Infer the type of applying a function of type `fty` (already
/// substituted under the current context) to the argument `term`.
pub fn infer_appl(ctx: &mut TyCtxt, fty: &Ty, term: &Term, fuel: usize) -> (res: Option<Ty>)
    ensures
        match spec_infer_appl(old(ctx)@, *fty, *term, fuel as nat) {
            Some((t, c)) => res == Some(t) && final(ctx)@ == c,
            None => res is None,
        },
    decreases fuel,
{
    if fuel == 0 {
        return None;
    }
    match fty {
        Ty::Forall(body) => {
            if !ctx.can_mint(1) {
                return None;
            }
            let evar = ctx.fresh_evar();
            ctx.add_unsolved(evar);
            let bsub = (**body).clone().subst_uvar0_bare(&Ty::ExstVar(evar));
            infer_appl(ctx, &bsub, term, fuel - 1)
        },
        Ty::ExstVar(evar) => {
            if !ctx.contains_unsolved_evar(*evar) {
                return None;
            }
            if !ctx.can_mint(2) {
                return None;
            }
            let alpha2 = ctx.fresh_evar();
            let alpha1 = ctx.fresh_evar();
            if ctx.insert_unsolved_before_evar(*evar, alpha2).is_none() {
                return None;
            }
            if ctx.insert_unsolved_before_evar(*evar, alpha1).is_none() {
                return None;
            }
            let arrow = Ty::Arrow(Box::new(Ty::ExstVar(alpha1)), Box::new(Ty::ExstVar(alpha2)));
            if ctx.solve_evar(*evar, arrow).is_none() {
                return None;
            }
            match check(ctx, term, &Ty::ExstVar(alpha1), fuel - 1) {
                Some(()) => Some(Ty::ExstVar(alpha2)),
                None => None,
            }
        },
        Ty::Arrow(inp, out) => match check(ctx, term, inp, fuel - 1) {
            Some(()) => Some((**out).clone()),
            None => None,
        },
        _ => None,
    }
}

/// The top-level driver judgment, mirrored at the specification level:
/// inference from the empty context followed by context substitution of
/// the result, rejecting a result in which unsolved existentials remain.
pub open spec fn spec_infer_type(e: Term, fuel: nat) -> Option<Ty> {
    let c0 = CtxState { entries: Seq::empty(), next: 0 };
    match spec_infer(c0, e, fuel) {
        Some((t, c1)) => {
            let t2 = spec_subst_in_state(t, c1);
            if spec_contains_some_evar(t2) {
                None
            } else {
                Some(t2)
            }
        },
        None => None,
    }
}

/// Infer the type of a closed term from the empty context, apply the
/// final context substitution, and accept only a fully determined result:
/// a type in which no existential remains.
pub fn infer_type(term: &Term, fuel: usize) -> (res: Option<Ty>)
    ensures
        res == spec_infer_type(*term, fuel as nat),
        res matches Some(t) ==> !spec_contains_some_evar(t),
{
    let mut ctx = TyCtxt::new();
    match infer(&mut ctx, term, fuel) {
        Some(t) => {
            let t2 = t.subst_ctx(&ctx);
            if t2.contains_some_evar() {
                None
            } else {
                Some(t2)
            }
        },
        None => None,
    }
}

} // verus!
