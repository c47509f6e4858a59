//! The subtyping and instantiation engine.
//!
//! `subtype` decides polymorphic subtyping between two types under the
//! current context; `inst_left` and `inst_right` solve an unsolved
//! existential against a type from the left or the right. Each executable
//! function is proved to compute exactly what its specification-level
//! mirror (`spec_subtype`, `spec_inst_left`, `spec_inst_right`) defines, so
//! results and final contexts are a function of the inputs alone.
//!
//! All three take an explicit recursion budget `fuel`; a call returns
//! `None` when the budget runs out, and every caller of the engine can pick
//! a budget larger than any derivation it expects.

use vstd::prelude::*;

use crate::ast::debruijn::{
    spec_contains_evar, spec_mono_wf, spec_subst_in_state, spec_subst_outer, Ty,
};
use crate::ctx::{
    seq_has_evar, seq_has_unsolved, seq_has_uvar, st_drop_marker, st_drop_uvar, st_insert_before,
    st_prefix_before, st_push, st_solve, CtxState, TyCtxt, TyCtxtEntry,
};

verus! {

/// The subtyping judgment, mirrored at the specification level: `None` is
/// failure (or an exhausted budget), `Some(c)` is success with the output
/// context `c`.
pub open spec fn spec_subtype(c: CtxState, a: Ty, b: Ty, fuel: nat) -> Option<CtxState>
    decreases fuel,
{
    if fuel == 0 {
        None
    } else {
        match (a, b) {
            (Ty::Var(idx1), Ty::Var(idx2)) => if idx1 == idx2 && seq_has_uvar(
                c.entries,
                idx1 as nat,
            ) {
                Some(c)
            } else {
                None
            },
            (Ty::Unit, Ty::Unit) => Some(c),
            (Ty::Bool, Ty::Bool) => Some(c),
            (Ty::ExstVar(idx1), Ty::ExstVar(idx2)) => if idx1 == idx2 && seq_has_evar(
                c.entries,
                idx1,
            ) {
                Some(c)
            } else if spec_contains_evar(b, idx1) {
                None
            } else {
                spec_inst_left(c, idx1, b, (fuel - 1) as nat)
            },
            (Ty::Arrow(a1, a2), Ty::Arrow(b1, b2)) => match spec_subtype(
                c,
                *b1,
                *a1,
                (fuel - 1) as nat,
            ) {
                Some(c1) => {
                    let a2s = spec_subst_in_state(*a2, c1);
                    let b2s = spec_subst_in_state(*b2, c1);
                    spec_subtype(c1, a2s, b2s, (fuel - 1) as nat)
                },
                None => None,
            },
            (Ty::Forall(abody), _) => if c.next + 1 > usize::MAX {
                None
            } else {
                let evar = c.next as usize;
                let c1 = CtxState { entries: c.entries, next: c.next + 1 };
                let c2 = st_push(c1, TyCtxtEntry::ExstMarker(evar));
                let c3 = st_push(c2, TyCtxtEntry::UnsolvedExst(evar));
                let asub = spec_subst_outer(*abody, Ty::ExstVar(evar), 0);
                match spec_subtype(c3, asub, b, (fuel - 1) as nat) {
                    Some(c4) => st_drop_marker(c4, evar),
                    None => None,
                }
            },
            (_, Ty::Forall(bbody)) => {
                let c1 = st_push(c, TyCtxtEntry::Uvar);
                match spec_subtype(c1, a, *bbody, (fuel - 1) as nat) {
                    Some(c2) => Some(
                        match st_drop_uvar(c2, 0) {
                            Some(c3) => c3,
                            None => c2,
                        },
                    ),
                    None => None,
                }
            },
            (Ty::ExstVar(evar), _) => if spec_contains_evar(b, evar) {
                None
            } else {
                spec_inst_left(c, evar, b, (fuel - 1) as nat)
            },
            (_, Ty::ExstVar(evar)) => if spec_contains_evar(a, evar) {
                None
            } else {
                spec_inst_right(c, a, evar, (fuel - 1) as nat)
            },
            _ => None,
        }
    }
}

/// Instantiation from the left (`evar` is solved to a subtype of `t`),
/// mirrored at the specification level.
pub open spec fn spec_inst_left(c: CtxState, evar: usize, t: Ty, fuel: nat) -> Option<CtxState>
    decreases fuel,
{
    if fuel == 0 {
        None
    } else if !seq_has_unsolved(c.entries, evar) {
        None
    } else {
        match st_prefix_before(c, evar) {
            Some(pre) => if spec_mono_wf(t, pre) {
                st_solve(c, evar, t)
            } else {
                match t {
                    Ty::ExstVar(beta) => if beta != evar && seq_has_unsolved(c.entries, beta) {
                        st_solve(c, beta, Ty::ExstVar(evar))
                    } else {
                        None
                    },
                    Ty::Arrow(a1, a2) => if c.next + 2 > usize::MAX {
                        None
                    } else {
                        let alpha2 = c.next as usize;
                        let alpha1 = (c.next + 1) as usize;
                        let c0 = CtxState { entries: c.entries, next: c.next + 2 };
                        match st_insert_before(c0, evar, alpha2) {
                            Some(c1) => match st_insert_before(c1, evar, alpha1) {
                                Some(c2) => match st_solve(
                                    c2,
                                    evar,
                                    Ty::Arrow(
                                        Box::new(Ty::ExstVar(alpha1)),
                                        Box::new(Ty::ExstVar(alpha2)),
                                    ),
                                ) {
                                    Some(c3) => match spec_inst_right(
                                        c3,
                                        *a1,
                                        alpha1,
                                        (fuel - 1) as nat,
                                    ) {
                                        Some(c4) => {
                                            let a2s = spec_subst_in_state(*a2, c4);
                                            spec_inst_left(c4, alpha2, a2s, (fuel - 1) as nat)
                                        },
                                        None => None,
                                    },
                                    None => None,
                                },
                                None => None,
                            },
                            None => None,
                        }
                    },
                    Ty::Forall(body) => {
                        let c1 = st_push(c, TyCtxtEntry::Uvar);
                        match spec_inst_left(c1, evar, *body, (fuel - 1) as nat) {
                            Some(c2) => st_drop_uvar(c2, 0),
                            None => None,
                        }
                    },
                    _ => None,
                }
            },
            None => None,
        }
    }
}

/// Instantiation from the right (`evar` is solved to a supertype of `t`),
/// mirrored at the specification level.
pub open spec fn spec_inst_right(c: CtxState, t: Ty, evar: usize, fuel: nat) -> Option<CtxState>
    decreases fuel,
{
    if fuel == 0 {
        None
    } else if !seq_has_unsolved(c.entries, evar) {
        None
    } else {
        match st_prefix_before(c, evar) {
            Some(pre) => if spec_mono_wf(t, pre) {
                st_solve(c, evar, t)
            } else {
                match t {
                    Ty::ExstVar(beta) => if beta != evar && seq_has_unsolved(c.entries, beta) {
                        st_solve(c, beta, Ty::ExstVar(evar))
                    } else {
                        None
                    },
                    Ty::Arrow(a1, a2) => if c.next + 2 > usize::MAX {
                        None
                    } else {
                        let alpha2 = c.next as usize;
                        let alpha1 = (c.next + 1) as usize;
                        let c0 = CtxState { entries: c.entries, next: c.next + 2 };
                        match st_insert_before(c0, evar, alpha2) {
                            Some(c1) => match st_insert_before(c1, evar, alpha1) {
                                Some(c2) => match st_solve(
                                    c2,
                                    evar,
                                    Ty::Arrow(
                                        Box::new(Ty::ExstVar(alpha1)),
                                        Box::new(Ty::ExstVar(alpha2)),
                                    ),
                                ) {
                                    Some(c3) => match spec_inst_left(
                                        c3,
                                        alpha1,
                                        *a1,
                                        (fuel - 1) as nat,
                                    ) {
                                        Some(c4) => {
                                            let a2s = spec_subst_in_state(*a2, c4);
                                            spec_inst_right(c4, a2s, alpha2, (fuel - 1) as nat)
                                        },
                                        None => None,
                                    },
                                    None => None,
                                },
                                None => None,
                            },
                            None => None,
                        }
                    },
                    Ty::Forall(body) => if c.next + 1 > usize::MAX {
                        None
                    } else {
                        let beta = c.next as usize;
                        let c0 = CtxState { entries: c.entries, next: c.next + 1 };
                        let c1 = st_push(c0, TyCtxtEntry::ExstMarker(beta));
                        let c2 = st_push(c1, TyCtxtEntry::UnsolvedExst(beta));
                        let bsub = spec_subst_outer(*body, Ty::ExstVar(beta), 0);
                        match spec_inst_right(c2, bsub, evar, (fuel - 1) as nat) {
                            Some(c3) => st_drop_marker(c3, beta),
                            None => None,
                        }
                    },
                    _ => None,
                }
            },
            None => None,
        }
    }
}

/// Decide `a <: b` under `ctx`. On success the context may have gained
/// markers, existentials and solutions; on failure the context is left in
/// an unspecified intermediate state and must be discarded by the caller.
pub fn subtype(ctx: &mut TyCtxt, ty1: &Ty, ty2: &Ty, fuel: usize) -> (res: Option<()>)
    ensures
        match spec_subtype(old(ctx)@, *ty1, *ty2, fuel as nat) {
            Some(c) => res is Some && final(ctx)@ == c,
            None => res is None,
        },
    decreases fuel,
{
    if fuel == 0 {
        return None;
    }
    match (ty1, ty2) {
        (Ty::Var(idx1), Ty::Var(idx2)) => {
            if *idx1 == *idx2 && ctx.contains_uvar(*idx1) {
                Some(())
            } else {
                None
            }
        },
        (Ty::Unit, Ty::Unit) => Some(()),
        (Ty::Bool, Ty::Bool) => Some(()),
        (Ty::ExstVar(idx1), Ty::ExstVar(idx2)) => {
            if *idx1 == *idx2 && ctx.contains_evar(*idx1) {
                Some(())
            } else if ty2.contains_evar(*idx1) {
                None
            } else {
                inst_left(ctx, *idx1, ty2, fuel - 1)
            }
        },
        (Ty::Arrow(a1, a2), Ty::Arrow(b1, b2)) => {
            match subtype(ctx, b1, a1, fuel - 1) {
                Some(()) => {
                    let a2s = (**a2).clone().subst_ctx(ctx);
                    let b2s = (**b2).clone().subst_ctx(ctx);
                    subtype(ctx, &a2s, &b2s, fuel - 1)
                },
                None => None,
            }
        },
        (Ty::Forall(abody), _) => {
            if !ctx.can_mint(1) {
                return None;
            }
            let evar = ctx.fresh_evar();
            ctx.add_marker(evar);
            ctx.add_unsolved(evar);
            let asub = (**abody).clone().subst_uvar0_bare(&Ty::ExstVar(evar));
            match subtype(ctx, &asub, ty2, fuel - 1) {
                Some(()) => ctx.drop_after_marker(evar),
                None => None,
            }
        },
        (_, Ty::Forall(bbody)) => {
            ctx.add_uvar();
            match subtype(ctx, ty1, bbody, fuel - 1) {
                Some(()) => {
                    let _ = ctx.drop_after_uvar(0);
                    Some(())
                },
                None => None,
            }
        },
        (Ty::ExstVar(evar), _) => {
            if ty2.contains_evar(*evar) {
                None
            } else {
                inst_left(ctx, *evar, ty2, fuel - 1)
            }
        },
        (_, Ty::ExstVar(evar)) => {
            if ty1.contains_evar(*evar) {
                None
            } else {
                inst_right(ctx, ty1, *evar, fuel - 1)
            }
        },
        _ => None,
    }
}

/// Solve the unsolved existential `evar` to a subtype of `ty`.
pub fn inst_left(ctx: &mut TyCtxt, evar: usize, ty: &Ty, fuel: usize) -> (res: Option<()>)
    ensures
        match spec_inst_left(old(ctx)@, evar, *ty, fuel as nat) {
            Some(c) => res is Some && final(ctx)@ == c,
            None => res is None,
        },
    decreases fuel,
{
    if fuel == 0 {
        return None;
    }
    if !ctx.contains_unsolved_evar(evar) {
        return None;
    }
    let pre = match ctx.slice_until_evar(evar) {
        Some(v) => v,
        None => {
            return None;
        },
    };
    if ty.is_mono_wellformed_in(pre) {
        return match ctx.solve_evar(evar, ty.clone()) {
            Some(()) => Some(()),
            None => None,
        };
    }
    match ty {
        Ty::ExstVar(beta) => {
            if *beta != evar && ctx.contains_unsolved_evar(*beta) {
                match ctx.solve_evar(*beta, Ty::ExstVar(evar)) {
                    Some(()) => Some(()),
                    None => None,
                }
            } else {
                None
            }
        },
        Ty::Arrow(a1, a2) => {
            if !ctx.can_mint(2) {
                return None;
            }
            let alpha2 = ctx.fresh_evar();
            let alpha1 = ctx.fresh_evar();
            if ctx.insert_unsolved_before_evar(evar, alpha2).is_none() {
                return None;
            }
            if ctx.insert_unsolved_before_evar(evar, alpha1).is_none() {
                return None;
            }
            let arrow = Ty::Arrow(Box::new(Ty::ExstVar(alpha1)), Box::new(Ty::ExstVar(alpha2)));
            if ctx.solve_evar(evar, arrow).is_none() {
                return None;
            }
            match inst_right(ctx, a1, alpha1, fuel - 1) {
                Some(()) => {
                    let a2s = (**a2).clone().subst_ctx(ctx);
                    inst_left(ctx, alpha2, &a2s, fuel - 1)
                },
                None => None,
            }
        },
        Ty::Forall(body) => {
            ctx.add_uvar();
            match inst_left(ctx, evar, body, fuel - 1) {
                Some(()) => ctx.drop_after_uvar(0),
                None => None,
            }
        },
        _ => None,
    }
}

/// Solve the unsolved existential `evar` to a supertype of `ty`.
pub fn inst_right(ctx: &mut TyCtxt, ty: &Ty, evar: usize, fuel: usize) -> (res: Option<()>)
    ensures
        match spec_inst_right(old(ctx)@, *ty, evar, fuel as nat) {
            Some(c) => res is Some && final(ctx)@ == c,
            None => res is None,
        },
    decreases fuel,
{
    if fuel == 0 {
        return None;
    }
    if !ctx.contains_unsolved_evar(evar) {
        return None;
    }
    let pre = match ctx.slice_until_evar(evar) {
        Some(v) => v,
        None => {
            return None;
        },
    };
    if ty.is_mono_wellformed_in(pre) {
        return match ctx.solve_evar(evar, ty.clone()) {
            Some(()) => Some(()),
            None => None,
        };
    }
    match ty {
        Ty::ExstVar(beta) => {
            if *beta != evar && ctx.contains_unsolved_evar(*beta) {
                match ctx.solve_evar(*beta, Ty::ExstVar(evar)) {
                    Some(()) => Some(()),
                    None => None,
                }
            } else {
                None
            }
        },
        Ty::Arrow(a1, a2) => {
            if !ctx.can_mint(2) {
                return None;
            }
            let alpha2 = ctx.fresh_evar();
            let alpha1 = ctx.fresh_evar();
            if ctx.insert_unsolved_before_evar(evar, alpha2).is_none() {
                return None;
            }
            if ctx.insert_unsolved_before_evar(evar, alpha1).is_none() {
                return None;
            }
            let arrow = Ty::Arrow(Box::new(Ty::ExstVar(alpha1)), Box::new(Ty::ExstVar(alpha2)));
            if ctx.solve_evar(evar, arrow).is_none() {
                return None;
            }
            match inst_left(ctx, alpha1, a1, fuel - 1) {
                Some(()) => {
                    let a2s = (**a2).clone().subst_ctx(ctx);
                    inst_right(ctx, &a2s, alpha2, fuel - 1)
                },
                None => None,
            }
        },
        Ty::Forall(body) => {
            if !ctx.can_mint(1) {
                return None;
            }
            let beta = ctx.fresh_evar();
            ctx.add_marker(beta);
            ctx.add_unsolved(beta);
            let bsub = (**body).clone().subst_uvar0_bare(&Ty::ExstVar(beta));
            match inst_right(ctx, &bsub, evar, fuel - 1) {
                Some(()) => ctx.drop_after_marker(beta),
                None => None,
            }
        },
        _ => None,
    }
}

} // verus!
