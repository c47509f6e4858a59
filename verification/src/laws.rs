//! Proved laws of the inference engine.
//!
//! Each public proof function here states a property of the engine over
//! the specification-level mirrors that the executable functions are
//! proved to compute (`spec_infer`, `spec_check`, `spec_subtype`,
//! `spec_subst_ctx`, ...), so each property carries over to the
//! executable engine through those contracts. The laws cover: idempotence
//! of context substitution, and its unconditional form on contexts whose
//! solutions refer only leftward; soundness of ascription; reflexivity of
//! subtyping on closed monotypes; the occurs check; predicativity (every
//! recorded solution is a monotype); and identity discipline (existential
//! identities stay unique and below the counter, so fresh identities are
//! never reused).

use vstd::prelude::*;

use crate::ast::debruijn::{
    spec_contains_evar, spec_contains_evars, spec_contains_some_evar, spec_is_mono, spec_mono_wf,
    spec_subst_ctx, spec_wf,
    spec_subst_in_state, spec_subst_once, spec_subst_outer, Term, Ty,
};
use crate::ctx::{
    find_marker_from, find_unsolved_from, seq_has_unsolved, solved_map, st_drop_marker,
    st_drop_term_var,
    st_drop_uvar, st_insert_before, st_prefix_before, st_push, st_solve, term_var_pos, uvar_pos,
    CtxState, TyCtxtEntry,
};
use crate::typeck::subtyping::{spec_inst_left, spec_inst_right, spec_subtype};
use crate::typeck::{spec_check, spec_infer};

verus! {

/// A closed monotype: no quantifier, no universal variable, no
/// existential.
pub open spec fn spec_closed_mono(t: Ty) -> bool
    decreases t,
{
    match t {
        Ty::Bool | Ty::Unit => true,
        Ty::Arrow(inp, out) => spec_closed_mono(*inp) && spec_closed_mono(*out),
        Ty::Forall(_) | Ty::Var(_) | Ty::ExstVar(_) => false,
    }
}

/// The number of nodes of a type.
pub open spec fn ty_size(t: Ty) -> nat
    decreases t,
{
    match t {
        Ty::Bool | Ty::Unit | Ty::Var(_) | Ty::ExstVar(_) => 1,
        Ty::Arrow(inp, out) => 1 + ty_size(*inp) + ty_size(*out),
        Ty::Forall(body) => 1 + ty_size(*body),
    }
}

/// A closed monotype mentions no existential, so no solution map touches
/// it.
pub proof fn lemma_closed_mono_no_evars(t: Ty, m: Map<usize, Ty>)
    requires
        spec_closed_mono(t),
    ensures
        !spec_contains_evars(t, m),
    decreases t,
{
    match t {
        Ty::Arrow(inp, out) => {
            lemma_closed_mono_no_evars(*inp, m);
            lemma_closed_mono_no_evars(*out, m);
        },
        _ => {},
    }
}

/// Context substitution leaves a type without solved existentials
/// unchanged.
pub proof fn lemma_subst_ctx_fixed(t: Ty, m: Map<usize, Ty>, k: nat)
    requires
        !spec_contains_evars(t, m),
    ensures
        spec_subst_ctx(t, m, k) == t,
{
}

/// Idempotence of context substitution: once a substitution pass has
/// eliminated every solved existential, substituting again changes
/// nothing.
pub proof fn lemma_subst_ctx_idempotent(t: Ty, m: Map<usize, Ty>, k: nat, k2: nat)
    requires
        !spec_contains_evars(spec_subst_ctx(t, m, k), m),
    ensures
        spec_subst_ctx(spec_subst_ctx(t, m, k), m, k2) == spec_subst_ctx(t, m, k),
{
    lemma_subst_ctx_fixed(spec_subst_ctx(t, m, k), m, k2);
}

/// Soundness of ascription: if `check(e, t)` succeeds and `t` is
/// well-formed in the context, then inferring `Ann(e, t)` succeeds with
/// the type `t` and the same output context.
pub proof fn lemma_ascription_sound(c: CtxState, e: Term, t: Ty, fuel: nat, c2: CtxState)
    requires
        spec_wf(t, c.entries, 0),
        spec_check(c, e, t, fuel) == Some(c2),
    ensures
        spec_infer(c, Term::Ann(Box::new(e), t), fuel + 1) == Some((t, c2)),
{
}

/// The occurs check: an existential is never a subtype of an arrow that
/// mentions it, whatever the context and however much fuel is supplied.
pub proof fn lemma_occurs_check(c: CtxState, alpha: usize, fuel: nat)
    ensures
        spec_subtype(
            c,
            Ty::ExstVar(alpha),
            Ty::Arrow(Box::new(Ty::ExstVar(alpha)), Box::new(Ty::Unit)),
            fuel,
        ) is None,
{
    assert(spec_contains_evar(Ty::ExstVar(alpha), alpha));
}

/// Reflexivity of subtyping on closed monotypes: `subtype(t, t)` succeeds
/// and leaves the context unchanged, given fuel at least the size of `t`.
pub proof fn lemma_subtype_refl(c: CtxState, t: Ty, fuel: nat)
    requires
        spec_closed_mono(t),
        fuel >= ty_size(t),
    ensures
        spec_subtype(c, t, t, fuel) == Some(c),
    decreases t,
{
    match t {
        Ty::Bool | Ty::Unit => {},
        Ty::Arrow(inp, out) => {
            lemma_subtype_refl(c, *inp, (fuel - 1) as nat);
            lemma_closed_mono_no_evars(*out, crate::ctx::solved_map(c.entries));
            lemma_subst_ctx_fixed(
                *out,
                crate::ctx::solved_map(c.entries),
                c.entries.len(),
            );
            lemma_subtype_refl(c, *out, (fuel - 1) as nat);
        },
        _ => {},
    }
}

/// A solved entry records a monotype; other entries are unconstrained.
pub open spec fn entry_solved_mono(e: TyCtxtEntry) -> bool {
    match e {
        TyCtxtEntry::SolvedExst(_, ty) => spec_is_mono(ty),
        _ => true,
    }
}

/// Predicativity invariant of a context: every recorded solution is a
/// monotype.
pub open spec fn all_solved_mono(s: Seq<TyCtxtEntry>) -> bool {
    forall|i: int| 0 <= i < s.len() ==> entry_solved_mono(#[trigger] s[i])
}

/// A monotype well-formed in some prefix is in particular a monotype.
pub proof fn lemma_mono_wf_is_mono(t: Ty, s: Seq<TyCtxtEntry>)
    requires
        spec_mono_wf(t, s),
    ensures
        spec_is_mono(t),
    decreases t,
{
    match t {
        Ty::Arrow(inp, out) => {
            lemma_mono_wf_is_mono(*inp, s);
            lemma_mono_wf_is_mono(*out, s);
        },
        _ => {},
    }
}

proof fn lemma_push_solved_mono(s: Seq<TyCtxtEntry>, e: TyCtxtEntry)
    requires
        all_solved_mono(s),
        entry_solved_mono(e),
    ensures
        all_solved_mono(s.push(e)),
{
    assert forall|i: int| 0 <= i < s.push(e).len() implies entry_solved_mono(s.push(e)[i]) by {
        if i < s.len() {
            assert(s.push(e)[i] == s[i]);
        } else {
            assert(s.push(e)[i] == e);
        }
    }
}

proof fn lemma_subrange_solved_mono(s: Seq<TyCtxtEntry>, a: int, b: int)
    requires
        all_solved_mono(s),
        0 <= a <= b <= s.len(),
    ensures
        all_solved_mono(s.subrange(a, b)),
{
    assert forall|i: int| 0 <= i < s.subrange(a, b).len() implies entry_solved_mono(
        s.subrange(a, b)[i],
    ) by {
        assert(s.subrange(a, b)[i] == s[a + i]);
    }
}

proof fn lemma_update_solved_mono(s: Seq<TyCtxtEntry>, p: int, e: TyCtxtEntry)
    requires
        all_solved_mono(s),
        0 <= p < s.len(),
        entry_solved_mono(e),
    ensures
        all_solved_mono(s.update(p, e)),
{
    assert forall|i: int| 0 <= i < s.update(p, e).len() implies entry_solved_mono(
        s.update(p, e)[i],
    ) by {
        if i == p {
            assert(s.update(p, e)[i] == e);
        } else {
            assert(s.update(p, e)[i] == s[i]);
        }
    }
}

proof fn lemma_insert_solved_mono(s: Seq<TyCtxtEntry>, p: int, e: TyCtxtEntry)
    requires
        all_solved_mono(s),
        0 <= p <= s.len(),
        entry_solved_mono(e),
    ensures
        all_solved_mono(s.insert(p, e)),
{
    s.insert_ensures(p, e);
    assert forall|i: int| 0 <= i < s.insert(p, e).len() implies entry_solved_mono(
        s.insert(p, e)[i],
    ) by {
        if i < p {
            assert(s.insert(p, e)[i] == s[i]);
        } else if i == p {
            assert(s.insert(p, e)[i] == e);
        } else {
            assert(s.insert(p, e)[i] == s[i - 1]);
        }
    }
}

proof fn lemma_st_solve_solved_mono(c: CtxState, id: usize, ty: Ty, c2: CtxState)
    requires
        all_solved_mono(c.entries),
        spec_is_mono(ty),
        st_solve(c, id, ty) == Some(c2),
    ensures
        all_solved_mono(c2.entries),
{
    crate::ctx::lemma_find_unsolved_bounds(c.entries, id, 0);
    match find_unsolved_from(c.entries, id, 0) {
        Some(p) => {
            lemma_update_solved_mono(c.entries, p, TyCtxtEntry::SolvedExst(id, ty));
        },
        None => {},
    }
}

proof fn lemma_st_insert_solved_mono(c: CtxState, id: usize, fresh_id: usize, c2: CtxState)
    requires
        all_solved_mono(c.entries),
        st_insert_before(c, id, fresh_id) == Some(c2),
    ensures
        all_solved_mono(c2.entries),
{
    crate::ctx::lemma_find_unsolved_bounds(c.entries, id, 0);
    match find_unsolved_from(c.entries, id, 0) {
        Some(p) => {
            lemma_insert_solved_mono(c.entries, p, TyCtxtEntry::UnsolvedExst(fresh_id));
        },
        None => {},
    }
}

proof fn lemma_st_drop_marker_solved_mono(c: CtxState, id: usize, c2: CtxState)
    requires
        all_solved_mono(c.entries),
        st_drop_marker(c, id) == Some(c2),
    ensures
        all_solved_mono(c2.entries),
{
    crate::ctx::lemma_find_marker_bounds(c.entries, id, 0);
    match find_marker_from(c.entries, id, 0) {
        Some(p) => {
            lemma_subrange_solved_mono(c.entries, 0, p);
        },
        None => {},
    }
}

proof fn lemma_st_drop_uvar_solved_mono(c: CtxState, k: nat, c2: CtxState)
    requires
        all_solved_mono(c.entries),
        st_drop_uvar(c, k) == Some(c2),
    ensures
        all_solved_mono(c2.entries),
{
    crate::ctx::lemma_uvar_pos_bounds(c.entries, k);
    match uvar_pos(c.entries, k) {
        Some(p) => {
            lemma_subrange_solved_mono(c.entries, 0, p);
        },
        None => {},
    }
}

proof fn lemma_st_drop_term_var_solved_mono(c: CtxState, k: nat, c2: CtxState)
    requires
        all_solved_mono(c.entries),
        st_drop_term_var(c, k) == Some(c2),
    ensures
        all_solved_mono(c2.entries),
{
    crate::ctx::lemma_term_var_pos_bounds(c.entries, k);
    match term_var_pos(c.entries, k) {
        Some(p) => {
            lemma_subrange_solved_mono(c.entries, 0, p);
        },
        None => {},
    }
}

/// Predicativity of instantiation from the left: a successful
/// `inst_left` only ever records monotype solutions.
pub proof fn lemma_inst_left_predicative(c: CtxState, evar: usize, t: Ty, fuel: nat, c2: CtxState)
    requires
        all_solved_mono(c.entries),
        spec_inst_left(c, evar, t, fuel) == Some(c2),
    ensures
        all_solved_mono(c2.entries),
    decreases fuel,
{
    if fuel == 0 || !seq_has_unsolved(c.entries, evar) {
    } else {
        match st_prefix_before(c, evar) {
            Some(pre) => {
                if spec_mono_wf(t, pre) {
                    lemma_mono_wf_is_mono(t, pre);
                    lemma_st_solve_solved_mono(c, evar, t, c2);
                } else {
                    match t {
                        Ty::ExstVar(beta) => {
                            if beta != evar && seq_has_unsolved(c.entries, beta) {
                                assert(spec_is_mono(Ty::ExstVar(evar)));
                                lemma_st_solve_solved_mono(c, beta, Ty::ExstVar(evar), c2);
                            }
                        },
                        Ty::Arrow(a1, a2) => {
                            if c.next + 2 > usize::MAX {
                            } else {
                                let alpha2 = c.next as usize;
                                let alpha1 = (c.next + 1) as usize;
                                let arrow = Ty::Arrow(
                                    Box::new(Ty::ExstVar(alpha1)),
                                    Box::new(Ty::ExstVar(alpha2)),
                                );
                                let c0 = CtxState { entries: c.entries, next: c.next + 2 };
                                match st_insert_before(c0, evar, alpha2) {
                                    Some(ca) => {
                                        lemma_st_insert_solved_mono(c0, evar, alpha2, ca);
                                        match st_insert_before(ca, evar, alpha1) {
                                            Some(cb) => {
                                                lemma_st_insert_solved_mono(ca, evar, alpha1, cb);
                                                match st_solve(cb, evar, arrow) {
                                                    Some(cc) => {
                                                        assert(spec_is_mono(Ty::ExstVar(alpha1)));
                                                        assert(spec_is_mono(Ty::ExstVar(alpha2)));
                                                        assert(spec_is_mono(arrow));
                                                        lemma_st_solve_solved_mono(
                                                            cb,
                                                            evar,
                                                            arrow,
                                                            cc,
                                                        );
                                                        match spec_inst_right(
                                                            cc,
                                                            *a1,
                                                            alpha1,
                                                            (fuel - 1) as nat,
                                                        ) {
                                                            Some(cd) => {
                                                                lemma_inst_right_predicative(
                                                                    cc,
                                                                    *a1,
                                                                    alpha1,
                                                                    (fuel - 1) as nat,
                                                                    cd,
                                                                );
                                                                let a2s = spec_subst_in_state(
                                                                    *a2,
                                                                    cd,
                                                                );
                                                                lemma_inst_left_predicative(
                                                                    cd,
                                                                    alpha2,
                                                                    a2s,
                                                                    (fuel - 1) as nat,
                                                                    c2,
                                                                );
                                                            },
                                                            None => {},
                                                        }
                                                    },
                                                    None => {},
                                                }
                                            },
                                            None => {},
                                        }
                                    },
                                    None => {},
                                }
                            }
                        },
                        Ty::Forall(body) => {
                            let ca = st_push(c, TyCtxtEntry::Uvar);
                            lemma_push_solved_mono(c.entries, TyCtxtEntry::Uvar);
                            match spec_inst_left(ca, evar, *body, (fuel - 1) as nat) {
                                Some(cb) => {
                                    lemma_inst_left_predicative(
                                        ca,
                                        evar,
                                        *body,
                                        (fuel - 1) as nat,
                                        cb,
                                    );
                                    lemma_st_drop_uvar_solved_mono(cb, 0, c2);
                                },
                                None => {},
                            }
                        },
                        _ => {},
                    }
                }
            },
            None => {},
        }
    }
}

/// Predicativity of instantiation from the right.
pub proof fn lemma_inst_right_predicative(c: CtxState, t: Ty, evar: usize, fuel: nat, c2: CtxState)
    requires
        all_solved_mono(c.entries),
        spec_inst_right(c, t, evar, fuel) == Some(c2),
    ensures
        all_solved_mono(c2.entries),
    decreases fuel,
{
    if fuel == 0 || !seq_has_unsolved(c.entries, evar) {
    } else {
        match st_prefix_before(c, evar) {
            Some(pre) => {
                if spec_mono_wf(t, pre) {
                    lemma_mono_wf_is_mono(t, pre);
                    lemma_st_solve_solved_mono(c, evar, t, c2);
                } else {
                    match t {
                        Ty::ExstVar(beta) => {
                            if beta != evar && seq_has_unsolved(c.entries, beta) {
                                assert(spec_is_mono(Ty::ExstVar(evar)));
                                lemma_st_solve_solved_mono(c, beta, Ty::ExstVar(evar), c2);
                            }
                        },
                        Ty::Arrow(a1, a2) => {
                            if c.next + 2 > usize::MAX {
                            } else {
                                let alpha2 = c.next as usize;
                                let alpha1 = (c.next + 1) as usize;
                                let arrow = Ty::Arrow(
                                    Box::new(Ty::ExstVar(alpha1)),
                                    Box::new(Ty::ExstVar(alpha2)),
                                );
                                let c0 = CtxState { entries: c.entries, next: c.next + 2 };
                                match st_insert_before(c0, evar, alpha2) {
                                    Some(ca) => {
                                        lemma_st_insert_solved_mono(c0, evar, alpha2, ca);
                                        match st_insert_before(ca, evar, alpha1) {
                                            Some(cb) => {
                                                lemma_st_insert_solved_mono(ca, evar, alpha1, cb);
                                                match st_solve(cb, evar, arrow) {
                                                    Some(cc) => {
                                                        assert(spec_is_mono(Ty::ExstVar(alpha1)));
                                                        assert(spec_is_mono(Ty::ExstVar(alpha2)));
                                                        assert(spec_is_mono(arrow));
                                                        lemma_st_solve_solved_mono(
                                                            cb,
                                                            evar,
                                                            arrow,
                                                            cc,
                                                        );
                                                        match spec_inst_left(
                                                            cc,
                                                            alpha1,
                                                            *a1,
                                                            (fuel - 1) as nat,
                                                        ) {
                                                            Some(cd) => {
                                                                lemma_inst_left_predicative(
                                                                    cc,
                                                                    alpha1,
                                                                    *a1,
                                                                    (fuel - 1) as nat,
                                                                    cd,
                                                                );
                                                                let a2s = spec_subst_in_state(
                                                                    *a2,
                                                                    cd,
                                                                );
                                                                lemma_inst_right_predicative(
                                                                    cd,
                                                                    a2s,
                                                                    alpha2,
                                                                    (fuel - 1) as nat,
                                                                    c2,
                                                                );
                                                            },
                                                            None => {},
                                                        }
                                                    },
                                                    None => {},
                                                }
                                            },
                                            None => {},
                                        }
                                    },
                                    None => {},
                                }
                            }
                        },
                        Ty::Forall(body) => {
                            if c.next + 1 > usize::MAX {
                            } else {
                                let beta = c.next as usize;
                                let c0 = CtxState { entries: c.entries, next: c.next + 1 };
                                let ca = st_push(c0, TyCtxtEntry::ExstMarker(beta));
                                let cb = st_push(ca, TyCtxtEntry::UnsolvedExst(beta));
                                lemma_push_solved_mono(c0.entries, TyCtxtEntry::ExstMarker(beta));
                                lemma_push_solved_mono(ca.entries, TyCtxtEntry::UnsolvedExst(beta));
                                let bsub = spec_subst_outer(*body, Ty::ExstVar(beta), 0);
                                match spec_inst_right(cb, bsub, evar, (fuel - 1) as nat) {
                                    Some(cc) => {
                                        lemma_inst_right_predicative(
                                            cb,
                                            bsub,
                                            evar,
                                            (fuel - 1) as nat,
                                            cc,
                                        );
                                        lemma_st_drop_marker_solved_mono(cc, beta, c2);
                                    },
                                    None => {},
                                }
                            }
                        },
                        _ => {},
                    }
                }
            },
            None => {},
        }
    }
}

/// Predicativity of subtyping.
pub proof fn lemma_subtype_predicative(c: CtxState, a: Ty, b: Ty, fuel: nat, c2: CtxState)
    requires
        all_solved_mono(c.entries),
        spec_subtype(c, a, b, fuel) == Some(c2),
    ensures
        all_solved_mono(c2.entries),
    decreases fuel,
{
    if fuel == 0 {
    } else {
        match (a, b) {
            (Ty::Var(idx1), Ty::Var(idx2)) => {},
            (Ty::Unit, Ty::Unit) => {},
            (Ty::Bool, Ty::Bool) => {},
            (Ty::ExstVar(idx1), Ty::ExstVar(idx2)) => {
                if idx1 == idx2 && crate::ctx::seq_has_evar(c.entries, idx1) {
                } else if spec_contains_evar(b, idx1) {
                } else {
                    lemma_inst_left_predicative(c, idx1, b, (fuel - 1) as nat, c2);
                }
            },
            (Ty::Arrow(a1, a2), Ty::Arrow(b1, b2)) => {
                match spec_subtype(c, *b1, *a1, (fuel - 1) as nat) {
                    Some(ca) => {
                        lemma_subtype_predicative(c, *b1, *a1, (fuel - 1) as nat, ca);
                        let a2s = spec_subst_in_state(*a2, ca);
                        let b2s = spec_subst_in_state(*b2, ca);
                        lemma_subtype_predicative(ca, a2s, b2s, (fuel - 1) as nat, c2);
                    },
                    None => {},
                }
            },
            (Ty::Forall(abody), _) => {
                if c.next + 1 > usize::MAX {
                } else {
                    let evar = c.next as usize;
                    let c0 = CtxState { entries: c.entries, next: c.next + 1 };
                    let ca = st_push(c0, TyCtxtEntry::ExstMarker(evar));
                    let cb = st_push(ca, TyCtxtEntry::UnsolvedExst(evar));
                    lemma_push_solved_mono(c0.entries, TyCtxtEntry::ExstMarker(evar));
                    lemma_push_solved_mono(ca.entries, TyCtxtEntry::UnsolvedExst(evar));
                    let asub = spec_subst_outer(*abody, Ty::ExstVar(evar), 0);
                    match spec_subtype(cb, asub, b, (fuel - 1) as nat) {
                        Some(cc) => {
                            lemma_subtype_predicative(cb, asub, b, (fuel - 1) as nat, cc);
                            lemma_st_drop_marker_solved_mono(cc, evar, c2);
                        },
                        None => {},
                    }
                }
            },
            (_, Ty::Forall(bbody)) => {
                let ca = st_push(c, TyCtxtEntry::Uvar);
                lemma_push_solved_mono(c.entries, TyCtxtEntry::Uvar);
                match spec_subtype(ca, a, *bbody, (fuel - 1) as nat) {
                    Some(cb) => {
                        lemma_subtype_predicative(ca, a, *bbody, (fuel - 1) as nat, cb);
                        match st_drop_uvar(cb, 0) {
                            Some(cc) => {
                                lemma_st_drop_uvar_solved_mono(cb, 0, cc);
                            },
                            None => {},
                        }
                    },
                    None => {},
                }
            },
            (Ty::ExstVar(evar), _) => {
                if spec_contains_evar(b, evar) {
                } else {
                    lemma_inst_left_predicative(c, evar, b, (fuel - 1) as nat, c2);
                }
            },
            (_, Ty::ExstVar(evar)) => {
                if spec_contains_evar(a, evar) {
                } else {
                    lemma_inst_right_predicative(c, a, evar, (fuel - 1) as nat, c2);
                }
            },
            _ => {},
        }
    }
}

/// Predicativity of checking.
pub proof fn lemma_check_predicative(c: CtxState, e: Term, t: Ty, fuel: nat, c2: CtxState)
    requires
        all_solved_mono(c.entries),
        spec_check(c, e, t, fuel) == Some(c2),
    ensures
        all_solved_mono(c2.entries),
    decreases fuel,
{
    if fuel == 0 {
    } else {
        match (e, t) {
            (_, Ty::Unit) | (_, Ty::Bool) => {},
            (_, Ty::Forall(body)) => {
                let ca = st_push(c, TyCtxtEntry::Uvar);
                lemma_push_solved_mono(c.entries, TyCtxtEntry::Uvar);
                match spec_check(ca, e, *body, (fuel - 1) as nat) {
                    Some(cb) => {
                        lemma_check_predicative(ca, e, *body, (fuel - 1) as nat, cb);
                        match st_drop_uvar(cb, 0) {
                            Some(cc) => {
                                lemma_st_drop_uvar_solved_mono(cb, 0, cc);
                            },
                            None => {},
                        }
                    },
                    None => {},
                }
            },
            (Term::Lambda(body), Ty::Arrow(inp, out)) => {
                let ca = st_push(c, TyCtxtEntry::TermVar(*inp));
                lemma_push_solved_mono(c.entries, TyCtxtEntry::TermVar(*inp));
                match spec_check(ca, *body, *out, (fuel - 1) as nat) {
                    Some(cb) => {
                        lemma_check_predicative(ca, *body, *out, (fuel - 1) as nat, cb);
                        match st_drop_term_var(cb, 0) {
                            Some(cc) => {
                                lemma_st_drop_term_var_solved_mono(cb, 0, cc);
                            },
                            None => {},
                        }
                    },
                    None => {},
                }
            },
            _ => {
                match spec_infer(c, e, (fuel - 1) as nat) {
                    Some((ai, ca)) => {
                        lemma_infer_predicative(c, e, (fuel - 1) as nat, ai, ca);
                        let asub = spec_subst_in_state(ai, ca);
                        let bsub = spec_subst_in_state(t, ca);
                        lemma_subtype_predicative(ca, asub, bsub, (fuel - 1) as nat, c2);
                    },
                    None => {},
                }
            },
        }
    }
}

/// Predicativity of application inference.
pub proof fn lemma_infer_appl_predicative(
    c: CtxState,
    fty: Ty,
    e: Term,
    fuel: nat,
    t2: Ty,
    c2: CtxState,
)
    requires
        all_solved_mono(c.entries),
        crate::typeck::spec_infer_appl(c, fty, e, fuel) == Some((t2, c2)),
    ensures
        all_solved_mono(c2.entries),
    decreases fuel,
{
    if fuel == 0 {
    } else {
        match fty {
            Ty::Forall(body) => {
                if c.next + 1 > usize::MAX {
                } else {
                    let evar = c.next as usize;
                    let c0 = CtxState { entries: c.entries, next: c.next + 1 };
                    let ca = st_push(c0, TyCtxtEntry::UnsolvedExst(evar));
                    lemma_push_solved_mono(c0.entries, TyCtxtEntry::UnsolvedExst(evar));
                    let bsub = spec_subst_outer(*body, Ty::ExstVar(evar), 0);
                    lemma_infer_appl_predicative(ca, bsub, e, (fuel - 1) as nat, t2, c2);
                }
            },
            Ty::ExstVar(evar) => {
                if !seq_has_unsolved(c.entries, evar) {
                } else if c.next + 2 > usize::MAX {
                } else {
                    let alpha2 = c.next as usize;
                    let alpha1 = (c.next + 1) as usize;
                    let arrow = Ty::Arrow(
                        Box::new(Ty::ExstVar(alpha1)),
                        Box::new(Ty::ExstVar(alpha2)),
                    );
                    let c0 = CtxState { entries: c.entries, next: c.next + 2 };
                    match st_insert_before(c0, evar, alpha2) {
                        Some(ca) => {
                            lemma_st_insert_solved_mono(c0, evar, alpha2, ca);
                            match st_insert_before(ca, evar, alpha1) {
                                Some(cb) => {
                                    lemma_st_insert_solved_mono(ca, evar, alpha1, cb);
                                    match st_solve(cb, evar, arrow) {
                                        Some(cc) => {
                                            assert(spec_is_mono(Ty::ExstVar(alpha1)));
                                                        assert(spec_is_mono(Ty::ExstVar(alpha2)));
                                                        assert(spec_is_mono(arrow));
                                            lemma_st_solve_solved_mono(cb, evar, arrow, cc);
                                            lemma_check_predicative(
                                                cc,
                                                e,
                                                Ty::ExstVar(alpha1),
                                                (fuel - 1) as nat,
                                                c2,
                                            );
                                        },
                                        None => {},
                                    }
                                },
                                None => {},
                            }
                        },
                        None => {},
                    }
                }
            },
            Ty::Arrow(inp, out) => {
                lemma_check_predicative(c, e, *inp, (fuel - 1) as nat, c2);
            },
            _ => {},
        }
    }
}

/// Predicativity of inference: a successful inference starting from a
/// context whose solutions are all monotypes never records a solution
/// containing a `Forall`. In particular a top-level inference from the
/// empty context only ever solves existentials to monotypes.
pub proof fn lemma_infer_predicative(c: CtxState, e: Term, fuel: nat, t2: Ty, c2: CtxState)
    requires
        all_solved_mono(c.entries),
        spec_infer(c, e, fuel) == Some((t2, c2)),
    ensures
        all_solved_mono(c2.entries),
    decreases fuel,
{
    if fuel == 0 {
    } else {
        match e {
            Term::Var(_) => {},
            Term::Unit => {},
            Term::Bool(_) => {},
            Term::Ann(term, ty) => {
                if spec_wf(ty, c.entries, 0) {
                    match spec_check(c, *term, ty, (fuel - 1) as nat) {
                        Some(ca) => {
                            lemma_check_predicative(c, *term, ty, (fuel - 1) as nat, ca);
                        },
                        None => {},
                    }
                }
            },
            Term::Lambda(body) => {
                if c.next + 2 > usize::MAX {
                } else {
                    let alpha = c.next as usize;
                    let beta = (c.next + 1) as usize;
                    let c0 = CtxState { entries: c.entries, next: c.next + 2 };
                    let ca = st_push(c0, TyCtxtEntry::UnsolvedExst(alpha));
                    let cb = st_push(ca, TyCtxtEntry::UnsolvedExst(beta));
                    let cc = st_push(cb, TyCtxtEntry::TermVar(Ty::ExstVar(alpha)));
                    lemma_push_solved_mono(c0.entries, TyCtxtEntry::UnsolvedExst(alpha));
                    lemma_push_solved_mono(ca.entries, TyCtxtEntry::UnsolvedExst(beta));
                    lemma_push_solved_mono(cb.entries, TyCtxtEntry::TermVar(Ty::ExstVar(alpha)));
                    match spec_check(cc, *body, Ty::ExstVar(beta), (fuel - 1) as nat) {
                        Some(cd) => {
                            lemma_check_predicative(
                                cc,
                                *body,
                                Ty::ExstVar(beta),
                                (fuel - 1) as nat,
                                cd,
                            );
                            match st_drop_term_var(cd, 0) {
                                Some(ce) => {
                                    lemma_st_drop_term_var_solved_mono(cd, 0, ce);
                                },
                                None => {},
                            }
                        },
                        None => {},
                    }
                }
            },
            Term::Appl(func, arg) => {
                match spec_infer(c, *func, (fuel - 1) as nat) {
                    Some((fty, ca)) => {
                        lemma_infer_predicative(c, *func, (fuel - 1) as nat, fty, ca);
                        let ftys = spec_subst_in_state(fty, ca);
                        match crate::typeck::spec_infer_appl(ca, ftys, *arg, (fuel - 1) as nat) {
                            Some((rt, cb)) => {
                                lemma_infer_appl_predicative(
                                    ca,
                                    ftys,
                                    *arg,
                                    (fuel - 1) as nat,
                                    rt,
                                    cb,
                                );
                            },
                            None => {},
                        }
                    },
                    None => {},
                }
            },
            Term::TypeAppl(term, ty) => {
                match spec_infer(c, *term, (fuel - 1) as nat) {
                    Some((fty, ca)) => {
                        lemma_infer_predicative(c, *term, (fuel - 1) as nat, fty, ca);
                    },
                    None => {},
                }
            },
        }
    }
}

/// Position of the last `SolvedExst(id, _)` entry of `s`, or `-1`.
pub open spec fn solved_pos(s: Seq<TyCtxtEntry>, id: usize) -> int
    decreases s.len(),
{
    if s.len() == 0 {
        -1
    } else {
        match s.last() {
            TyCtxtEntry::SolvedExst(i, _) => if i == id {
                s.len() - 1
            } else {
                solved_pos(s.drop_last(), id)
            },
            _ => solved_pos(s.drop_last(), id),
        }
    }
}

/// Position of the last solved entry whose identity occurs in `t`, or
/// `-1`: the measure that one substitution pass strictly decreases in a
/// well-scoped context.
pub open spec fn subst_meas(t: Ty, s: Seq<TyCtxtEntry>) -> int
    decreases s.len(),
{
    if s.len() == 0 {
        -1
    } else {
        match s.last() {
            TyCtxtEntry::SolvedExst(i, _) => if spec_contains_evar(t, i) {
                s.len() - 1
            } else {
                subst_meas(t, s.drop_last())
            },
            _ => subst_meas(t, s.drop_last()),
        }
    }
}

/// Whether the entry of `s` at `j` is a solution that mentions the
/// existential `id2`.
pub open spec fn solved_entry_refs(s: Seq<TyCtxtEntry>, j: int, id2: usize) -> bool {
    match s[j] {
        TyCtxtEntry::SolvedExst(_, ty) => spec_contains_evar(ty, id2),
        _ => false,
    }
}

/// Scope well-formedness of the solutions of a context: every existential
/// that a solution mentions and that is itself solved was solved strictly
/// further left.
pub open spec fn solved_scope_ok(s: Seq<TyCtxtEntry>) -> bool {
    forall|j: int, id2: usize|
        0 <= j < s.len() && #[trigger] solved_entry_refs(s, j, id2) && solved_map(
            s,
        ).contains_key(id2) ==> solved_pos(s, id2) < j
}

proof fn lemma_solved_pos_char(s: Seq<TyCtxtEntry>, id: usize)
    ensures
        solved_map(s).contains_key(id) <==> solved_pos(s, id) >= 0,
        solved_map(s).contains_key(id) ==> 0 <= solved_pos(s, id) < s.len()
            && s[solved_pos(s, id)] == TyCtxtEntry::SolvedExst(id, solved_map(s)[id]),
    decreases s.len(),
{
    if s.len() == 0 {
    } else {
        lemma_solved_pos_char(s.drop_last(), id);
        match s.last() {
            TyCtxtEntry::SolvedExst(i, ty) => {
                if i == id {
                } else {
                }
            },
            _ => {},
        }
    }
}

proof fn lemma_contains_evars_witness(t: Ty, m: Map<usize, Ty>)
    requires
        spec_contains_evars(t, m),
    ensures
        exists|id: usize| #[trigger] spec_contains_evar(t, id) && m.contains_key(id),
    decreases t,
{
    match t {
        Ty::ExstVar(e) => {
            assert(spec_contains_evar(t, e) && m.contains_key(e));
        },
        Ty::Arrow(inp, out) => {
            if spec_contains_evars(*inp, m) {
                lemma_contains_evars_witness(*inp, m);
                let id = choose|id: usize|
                    #[trigger] spec_contains_evar(*inp, id) && m.contains_key(id);
                assert(spec_contains_evar(t, id) && m.contains_key(id));
            } else {
                lemma_contains_evars_witness(*out, m);
                let id = choose|id: usize|
                    #[trigger] spec_contains_evar(*out, id) && m.contains_key(id);
                assert(spec_contains_evar(t, id) && m.contains_key(id));
            }
        },
        Ty::Forall(body) => {
            lemma_contains_evars_witness(*body, m);
            let id = choose|id: usize|
                #[trigger] spec_contains_evar(*body, id) && m.contains_key(id);
            assert(spec_contains_evar(t, id) && m.contains_key(id));
        },
        _ => {},
    }
}

proof fn lemma_contains_evars_of_evar(t: Ty, m: Map<usize, Ty>, id: usize)
    requires
        spec_contains_evar(t, id),
        m.contains_key(id),
    ensures
        spec_contains_evars(t, m),
    decreases t,
{
    match t {
        Ty::Arrow(inp, out) => {
            if spec_contains_evar(*inp, id) {
                lemma_contains_evars_of_evar(*inp, m, id);
            } else {
                lemma_contains_evars_of_evar(*out, m, id);
            }
        },
        Ty::Forall(body) => {
            lemma_contains_evars_of_evar(*body, m, id);
        },
        _ => {},
    }
}

proof fn lemma_meas_nonneg_iff(t: Ty, s: Seq<TyCtxtEntry>)
    ensures
        subst_meas(t, s) >= 0 <==> spec_contains_evars(t, solved_map(s)),
        subst_meas(t, s) < s.len(),
    decreases s.len(),
{
    if s.len() == 0 {
        if spec_contains_evars(t, solved_map(s)) {
            lemma_contains_evars_witness(t, solved_map(s));
        }
    } else {
        lemma_meas_nonneg_iff(t, s.drop_last());
        match s.last() {
            TyCtxtEntry::SolvedExst(i, ty) => {
                assert(solved_map(s) == solved_map(s.drop_last()).insert(i, ty));
                if spec_contains_evar(t, i) {
                    lemma_contains_evars_of_evar(t, solved_map(s), i);
                } else {
                    if spec_contains_evars(t, solved_map(s.drop_last())) {
                        lemma_contains_evars_witness(t, solved_map(s.drop_last()));
                        let id = choose|id: usize|
                            #[trigger] spec_contains_evar(t, id) && solved_map(
                                s.drop_last(),
                            ).contains_key(id);
                        lemma_contains_evars_of_evar(t, solved_map(s), id);
                    }
                    if spec_contains_evars(t, solved_map(s)) {
                        lemma_contains_evars_witness(t, solved_map(s));
                        let id = choose|id: usize|
                            #[trigger] spec_contains_evar(t, id) && solved_map(s).contains_key(
                                id,
                            );
                        assert(solved_map(s.drop_last()).contains_key(id));
                        lemma_contains_evars_of_evar(t, solved_map(s.drop_last()), id);
                    }
                }
            },
            _ => {
                assert(solved_map(s) == solved_map(s.drop_last()));
            },
        }
    }
}

proof fn lemma_meas_is_max(t: Ty, s: Seq<TyCtxtEntry>, id: usize)
    requires
        spec_contains_evar(t, id),
        solved_pos(s, id) >= 0,
    ensures
        subst_meas(t, s) >= solved_pos(s, id),
    decreases s.len(),
{
    if s.len() == 0 {
    } else {
        match s.last() {
            TyCtxtEntry::SolvedExst(i, _) => {
                if i == id {
                } else if spec_contains_evar(t, i) {
                    lemma_solved_pos_bound(s, id);
                } else {
                    lemma_meas_is_max(t, s.drop_last(), id);
                }
            },
            _ => {
                lemma_meas_is_max(t, s.drop_last(), id);
            },
        }
    }
}

proof fn lemma_solved_pos_bound(s: Seq<TyCtxtEntry>, id: usize)
    ensures
        solved_pos(s, id) < s.len(),
    decreases s.len(),
{
    if s.len() == 0 {
    } else {
        lemma_solved_pos_bound(s.drop_last(), id);
    }
}

proof fn lemma_meas_entry(t: Ty, s: Seq<TyCtxtEntry>)
    requires
        subst_meas(t, s) >= 0,
    ensures
        (match s[subst_meas(t, s)] {
            TyCtxtEntry::SolvedExst(id, _) => spec_contains_evar(t, id) && solved_pos(s, id)
                >= subst_meas(t, s),
            _ => false,
        }),
    decreases s.len(),
{
    if s.len() == 0 {
    } else {
        let rest = s.drop_last();
        match s.last() {
            TyCtxtEntry::SolvedExst(i, _) => {
                if spec_contains_evar(t, i) {
                    assert(s[subst_meas(t, s)] == s.last());
                } else {
                    lemma_meas_nonneg_iff(t, rest);
                    lemma_meas_entry(t, rest);
                    assert(s[subst_meas(t, s)] == rest[subst_meas(t, rest)]);
                    lemma_solved_pos_monotone(s, choose_meas_id(t, rest));
                    assert(choose_meas_id(t, s) == choose_meas_id(t, rest));
                }
            },
            _ => {
                lemma_meas_nonneg_iff(t, rest);
                lemma_meas_entry(t, rest);
                assert(s[subst_meas(t, s)] == rest[subst_meas(t, rest)]);
                lemma_solved_pos_monotone(s, choose_meas_id(t, rest));
                assert(choose_meas_id(t, s) == choose_meas_id(t, rest));
            },
        }
    }
}

spec fn choose_meas_id(t: Ty, s: Seq<TyCtxtEntry>) -> usize {
    match s[subst_meas(t, s)] {
        TyCtxtEntry::SolvedExst(id, _) => id,
        _ => 0,
    }
}

proof fn lemma_solved_pos_monotone(s: Seq<TyCtxtEntry>, id: usize)
    requires
        s.len() > 0,
    ensures
        solved_pos(s, id) >= solved_pos(s.drop_last(), id),
    decreases s.len(),
{
    lemma_solved_pos_bound(s.drop_last(), id);
}

proof fn lemma_subst_once_evar_origin(t: Ty, m: Map<usize, Ty>, id2: usize)
    requires
        spec_contains_evar(spec_subst_once(t, m), id2),
    ensures
        (spec_contains_evar(t, id2) && !m.contains_key(id2)) || exists|id: usize|
            #[trigger] spec_contains_evar(t, id) && m.contains_key(id) && spec_contains_evar(
                m[id],
                id2,
            ),
    decreases t,
{
    match t {
        Ty::ExstVar(e) => {
            if m.contains_key(e) {
                assert(spec_contains_evar(t, e) && m.contains_key(e) && spec_contains_evar(
                    m[e],
                    id2,
                ));
            }
        },
        Ty::Arrow(inp, out) => {
            if spec_contains_evar(spec_subst_once(*inp, m), id2) {
                lemma_subst_once_evar_origin(*inp, m, id2);
                if !(spec_contains_evar(*inp, id2) && !m.contains_key(id2)) {
                    let id = choose|id: usize|
                        #[trigger] spec_contains_evar(*inp, id) && m.contains_key(id)
                            && spec_contains_evar(m[id], id2);
                    assert(spec_contains_evar(t, id) && m.contains_key(id) && spec_contains_evar(
                        m[id],
                        id2,
                    ));
                }
            } else {
                lemma_subst_once_evar_origin(*out, m, id2);
                if !(spec_contains_evar(*out, id2) && !m.contains_key(id2)) {
                    let id = choose|id: usize|
                        #[trigger] spec_contains_evar(*out, id) && m.contains_key(id)
                            && spec_contains_evar(m[id], id2);
                    assert(spec_contains_evar(t, id) && m.contains_key(id) && spec_contains_evar(
                        m[id],
                        id2,
                    ));
                }
            }
        },
        Ty::Forall(body) => {
            lemma_subst_once_evar_origin(*body, m, id2);
            if !(spec_contains_evar(*body, id2) && !m.contains_key(id2)) {
                let id = choose|id: usize|
                    #[trigger] spec_contains_evar(*body, id) && m.contains_key(id)
                        && spec_contains_evar(m[id], id2);
                assert(spec_contains_evar(t, id) && m.contains_key(id) && spec_contains_evar(
                    m[id],
                    id2,
                ));
            }
        },
        _ => {},
    }
}

proof fn lemma_one_pass_decreases(t: Ty, s: Seq<TyCtxtEntry>)
    requires
        solved_scope_ok(s),
        spec_contains_evars(t, solved_map(s)),
    ensures
        subst_meas(spec_subst_once(t, solved_map(s)), s) < subst_meas(t, s),
{
    let m = solved_map(s);
    let r = spec_subst_once(t, m);
    lemma_meas_nonneg_iff(t, s);
    lemma_meas_nonneg_iff(r, s);
    if subst_meas(r, s) >= 0 {
        lemma_meas_entry(r, s);
        let id2 = choose_meas_id(r, s);
        lemma_solved_pos_char(s, id2);
        assert(m.contains_key(id2));
        lemma_subst_once_evar_origin(t, m, id2);
        let id = choose|id: usize|
            #[trigger] spec_contains_evar(t, id) && m.contains_key(id) && spec_contains_evar(
                m[id],
                id2,
            );
        lemma_solved_pos_char(s, id);
        let j = solved_pos(s, id);
        assert(s[j] == TyCtxtEntry::SolvedExst(id, m[id]));
        assert(solved_entry_refs(s, j, id2));
        assert(solved_pos(s, id2) < j);
        lemma_meas_is_max(t, s, id);
    }
}

proof fn lemma_subst_ctx_rounds(t: Ty, s: Seq<TyCtxtEntry>, k: nat)
    requires
        solved_scope_ok(s),
        k > subst_meas(t, s),
    ensures
        !spec_contains_evars(spec_subst_ctx(t, solved_map(s), k), solved_map(s)),
    decreases k,
{
    let m = solved_map(s);
    if k == 0 || !spec_contains_evars(t, m) {
        lemma_meas_nonneg_iff(t, s);
    } else {
        lemma_one_pass_decreases(t, s);
        lemma_subst_ctx_rounds(spec_subst_once(t, m), s, (k - 1) as nat);
    }
}

/// In a context whose solutions refer only to existentials solved further
/// left, as many substitution rounds as the context has entries reach a
/// fixed point: no solved existential remains in the result.
pub proof fn lemma_subst_ctx_converges(t: Ty, s: Seq<TyCtxtEntry>)
    requires
        solved_scope_ok(s),
    ensures
        !spec_contains_evars(
            spec_subst_ctx(t, solved_map(s), s.len()),
            solved_map(s),
        ),
{
    lemma_meas_nonneg_iff(t, s);
    lemma_subst_ctx_rounds(t, s, s.len());
}

/// Unconditional idempotence of context substitution on well-scoped
/// contexts: applying the full substitution twice equals applying it
/// once.
pub proof fn lemma_subst_in_state_idempotent(t: Ty, c: CtxState)
    requires
        solved_scope_ok(c.entries),
    ensures
        spec_subst_in_state(spec_subst_in_state(t, c), c) == spec_subst_in_state(t, c),
{
    lemma_subst_ctx_converges(t, c.entries);
    lemma_subst_ctx_fixed(
        spec_subst_in_state(t, c),
        solved_map(c.entries),
        c.entries.len(),
    );
}

/// The existential identity that an entry introduces as unsolved or
/// solved; a marker introduces none.
pub open spec fn entry_owner(e: TyCtxtEntry) -> Option<usize> {
    match e {
        TyCtxtEntry::UnsolvedExst(i) => Some(i),
        TyCtxtEntry::SolvedExst(i, _) => Some(i),
        _ => None,
    }
}

/// Every identity of the context, marker identities included, is below
/// the counter: what `fresh_evar` mints next is genuinely new.
pub open spec fn ids_below_counter(c: CtxState) -> bool {
    forall|j: int|
        0 <= j < c.entries.len() ==> (match entry_evar_id(#[trigger] c.entries[j]) {
            Some(id) => id < c.next,
            None => true,
        })
}

/// The identity an entry carries in any form.
pub open spec fn entry_evar_id(e: TyCtxtEntry) -> Option<usize> {
    match e {
        TyCtxtEntry::UnsolvedExst(i) => Some(i),
        TyCtxtEntry::ExstMarker(i) => Some(i),
        TyCtxtEntry::SolvedExst(i, _) => Some(i),
        _ => None,
    }
}

/// Uniqueness: each existential identity appears at most once as an
/// unsolved or solved entry.
pub open spec fn unique_owners(s: Seq<TyCtxtEntry>) -> bool {
    forall|j1: int, j2: int|
        0 <= j1 < j2 < s.len() ==> !(#[trigger] entry_owner(s[j1]) is Some && entry_owner(s[j1])
            == #[trigger] entry_owner(s[j2]))
}

/// The combined identity invariant of a context.
pub open spec fn ctx_ids_ok(c: CtxState) -> bool {
    ids_below_counter(c) && unique_owners(c.entries)
}

proof fn lemma_push_ids_ok(c: CtxState, e: TyCtxtEntry)
    requires
        ctx_ids_ok(c),
        (match entry_evar_id(e) {
            Some(id) => id < c.next,
            None => true,
        }),
        (match entry_owner(e) {
            Some(i) => !has_owner(c.entries, i),
            None => true,
        }),
    ensures
        ctx_ids_ok(CtxState { entries: c.entries.push(e), next: c.next }),
        (forall|id3: usize| #[trigger] has_owner(c.entries.push(e), id3) ==> has_owner(
            c.entries,
            id3,
        ) || entry_owner(e) == Some(id3)),
{
    let s2 = c.entries.push(e);
    assert forall|id3: usize| #[trigger] has_owner(s2, id3) implies has_owner(c.entries, id3)
        || entry_owner(e) == Some(id3) by {
        let j = choose|j: int| 0 <= j < s2.len() && #[trigger] owner_at(s2, j, id3);
        if j < c.entries.len() {
            assert(s2[j] == c.entries[j]);
            assert(owner_at(c.entries, j, id3));
        } else {
            assert(s2[j] == e);
        }
    }
    assert forall|j: int| 0 <= j < s2.len() implies (match entry_evar_id(#[trigger] s2[j]) {
        Some(id) => id < c.next,
        None => true,
    }) by {
        if j < c.entries.len() {
            assert(s2[j] == c.entries[j]);
        } else {
            assert(s2[j] == e);
        }
    }
    assert forall|j1: int, j2: int| 0 <= j1 < j2 < s2.len() implies !(#[trigger] entry_owner(
        s2[j1],
    ) is Some && entry_owner(s2[j1]) == #[trigger] entry_owner(s2[j2])) by {
        if j2 < c.entries.len() {
            assert(s2[j1] == c.entries[j1] && s2[j2] == c.entries[j2]);
        } else {
            assert(s2[j1] == c.entries[j1] && s2[j2] == e);
            match entry_owner(e) {
                Some(i) => {
                    if entry_owner(s2[j1]) == entry_owner(e) {
                        assert(owner_at(c.entries, j1, i));
                    }
                },
                None => {},
            }
        }
    }
}

/// Whether some entry of `s` owns the identity `id`.
pub open spec fn has_owner(s: Seq<TyCtxtEntry>, id: usize) -> bool {
    exists|j: int| 0 <= j < s.len() && #[trigger] owner_at(s, j, id)
}

/// Whether the entry of `s` at `j` owns the identity `id`.
pub open spec fn owner_at(s: Seq<TyCtxtEntry>, j: int, id: usize) -> bool {
    entry_owner(s[j]) == Some(id)
}

proof fn lemma_bounded_has_no_fresh_owner(c: CtxState, id: usize)
    requires
        ids_below_counter(c),
        id >= c.next,
    ensures
        !has_owner(c.entries, id),
{
    assert forall|j: int| 0 <= j < c.entries.len() implies !owner_at(c.entries, j, id) by {
        assert((match entry_evar_id(c.entries[j]) {
            Some(i) => i < c.next,
            None => true,
        }));
    }
}

proof fn lemma_subrange_ids_ok(c: CtxState, b: int, n2: nat)
    requires
        ctx_ids_ok(c),
        0 <= b <= c.entries.len(),
        n2 >= c.next,
    ensures
        ctx_ids_ok(CtxState { entries: c.entries.subrange(0, b), next: n2 }),
{
    let s2 = c.entries.subrange(0, b);
    assert forall|j: int| 0 <= j < s2.len() implies (match entry_evar_id(#[trigger] s2[j]) {
        Some(id) => id < n2,
        None => true,
    }) by {
        assert(s2[j] == c.entries[j]);
    }
    assert forall|j1: int, j2: int| 0 <= j1 < j2 < s2.len() implies !(#[trigger] entry_owner(
        s2[j1],
    ) is Some && entry_owner(s2[j1]) == #[trigger] entry_owner(s2[j2])) by {
        assert(s2[j1] == c.entries[j1] && s2[j2] == c.entries[j2]);
    }
}

proof fn lemma_raise_counter_ids_ok(c: CtxState, n2: nat)
    requires
        ctx_ids_ok(c),
        n2 >= c.next,
    ensures
        ctx_ids_ok(CtxState { entries: c.entries, next: n2 }),
{
    let c2 = CtxState { entries: c.entries, next: n2 };
    assert forall|j: int| 0 <= j < c2.entries.len() implies (match entry_evar_id(
        #[trigger] c2.entries[j],
    ) {
        Some(id) => id < n2,
        None => true,
    }) by {
        assert((match entry_evar_id(c.entries[j]) {
            Some(id) => id < c.next,
            None => true,
        }));
    }
}

proof fn lemma_solve_ids_ok(c: CtxState, id: usize, ty: Ty, c2: CtxState)
    requires
        ctx_ids_ok(c),
        st_solve(c, id, ty) == Some(c2),
    ensures
        ctx_ids_ok(c2),
        c2.next == c.next,
{
    crate::ctx::lemma_find_unsolved_bounds(c.entries, id, 0);
    let p = (match find_unsolved_from(c.entries, id, 0) {
        Some(q) => q,
        None => 0,
    });
    let s2 = c.entries.update(p, TyCtxtEntry::SolvedExst(id, ty));
    assert(entry_owner(c.entries[p]) == Some(id));
    assert forall|j: int| 0 <= j < s2.len() implies (match entry_evar_id(#[trigger] s2[j]) {
        Some(i) => i < c.next,
        None => true,
    }) by {
        if j != p {
            assert(s2[j] == c.entries[j]);
        } else {
            assert((match entry_evar_id(c.entries[p]) {
                Some(i) => i < c.next,
                None => true,
            }));
        }
    }
    assert forall|j1: int, j2: int| 0 <= j1 < j2 < s2.len() implies !(#[trigger] entry_owner(
        s2[j1],
    ) is Some && entry_owner(s2[j1]) == #[trigger] entry_owner(s2[j2])) by {
        assert(entry_owner(s2[j1]) == entry_owner(c.entries[j1]));
        assert(entry_owner(s2[j2]) == entry_owner(c.entries[j2]));
    }
}

proof fn lemma_insert_ids_ok(
    c: CtxState,
    id: usize,
    fresh_id: usize,
    c2: CtxState,
)
    requires
        ctx_ids_ok(c),
        (fresh_id < c.next),
        (!has_owner(c.entries, fresh_id)),
        (st_insert_before(c, id, fresh_id) == Some(c2)),
    ensures
        ctx_ids_ok(c2),
        c2.next == c.next,
        (forall|id3: usize| #[trigger] has_owner(c2.entries, id3) ==> has_owner(c.entries, id3)
            || id3 == fresh_id),
{
    crate::ctx::lemma_find_unsolved_bounds(c.entries, id, 0);
    let p = (match find_unsolved_from(c.entries, id, 0) {
        Some(q) => q,
        None => 0,
    });
    let e = TyCtxtEntry::UnsolvedExst(fresh_id);
    c.entries.insert_ensures(p, e);
    let s2 = c.entries.insert(p, e);
    assert forall|id3: usize| #[trigger] has_owner(s2, id3) implies has_owner(c.entries, id3)
        || id3 == fresh_id by {
        let j = choose|j: int| 0 <= j < s2.len() && #[trigger] owner_at(s2, j, id3);
        if j < p {
            assert(s2[j] == c.entries[j]);
            assert(owner_at(c.entries, j, id3));
        } else if j == p {
            assert(s2[j] == e);
        } else {
            assert(s2[j] == c.entries[j - 1]);
            assert(owner_at(c.entries, j - 1, id3));
        }
    }
    assert forall|j: int| 0 <= j < s2.len() implies (match entry_evar_id(#[trigger] s2[j]) {
        Some(i) => i < c.next,
        None => true,
    }) by {
        if j < p {
            assert(s2[j] == c.entries[j]);
        } else if j == p {
            assert(s2[j] == e);
        } else {
            assert(s2[j] == c.entries[j - 1]);
        }
    }
    assert forall|j1: int, j2: int| 0 <= j1 < j2 < s2.len() implies !(#[trigger] entry_owner(
        s2[j1],
    ) is Some && entry_owner(s2[j1]) == #[trigger] entry_owner(s2[j2])) by {
        let o1 = if j1 < p {
            j1
        } else if j1 == p {
            -1int
        } else {
            j1 - 1
        };
        let o2 = if j2 < p {
            j2
        } else if j2 == p {
            -1int
        } else {
            j2 - 1
        };
        if j1 == p {
            assert(s2[j1] == e);
            if entry_owner(s2[j2]) == Some(fresh_id) {
                assert(owner_at(c.entries, o2, fresh_id));
            }
        } else if j2 == p {
            assert(s2[j2] == e);
            if entry_owner(s2[j1]) == Some(fresh_id) {
                assert(owner_at(c.entries, o1, fresh_id));
            }
        } else {
            assert(s2[j1] == c.entries[o1] && s2[j2] == c.entries[o2]);
        }
    }
}

proof fn lemma_st_drop_marker_ids_ok(c: CtxState, id: usize, c2: CtxState)
    requires
        ctx_ids_ok(c),
        (st_drop_marker(c, id) == Some(c2)),
    ensures
        ctx_ids_ok(c2),
        c2.next == c.next,
{
    crate::ctx::lemma_find_marker_bounds(c.entries, id, 0);
    match find_marker_from(c.entries, id, 0) {
        Some(p) => {
            lemma_subrange_ids_ok(c, p, c.next);
        },
        None => {},
    }
}

proof fn lemma_st_drop_uvar_ids_ok(c: CtxState, k: nat, c2: CtxState)
    requires
        ctx_ids_ok(c),
        (st_drop_uvar(c, k) == Some(c2)),
    ensures
        ctx_ids_ok(c2),
        c2.next == c.next,
{
    crate::ctx::lemma_uvar_pos_bounds(c.entries, k);
    match uvar_pos(c.entries, k) {
        Some(p) => {
            lemma_subrange_ids_ok(c, p, c.next);
        },
        None => {},
    }
}

proof fn lemma_st_drop_term_var_ids_ok(c: CtxState, k: nat, c2: CtxState)
    requires
        ctx_ids_ok(c),
        (st_drop_term_var(c, k) == Some(c2)),
    ensures
        ctx_ids_ok(c2),
        c2.next == c.next,
{
    crate::ctx::lemma_term_var_pos_bounds(c.entries, k);
    match term_var_pos(c.entries, k) {
        Some(p) => {
            lemma_subrange_ids_ok(c, p, c.next);
        },
        None => {},
    }
}

/// Identity discipline of instantiation from the left: fresh identities
/// are unique, so a successful `inst_left` preserves the uniqueness of
/// unsolved-or-solved entries and keeps every identity below the counter.
pub proof fn lemma_inst_left_ids_ok(c: CtxState, evar: usize, t: Ty, fuel: nat, c2: CtxState)
    requires
        ctx_ids_ok(c),
        (spec_inst_left(c, evar, t, fuel) == Some(c2)),
    ensures
        ctx_ids_ok(c2),
    decreases fuel,
{
    if fuel == 0 || !seq_has_unsolved(c.entries, evar) {
    } else {
        match st_prefix_before(c, evar) {
            Some(pre) => {
                if spec_mono_wf(t, pre) {
                    lemma_solve_ids_ok(c, evar, t, c2);
                } else {
                    match t {
                        Ty::ExstVar(beta) => {
                            if beta != evar && seq_has_unsolved(c.entries, beta) {
                                lemma_solve_ids_ok(c, beta, Ty::ExstVar(evar), c2);
                            }
                        },
                        Ty::Arrow(a1, a2) => {
                            if c.next + 2 > usize::MAX {
                            } else {
                                let alpha2 = c.next as usize;
                                let alpha1 = (c.next + 1) as usize;
                                let arrow = Ty::Arrow(
                                    Box::new(Ty::ExstVar(alpha1)),
                                    Box::new(Ty::ExstVar(alpha2)),
                                );
                                let c0 = CtxState { entries: c.entries, next: c.next + 2 };
                                lemma_raise_counter_ids_ok(c, c.next + 2);
                                lemma_bounded_has_no_fresh_owner(c, alpha2);
                                lemma_bounded_has_no_fresh_owner(c, alpha1);
                                match st_insert_before(c0, evar, alpha2) {
                                    Some(ca) => {
                                        lemma_insert_ids_ok(c0, evar, alpha2, ca);
                                        match st_insert_before(ca, evar, alpha1) {
                                            Some(cb) => {
                                                lemma_insert_ids_ok(ca, evar, alpha1, cb);
                                                match st_solve(cb, evar, arrow) {
                                                    Some(cc) => {
                                                        lemma_solve_ids_ok(cb, evar, arrow, cc);
                                                        match spec_inst_right(
                                                            cc,
                                                            *a1,
                                                            alpha1,
                                                            (fuel - 1) as nat,
                                                        ) {
                                                            Some(cd) => {
                                                                lemma_inst_right_ids_ok(
                                                                    cc,
                                                                    *a1,
                                                                    alpha1,
                                                                    (fuel - 1) as nat,
                                                                    cd,
                                                                );
                                                                let a2s = spec_subst_in_state(
                                                                    *a2,
                                                                    cd,
                                                                );
                                                                lemma_inst_left_ids_ok(
                                                                    cd,
                                                                    alpha2,
                                                                    a2s,
                                                                    (fuel - 1) as nat,
                                                                    c2,
                                                                );
                                                            },
                                                            None => {},
                                                        }
                                                    },
                                                    None => {},
                                                }
                                            },
                                            None => {},
                                        }
                                    },
                                    None => {},
                                }
                            }
                        },
                        Ty::Forall(body) => {
                            let ca = st_push(c, TyCtxtEntry::Uvar);
                            lemma_push_ids_ok(c, TyCtxtEntry::Uvar);
                            match spec_inst_left(ca, evar, *body, (fuel - 1) as nat) {
                                Some(cb) => {
                                    lemma_inst_left_ids_ok(ca, evar, *body, (fuel - 1) as nat, cb);
                                    lemma_st_drop_uvar_ids_ok(cb, 0, c2);
                                },
                                None => {},
                            }
                        },
                        _ => {},
                    }
                }
            },
            None => {},
        }
    }
}

/// Identity discipline of instantiation from the right.
pub proof fn lemma_inst_right_ids_ok(c: CtxState, t: Ty, evar: usize, fuel: nat, c2: CtxState)
    requires
        ctx_ids_ok(c),
        (spec_inst_right(c, t, evar, fuel) == Some(c2)),
    ensures
        ctx_ids_ok(c2),
    decreases fuel,
{
    if fuel == 0 || !seq_has_unsolved(c.entries, evar) {
    } else {
        match st_prefix_before(c, evar) {
            Some(pre) => {
                if spec_mono_wf(t, pre) {
                    lemma_solve_ids_ok(c, evar, t, c2);
                } else {
                    match t {
                        Ty::ExstVar(beta) => {
                            if beta != evar && seq_has_unsolved(c.entries, beta) {
                                lemma_solve_ids_ok(c, beta, Ty::ExstVar(evar), c2);
                            }
                        },
                        Ty::Arrow(a1, a2) => {
                            if c.next + 2 > usize::MAX {
                            } else {
                                let alpha2 = c.next as usize;
                                let alpha1 = (c.next + 1) as usize;
                                let arrow = Ty::Arrow(
                                    Box::new(Ty::ExstVar(alpha1)),
                                    Box::new(Ty::ExstVar(alpha2)),
                                );
                                let c0 = CtxState { entries: c.entries, next: c.next + 2 };
                                lemma_raise_counter_ids_ok(c, c.next + 2);
                                lemma_bounded_has_no_fresh_owner(c, alpha2);
                                lemma_bounded_has_no_fresh_owner(c, alpha1);
                                match st_insert_before(c0, evar, alpha2) {
                                    Some(ca) => {
                                        lemma_insert_ids_ok(c0, evar, alpha2, ca);
                                        match st_insert_before(ca, evar, alpha1) {
                                            Some(cb) => {
                                                lemma_insert_ids_ok(ca, evar, alpha1, cb);
                                                match st_solve(cb, evar, arrow) {
                                                    Some(cc) => {
                                                        lemma_solve_ids_ok(cb, evar, arrow, cc);
                                                        match spec_inst_left(
                                                            cc,
                                                            alpha1,
                                                            *a1,
                                                            (fuel - 1) as nat,
                                                        ) {
                                                            Some(cd) => {
                                                                lemma_inst_left_ids_ok(
                                                                    cc,
                                                                    alpha1,
                                                                    *a1,
                                                                    (fuel - 1) as nat,
                                                                    cd,
                                                                );
                                                                let a2s = spec_subst_in_state(
                                                                    *a2,
                                                                    cd,
                                                                );
                                                                lemma_inst_right_ids_ok(
                                                                    cd,
                                                                    a2s,
                                                                    alpha2,
                                                                    (fuel - 1) as nat,
                                                                    c2,
                                                                );
                                                            },
                                                            None => {},
                                                        }
                                                    },
                                                    None => {},
                                                }
                                            },
                                            None => {},
                                        }
                                    },
                                    None => {},
                                }
                            }
                        },
                        Ty::Forall(body) => {
                            if c.next + 1 > usize::MAX {
                            } else {
                                let beta = c.next as usize;
                                let c0 = CtxState { entries: c.entries, next: c.next + 1 };
                                lemma_raise_counter_ids_ok(c, c.next + 1);
                                lemma_bounded_has_no_fresh_owner(c, beta);
                                let ca = st_push(c0, TyCtxtEntry::ExstMarker(beta));
                                lemma_push_ids_ok(c0, TyCtxtEntry::ExstMarker(beta));
                                let cb = st_push(ca, TyCtxtEntry::UnsolvedExst(beta));
                                lemma_push_ids_ok(ca, TyCtxtEntry::UnsolvedExst(beta));
                                let bsub = spec_subst_outer(*body, Ty::ExstVar(beta), 0);
                                match spec_inst_right(cb, bsub, evar, (fuel - 1) as nat) {
                                    Some(cc) => {
                                        lemma_inst_right_ids_ok(
                                            cb,
                                            bsub,
                                            evar,
                                            (fuel - 1) as nat,
                                            cc,
                                        );
                                        lemma_st_drop_marker_ids_ok(cc, beta, c2);
                                    },
                                    None => {},
                                }
                            }
                        },
                        _ => {},
                    }
                }
            },
            None => {},
        }
    }
}

/// Identity discipline of subtyping.
pub proof fn lemma_subtype_ids_ok(c: CtxState, a: Ty, b: Ty, fuel: nat, c2: CtxState)
    requires
        ctx_ids_ok(c),
        (spec_subtype(c, a, b, fuel) == Some(c2)),
    ensures
        ctx_ids_ok(c2),
    decreases fuel,
{
    if fuel == 0 {
    } else {
        match (a, b) {
            (Ty::Var(idx1), Ty::Var(idx2)) => {},
            (Ty::Unit, Ty::Unit) => {},
            (Ty::Bool, Ty::Bool) => {},
            (Ty::ExstVar(idx1), Ty::ExstVar(idx2)) => {
                if idx1 == idx2 && crate::ctx::seq_has_evar(c.entries, idx1) {
                } else if spec_contains_evar(b, idx1) {
                } else {
                    lemma_inst_left_ids_ok(c, idx1, b, (fuel - 1) as nat, c2);
                }
            },
            (Ty::Arrow(a1, a2), Ty::Arrow(b1, b2)) => {
                match spec_subtype(c, *b1, *a1, (fuel - 1) as nat) {
                    Some(ca) => {
                        lemma_subtype_ids_ok(c, *b1, *a1, (fuel - 1) as nat, ca);
                        let a2s = spec_subst_in_state(*a2, ca);
                        let b2s = spec_subst_in_state(*b2, ca);
                        lemma_subtype_ids_ok(ca, a2s, b2s, (fuel - 1) as nat, c2);
                    },
                    None => {},
                }
            },
            (Ty::Forall(abody), _) => {
                if c.next + 1 > usize::MAX {
                } else {
                    let evar = c.next as usize;
                    let c0 = CtxState { entries: c.entries, next: c.next + 1 };
                    lemma_raise_counter_ids_ok(c, c.next + 1);
                    lemma_bounded_has_no_fresh_owner(c, evar);
                    let ca = st_push(c0, TyCtxtEntry::ExstMarker(evar));
                    lemma_push_ids_ok(c0, TyCtxtEntry::ExstMarker(evar));
                    let cb = st_push(ca, TyCtxtEntry::UnsolvedExst(evar));
                    lemma_push_ids_ok(ca, TyCtxtEntry::UnsolvedExst(evar));
                    let asub = spec_subst_outer(*abody, Ty::ExstVar(evar), 0);
                    match spec_subtype(cb, asub, b, (fuel - 1) as nat) {
                        Some(cc) => {
                            lemma_subtype_ids_ok(cb, asub, b, (fuel - 1) as nat, cc);
                            lemma_st_drop_marker_ids_ok(cc, evar, c2);
                        },
                        None => {},
                    }
                }
            },
            (_, Ty::Forall(bbody)) => {
                let ca = st_push(c, TyCtxtEntry::Uvar);
                lemma_push_ids_ok(c, TyCtxtEntry::Uvar);
                match spec_subtype(ca, a, *bbody, (fuel - 1) as nat) {
                    Some(cb) => {
                        lemma_subtype_ids_ok(ca, a, *bbody, (fuel - 1) as nat, cb);
                        match st_drop_uvar(cb, 0) {
                            Some(cc) => {
                                lemma_st_drop_uvar_ids_ok(cb, 0, cc);
                            },
                            None => {},
                        }
                    },
                    None => {},
                }
            },
            (Ty::ExstVar(evar), _) => {
                if spec_contains_evar(b, evar) {
                } else {
                    lemma_inst_left_ids_ok(c, evar, b, (fuel - 1) as nat, c2);
                }
            },
            (_, Ty::ExstVar(evar)) => {
                if spec_contains_evar(a, evar) {
                } else {
                    lemma_inst_right_ids_ok(c, a, evar, (fuel - 1) as nat, c2);
                }
            },
            _ => {},
        }
    }
}

/// Identity discipline of checking.
pub proof fn lemma_check_ids_ok(c: CtxState, e: Term, t: Ty, fuel: nat, c2: CtxState)
    requires
        ctx_ids_ok(c),
        (spec_check(c, e, t, fuel) == Some(c2)),
    ensures
        ctx_ids_ok(c2),
    decreases fuel,
{
    if fuel == 0 {
    } else {
        match (e, t) {
            (_, Ty::Unit) | (_, Ty::Bool) => {},
            (_, Ty::Forall(body)) => {
                let ca = st_push(c, TyCtxtEntry::Uvar);
                lemma_push_ids_ok(c, TyCtxtEntry::Uvar);
                match spec_check(ca, e, *body, (fuel - 1) as nat) {
                    Some(cb) => {
                        lemma_check_ids_ok(ca, e, *body, (fuel - 1) as nat, cb);
                        match st_drop_uvar(cb, 0) {
                            Some(cc) => {
                                lemma_st_drop_uvar_ids_ok(cb, 0, cc);
                            },
                            None => {},
                        }
                    },
                    None => {},
                }
            },
            (Term::Lambda(body), Ty::Arrow(inp, out)) => {
                let ca = st_push(c, TyCtxtEntry::TermVar(*inp));
                lemma_push_ids_ok(c, TyCtxtEntry::TermVar(*inp));
                match spec_check(ca, *body, *out, (fuel - 1) as nat) {
                    Some(cb) => {
                        lemma_check_ids_ok(ca, *body, *out, (fuel - 1) as nat, cb);
                        match st_drop_term_var(cb, 0) {
                            Some(cc) => {
                                lemma_st_drop_term_var_ids_ok(cb, 0, cc);
                            },
                            None => {},
                        }
                    },
                    None => {},
                }
            },
            _ => {
                match spec_infer(c, e, (fuel - 1) as nat) {
                    Some((ai, ca)) => {
                        lemma_infer_ids_ok(c, e, (fuel - 1) as nat, ai, ca);
                        let asub = spec_subst_in_state(ai, ca);
                        let bsub = spec_subst_in_state(t, ca);
                        lemma_subtype_ids_ok(ca, asub, bsub, (fuel - 1) as nat, c2);
                    },
                    None => {},
                }
            },
        }
    }
}

/// Identity discipline of application inference.
pub proof fn lemma_infer_appl_ids_ok(
    c: CtxState,
    fty: Ty,
    e: Term,
    fuel: nat,
    t2: Ty,
    c2: CtxState,
)
    requires
        ctx_ids_ok(c),
        (crate::typeck::spec_infer_appl(c, fty, e, fuel) == Some((t2, c2))),
    ensures
        ctx_ids_ok(c2),
    decreases fuel,
{
    if fuel == 0 {
    } else {
        match fty {
            Ty::Forall(body) => {
                if c.next + 1 > usize::MAX {
                } else {
                    let evar = c.next as usize;
                    let c0 = CtxState { entries: c.entries, next: c.next + 1 };
                    lemma_raise_counter_ids_ok(c, c.next + 1);
                    lemma_bounded_has_no_fresh_owner(c, evar);
                    let ca = st_push(c0, TyCtxtEntry::UnsolvedExst(evar));
                    lemma_push_ids_ok(c0, TyCtxtEntry::UnsolvedExst(evar));
                    let bsub = spec_subst_outer(*body, Ty::ExstVar(evar), 0);
                    lemma_infer_appl_ids_ok(ca, bsub, e, (fuel - 1) as nat, t2, c2);
                }
            },
            Ty::ExstVar(evar) => {
                if !seq_has_unsolved(c.entries, evar) {
                } else if c.next + 2 > usize::MAX {
                } else {
                    let alpha2 = c.next as usize;
                    let alpha1 = (c.next + 1) as usize;
                    let arrow = Ty::Arrow(
                        Box::new(Ty::ExstVar(alpha1)),
                        Box::new(Ty::ExstVar(alpha2)),
                    );
                    let c0 = CtxState { entries: c.entries, next: c.next + 2 };
                    lemma_raise_counter_ids_ok(c, c.next + 2);
                    lemma_bounded_has_no_fresh_owner(c, alpha2);
                    lemma_bounded_has_no_fresh_owner(c, alpha1);
                    match st_insert_before(c0, evar, alpha2) {
                        Some(ca) => {
                            lemma_insert_ids_ok(c0, evar, alpha2, ca);
                            match st_insert_before(ca, evar, alpha1) {
                                Some(cb) => {
                                    lemma_insert_ids_ok(ca, evar, alpha1, cb);
                                    match st_solve(cb, evar, arrow) {
                                        Some(cc) => {
                                            lemma_solve_ids_ok(cb, evar, arrow, cc);
                                            lemma_check_ids_ok(
                                                cc,
                                                e,
                                                Ty::ExstVar(alpha1),
                                                (fuel - 1) as nat,
                                                c2,
                                            );
                                        },
                                        None => {},
                                    }
                                },
                                None => {},
                            }
                        },
                        None => {},
                    }
                }
            },
            Ty::Arrow(inp, out) => {
                lemma_check_ids_ok(c, e, *inp, (fuel - 1) as nat, c2);
            },
            _ => {},
        }
    }
}

/// Identity discipline of inference: starting from a context whose
/// identities are unique and below the counter — the empty context in
/// particular — every successful inference keeps each existential
/// identity unique and never reuses one, since all identities stay below
/// the monotonically increasing counter.
pub proof fn lemma_infer_ids_ok(c: CtxState, e: Term, fuel: nat, t2: Ty, c2: CtxState)
    requires
        ctx_ids_ok(c),
        (spec_infer(c, e, fuel) == Some((t2, c2))),
    ensures
        ctx_ids_ok(c2),
    decreases fuel,
{
    if fuel == 0 {
    } else {
        match e {
            Term::Var(_) => {},
            Term::Unit => {},
            Term::Bool(_) => {},
            Term::Ann(term, ty) => {
                if spec_wf(ty, c.entries, 0) {
                    match spec_check(c, *term, ty, (fuel - 1) as nat) {
                        Some(ca) => {
                            lemma_check_ids_ok(c, *term, ty, (fuel - 1) as nat, ca);
                        },
                        None => {},
                    }
                }
            },
            Term::Lambda(body) => {
                if c.next + 2 > usize::MAX {
                } else {
                    let alpha = c.next as usize;
                    let beta = (c.next + 1) as usize;
                    let c0 = CtxState { entries: c.entries, next: c.next + 2 };
                    lemma_raise_counter_ids_ok(c, c.next + 2);
                    lemma_bounded_has_no_fresh_owner(c, alpha);
                    lemma_bounded_has_no_fresh_owner(c, beta);
                    let ca = st_push(c0, TyCtxtEntry::UnsolvedExst(alpha));
                    lemma_push_ids_ok(c0, TyCtxtEntry::UnsolvedExst(alpha));
                    let cb = st_push(ca, TyCtxtEntry::UnsolvedExst(beta));
                    lemma_push_ids_ok(ca, TyCtxtEntry::UnsolvedExst(beta));
                    let cc = st_push(cb, TyCtxtEntry::TermVar(Ty::ExstVar(alpha)));
                    lemma_push_ids_ok(cb, TyCtxtEntry::TermVar(Ty::ExstVar(alpha)));
                    match spec_check(cc, *body, Ty::ExstVar(beta), (fuel - 1) as nat) {
                        Some(cd) => {
                            lemma_check_ids_ok(cc, *body, Ty::ExstVar(beta), (fuel - 1) as nat, cd);
                            match st_drop_term_var(cd, 0) {
                                Some(ce) => {
                                    lemma_st_drop_term_var_ids_ok(cd, 0, ce);
                                },
                                None => {},
                            }
                        },
                        None => {},
                    }
                }
            },
            Term::Appl(func, arg) => {
                match spec_infer(c, *func, (fuel - 1) as nat) {
                    Some((fty, ca)) => {
                        lemma_infer_ids_ok(c, *func, (fuel - 1) as nat, fty, ca);
                        let ftys = spec_subst_in_state(fty, ca);
                        match crate::typeck::spec_infer_appl(ca, ftys, *arg, (fuel - 1) as nat) {
                            Some((rt, cb)) => {
                                lemma_infer_appl_ids_ok(ca, ftys, *arg, (fuel - 1) as nat, rt, cb);
                            },
                            None => {},
                        }
                    },
                    None => {},
                }
            },
            Term::TypeAppl(term, ty) => {
                match spec_infer(c, *term, (fuel - 1) as nat) {
                    Some((fty, ca)) => {
                        lemma_infer_ids_ok(c, *term, (fuel - 1) as nat, fty, ca);
                    },
                    None => {},
                }
            },
        }
    }
}


/// A type well-formed in the empty context mentions no existential.
pub proof fn lemma_wf_empty_no_evar(t: Ty, depth: nat)
    requires
        spec_wf(t, Seq::<TyCtxtEntry>::empty(), depth),
    ensures
        !spec_contains_some_evar(t),
    decreases t,
{
    match t {
        Ty::ExstVar(e) => {
            assert(crate::ctx::find_entry_from(Seq::<TyCtxtEntry>::empty(), e, 0) is None);
        },
        Ty::Arrow(inp, out) => {
            lemma_wf_empty_no_evar(*inp, depth);
            lemma_wf_empty_no_evar(*out, depth);
        },
        Ty::Forall(body) => {
            lemma_wf_empty_no_evar(*body, depth + 1);
        },
        _ => {},
    }
}

/// A type without existentials is untouched by every solution map.
pub proof fn lemma_no_evar_no_solved(t: Ty, m: Map<usize, Ty>)
    requires
        !spec_contains_some_evar(t),
    ensures
        !spec_contains_evars(t, m),
    decreases t,
{
    match t {
        Ty::Arrow(inp, out) => {
            lemma_no_evar_no_solved(*inp, m);
            lemma_no_evar_no_solved(*out, m);
        },
        Ty::Forall(body) => {
            lemma_no_evar_no_solved(*body, m);
        },
        _ => {},
    }
}

/// For a top-level term headed by an ascription or a literal, an accepted
/// result is closed and well-formed in the empty context: the ascription
/// was checked well-formed against the empty context and survives the
/// final substitution unchanged.
pub proof fn lemma_infer_type_ascription_wellformed(e: Term, fuel: nat, t2: Ty)
    requires
        (e is Ann || e is Unit || e is Bool),
        (crate::typeck::spec_infer_type(e, fuel) == Some(t2)),
    ensures
        spec_wf(t2, Seq::<TyCtxtEntry>::empty(), 0),
        !spec_contains_some_evar(t2),
{
    let c0 = CtxState { entries: Seq::<TyCtxtEntry>::empty(), next: 0 };
    if fuel == 0 {
    } else {
        match spec_infer(c0, e, fuel) {
            Some((t, c1)) => {
                match e {
                    Term::Ann(term, ty) => {
                        lemma_wf_empty_no_evar(ty, 0);
                        lemma_no_evar_no_solved(ty, solved_map(c1.entries));
                        lemma_subst_ctx_fixed(ty, solved_map(c1.entries), c1.entries.len());
                    },
                    Term::Unit => {
                        lemma_no_evar_no_solved(Ty::Unit, solved_map(c1.entries));
                        lemma_subst_ctx_fixed(Ty::Unit, solved_map(c1.entries), c1.entries.len());
                    },
                    Term::Bool(_) => {
                        lemma_no_evar_no_solved(Ty::Bool, solved_map(c1.entries));
                        lemma_subst_ctx_fixed(Ty::Bool, solved_map(c1.entries), c1.entries.len());
                    },
                    _ => {},
                }
            },
            None => {},
        }
    }
}

} // verus!
