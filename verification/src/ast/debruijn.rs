//! Core terms and types, De Bruijn indexed and closed.

use std::collections::HashMap;
use vstd::prelude::*;

use crate::ctx::{seq_has_evar, seq_has_uvar, solved_map, CtxState, TyCtxt, TyCtxtEntry, TyCtxtView};

verus! {

broadcast use vstd::std_specs::hash::group_hash_axioms;

/// A core term. `Var(i)` refers to the term variable bound `i` lambdas
/// outward (`i == 0` is the nearest enclosing lambda).
#[derive(Debug, PartialEq, Eq)]
pub enum Term {
    Unit,
    Appl(Box<Term>, Box<Term>),
    Lambda(Box<Term>),
    Bool(bool),
    Var(usize),
    Ann(Box<Term>, Ty),
    TypeAppl(Box<Term>, Ty),
}

/// A core type. `Var(i)` is a universal variable bound by the `i`-th
/// enclosing `Forall`; `ExstVar(a)` is an existential metavariable with the
/// globally unique identity `a` issued by the typing context.
#[derive(Debug, PartialEq, Eq)]
pub enum Ty {
    Bool,
    Unit,
    Arrow(Box<Ty>, Box<Ty>),
    Forall(Box<Ty>),
    Var(usize),
    ExstVar(usize),
}

/// Whether the existential `idx` occurs anywhere in `t` (the occurs check).
pub open spec fn spec_contains_evar(t: Ty, idx: usize) -> bool
    decreases t,
{
    match t {
        Ty::Bool | Ty::Unit | Ty::Var(_) => false,
        Ty::ExstVar(e) => e == idx,
        Ty::Arrow(inp, out) => spec_contains_evar(*inp, idx) || spec_contains_evar(*out, idx),
        Ty::Forall(body) => spec_contains_evar(*body, idx),
    }
}

/// Whether `t` is a monotype: a type free of `Forall`.
pub open spec fn spec_is_mono(t: Ty) -> bool
    decreases t,
{
    match t {
        Ty::Bool | Ty::Unit | Ty::Var(_) | Ty::ExstVar(_) => true,
        Ty::Arrow(inp, out) => spec_is_mono(*inp) && spec_is_mono(*out),
        Ty::Forall(_) => false,
    }
}

/// Whether some existential of `t` has a solution recorded in `m`.
pub open spec fn spec_contains_evars(t: Ty, m: Map<usize, Ty>) -> bool
    decreases t,
{
    match t {
        Ty::Bool | Ty::Unit | Ty::Var(_) => false,
        Ty::ExstVar(e) => m.contains_key(e),
        Ty::Arrow(inp, out) => spec_contains_evars(*inp, m) || spec_contains_evars(*out, m),
        Ty::Forall(body) => spec_contains_evars(*body, m),
    }
}

/// One parallel replacement of every existential of `t` that `m` solves by
/// its recorded solution.
pub open spec fn spec_subst_once(t: Ty, m: Map<usize, Ty>) -> Ty
    decreases t,
{
    match t {
        Ty::Bool | Ty::Unit | Ty::Var(_) => t,
        Ty::ExstVar(e) => if m.contains_key(e) {
            m[e]
        } else {
            t
        },
        Ty::Arrow(inp, out) => Ty::Arrow(
            Box::new(spec_subst_once(*inp, m)),
            Box::new(spec_subst_once(*out, m)),
        ),
        Ty::Forall(body) => Ty::Forall(Box::new(spec_subst_once(*body, m))),
    }
}

/// Repeated replacement of solved existentials, at most `k` rounds, stopping
/// early once no solved existential remains. A context of `n` entries needs
/// at most `n` rounds, since each solution refers only to entries strictly
/// to its left.
pub open spec fn spec_subst_ctx(t: Ty, m: Map<usize, Ty>, k: nat) -> Ty
    decreases k,
{
    if k == 0 || !spec_contains_evars(t, m) {
        t
    } else {
        spec_subst_ctx(spec_subst_once(t, m), m, (k - 1) as nat)
    }
}

/// Whether any existential at all occurs in `t`.
pub open spec fn spec_contains_some_evar(t: Ty) -> bool
    decreases t,
{
    match t {
        Ty::Bool | Ty::Unit | Ty::Var(_) => false,
        Ty::ExstVar(_) => true,
        Ty::Arrow(inp, out) => spec_contains_some_evar(*inp) || spec_contains_some_evar(*out),
        Ty::Forall(body) => spec_contains_some_evar(*body),
    }
}

/// The full context substitution applied by a context state: as many
/// rounds as the context has entries, which suffices to reach a fixed
/// point whenever every solution refers only to entries strictly to its
/// left.
pub open spec fn spec_subst_in_state(t: Ty, c: CtxState) -> Ty {
    spec_subst_ctx(t, solved_map(c.entries), c.entries.len())
}

/// Substitution of `with` for the universal variable bound by a just-removed
/// outer `Forall`: in the body `t`, the universal `Var(depth)` becomes
/// `with`, deeper references are decremented across the removed binder, and
/// descending under an inner `Forall` increments the target so that the
/// inner binder's own variables are untouched. Nesting deeper than the
/// machine can count leaves the innermost body unchanged.
pub open spec fn spec_subst_outer(t: Ty, with: Ty, depth: nat) -> Ty
    decreases t,
{
    match t {
        Ty::Bool | Ty::Unit | Ty::ExstVar(_) => t,
        Ty::Forall(body) => if depth < usize::MAX {
            Ty::Forall(Box::new(spec_subst_outer(*body, with, depth + 1)))
        } else {
            t
        },
        Ty::Arrow(inp, out) => Ty::Arrow(
            Box::new(spec_subst_outer(*inp, with, depth)),
            Box::new(spec_subst_outer(*out, with, depth)),
        ),
        Ty::Var(idx) => if idx == depth {
            with
        } else if idx > depth {
            Ty::Var((idx - 1) as usize)
        } else {
            t
        },
    }
}

/// Well-formedness of the monotype `t` in the context prefix `s`: every
/// existential occurs in `s`, every universal refers to a `Uvar` entry of
/// `s`, and `Forall` is never well-formed as a monotype.
pub open spec fn spec_mono_wf(t: Ty, s: Seq<TyCtxtEntry>) -> bool
    decreases t,
{
    match t {
        Ty::Bool | Ty::Unit => true,
        Ty::Var(idx) => seq_has_uvar(s, idx as nat),
        Ty::Forall(_) => false,
        Ty::ExstVar(e) => seq_has_evar(s, e),
        Ty::Arrow(inp, out) => spec_mono_wf(*inp, s) && spec_mono_wf(*out, s),
    }
}

/// Well-formedness of `t` in the context `s` under `depth` enclosing
/// `Forall` binders: every existential occurs in `s`, and every universal
/// is bound either by one of the `depth` binders or by a `Uvar` entry of
/// `s`. Nesting deeper than the machine can count is rejected.
pub open spec fn spec_wf(t: Ty, s: Seq<TyCtxtEntry>, depth: nat) -> bool
    decreases t,
{
    match t {
        Ty::Bool | Ty::Unit => true,
        Ty::Var(idx) => idx < depth || seq_has_uvar(s, (idx - depth) as nat),
        Ty::Forall(body) => depth < usize::MAX && spec_wf(*body, s, depth + 1),
        Ty::ExstVar(e) => seq_has_evar(s, e),
        Ty::Arrow(inp, out) => spec_wf(*inp, s, depth) && spec_wf(*out, s, depth),
    }
}

impl Clone for Ty {
    fn clone(&self) -> (res: Self)
        ensures
            res == *self,
        decreases *self,
    {
        match self {
            Ty::Bool => Ty::Bool,
            Ty::Unit => Ty::Unit,
            Ty::Arrow(inp, out) => Ty::Arrow(Box::new((**inp).clone()), Box::new((**out).clone())),
            Ty::Forall(body) => Ty::Forall(Box::new((**body).clone())),
            Ty::Var(idx) => Ty::Var(*idx),
            Ty::ExstVar(idx) => Ty::ExstVar(*idx),
        }
    }
}

impl Clone for Term {
    fn clone(&self) -> (res: Self)
        ensures
            res == *self,
        decreases *self,
    {
        match self {
            Term::Unit => Term::Unit,
            Term::Appl(func, arg) => {
                Term::Appl(Box::new((**func).clone()), Box::new((**arg).clone()))
            },
            Term::Lambda(body) => Term::Lambda(Box::new((**body).clone())),
            Term::Bool(b) => Term::Bool(*b),
            Term::Var(idx) => Term::Var(*idx),
            Term::Ann(term, ty) => Term::Ann(Box::new((**term).clone()), ty.clone()),
            Term::TypeAppl(term, ty) => Term::TypeAppl(Box::new((**term).clone()), ty.clone()),
        }
    }
}

impl Ty {
    /// Structural occurs check for the existential identity `idx`.
    pub fn contains_evar(&self, idx: usize) -> (res: bool)
        ensures
            res == spec_contains_evar(*self, idx),
        decreases *self,
    {
        match self {
            Ty::Bool | Ty::Unit | Ty::Var(_) => false,
            Ty::ExstVar(eidx) => idx == *eidx,
            Ty::Arrow(inp, out) => inp.contains_evar(idx) || out.contains_evar(idx),
            Ty::Forall(body) => body.contains_evar(idx),
        }
    }

    /// Whether some existential of `self` has a solution recorded in
    /// `evars`.
    pub fn contains_evars(&self, evars: &HashMap<usize, Ty>) -> (res: bool)
        ensures
            res == spec_contains_evars(*self, evars@),
        decreases *self,
    {
        match self {
            Ty::Bool | Ty::Unit | Ty::Var(_) => false,
            Ty::ExstVar(eidx) => evars.contains_key(eidx),
            Ty::Arrow(inp, out) => inp.contains_evars(evars) || out.contains_evars(evars),
            Ty::Forall(body) => body.contains_evars(evars),
        }
    }

    /// One parallel replacement of solved existentials by their solutions.
    fn subst_ctx_once(self, solved: &HashMap<usize, Ty>) -> (res: Ty)
        ensures
            res == spec_subst_once(self, solved@),
        decreases self,
    {
        match self {
            Ty::Bool | Ty::Unit | Ty::Var(_) => self,
            Ty::Forall(body) => Ty::Forall(Box::new(body.subst_ctx_once(solved))),
            Ty::Arrow(inp, out) => Ty::Arrow(
                Box::new(inp.subst_ctx_once(solved)),
                Box::new(out.subst_ctx_once(solved)),
            ),
            Ty::ExstVar(evar) => match solved.get(&evar) {
                Some(ty) => ty.clone(),
                None => Ty::ExstVar(evar),
            },
        }
    }

    /// Replace every existential solved in `ctx` by its solution,
    /// transitively, until no solved existential remains (solutions may
    /// themselves contain existentials solved later in the traversal).
    pub fn subst_ctx(self, ctx: &TyCtxt) -> (res: Ty)
        ensures
            res == spec_subst_ctx(self, solved_map(ctx@.entries), ctx@.entries.len()),
    {
        let solved = ctx.get_solved();
        let ghost m = solved@;
        let ghost orig = self;
        let ghost rounds = ctx@.entries.len();
        let mut zelf = self;
        let mut k: usize = ctx.num_entries();
        loop
            invariant_except_break
                solved@ == m,
                spec_subst_ctx(orig, m, rounds) == spec_subst_ctx(zelf, m, k as nat),
            ensures
                zelf == spec_subst_ctx(orig, m, rounds),
            decreases k,
        {
            if k == 0 || !zelf.contains_evars(&solved) {
                break;
            }
            zelf = zelf.subst_ctx_once(&solved);
            k = k - 1;
        }
        zelf
    }

    /// Substitute `with` for the universal variable bound by a just-removed
    /// outer `Forall`, given the bare `body` of that `Forall` as `self`.
    pub fn subst_uvar0_bare(self, with: &Ty) -> (res: Ty)
        ensures
            res == spec_subst_outer(self, *with, 0),
    {
        self.subst_uvar0_bare_(with, 0)
    }

    /// Substitute `with` for the universal variable bound by the outer
    /// `Forall` of `self` itself, unwrapping that binder.
    pub fn subst_uvar0(self, with: &Ty) -> (res: Ty)
        requires
            self is Forall,
        ensures
            (match self {
                Ty::Forall(body) => res == spec_subst_outer(*body, *with, 0),
                _ => false,
            }),
    {
        match self {
            Ty::Forall(body) => body.subst_uvar0_bare(with),
            _ => vstd::pervasive::unreached(),
        }
    }

    fn subst_uvar0_bare_(self, with: &Ty, depth: usize) -> (res: Ty)
        ensures
            res == spec_subst_outer(self, *with, depth as nat),
        decreases self,
    {
        match self {
            Ty::Bool | Ty::Unit | Ty::ExstVar(_) => self,
            Ty::Forall(body) => {
                if depth < usize::MAX {
                    Ty::Forall(Box::new(body.subst_uvar0_bare_(with, depth + 1)))
                } else {
                    Ty::Forall(body)
                }
            },
            Ty::Arrow(inp, out) => Ty::Arrow(
                Box::new(inp.subst_uvar0_bare_(with, depth)),
                Box::new(out.subst_uvar0_bare_(with, depth)),
            ),
            Ty::Var(idx) => {
                if idx == depth {
                    with.clone()
                } else if idx > depth {
                    Ty::Var(idx - 1)
                } else {
                    Ty::Var(idx)
                }
            },
        }
    }

    /// Whether `self` is a monotype well-formed in the context prefix
    /// `ctx`.
    pub fn is_mono_wellformed_in(&self, ctx: TyCtxtView<'_>) -> (res: bool)
        ensures
            res == spec_mono_wf(*self, ctx@),
        decreases *self,
    {
        match self {
            Ty::Bool | Ty::Unit => true,
            Ty::Var(idx) => ctx.contains_uvar(*idx),
            Ty::Forall(_) => false,
            Ty::ExstVar(eidx) => ctx.contains_evar(*eidx),
            Ty::Arrow(inp, out) => inp.is_mono_wellformed_in(ctx) && out.is_mono_wellformed_in(
                ctx,
            ),
        }
    }

    /// Whether `self` is well-formed in `ctx`: every existential occurs in
    /// `ctx`, and every universal is bound by an enclosing `Forall` of
    /// `self` or by a `Uvar` entry of `ctx`.
    pub fn is_wellformed_in(&self, ctx: &TyCtxt) -> (res: bool)
        ensures
            res == spec_wf(*self, ctx@.entries, 0),
    {
        self.is_wellformed_in_(ctx, 0)
    }

    fn is_wellformed_in_(&self, ctx: &TyCtxt, depth: usize) -> (res: bool)
        ensures
            res == spec_wf(*self, ctx@.entries, depth as nat),
        decreases *self,
    {
        match self {
            Ty::Bool | Ty::Unit => true,
            Ty::Var(idx) => *idx < depth || ctx.contains_uvar(*idx - depth),
            Ty::Forall(body) => depth < usize::MAX && body.is_wellformed_in_(ctx, depth + 1),
            Ty::ExstVar(eidx) => ctx.contains_evar(*eidx),
            Ty::Arrow(inp, out) => inp.is_wellformed_in_(ctx, depth) && out.is_wellformed_in_(
                ctx,
                depth,
            ),
        }
    }

    /// Whether any existential at all occurs in `self`.
    pub fn contains_some_evar(&self) -> (res: bool)
        ensures
            res == spec_contains_some_evar(*self),
        decreases *self,
    {
        match self {
            Ty::Bool | Ty::Unit | Ty::Var(_) => false,
            Ty::ExstVar(_) => true,
            Ty::Arrow(inp, out) => inp.contains_some_evar() || out.contains_some_evar(),
            Ty::Forall(body) => body.contains_some_evar(),
        }
    }

    /// Whether `self` is a monotype: a type free of `Forall`.
    pub fn is_mono(&self) -> (res: bool)
        ensures
            res == spec_is_mono(*self),
        decreases *self,
    {
        match self {
            Ty::Bool | Ty::Unit | Ty::Var(_) | Ty::ExstVar(_) => true,
            Ty::Arrow(inp, out) => inp.is_mono() && out.is_mono(),
            Ty::Forall(_) => false,
        }
    }
}

} // verus!
