//! The ordered algorithmic typing context.
//!
//! The context is a linear sequence of entries in which entries to the right
//! may depend on entries to the left, together with a monotonically
//! increasing counter that mints globally unique existential identities.
//! Scoped truncation (`drop_after_*`) discards a suffix whose scope has
//! ended while keeping solved existentials to the left of the cut.

use std::collections::HashMap;
use vstd::prelude::*;

use crate::ast::debruijn::Ty;

verus! {

broadcast use vstd::std_specs::hash::group_hash_axioms;

/// One entry of the ordered context.
#[derive(Debug, PartialEq, Eq)]
pub enum TyCtxtEntry {
    /// An existential metavariable awaiting a solution.
    UnsolvedExst(usize),
    /// A scope marker tied to an existential identity.
    ExstMarker(usize),
    /// An existential solved to a monotype.
    SolvedExst(usize, Ty),
    /// A universal type variable brought into scope.
    Uvar,
    /// A term variable with its recorded type.
    TermVar(Ty),
}

/// The ordered algorithmic context.
#[derive(Debug, PartialEq, Eq)]
pub struct TyCtxt {
    arr: Vec<TyCtxtEntry>,
    fresh_evar: usize,
}

/// The abstract state of a context: its entries and its counter.
pub ghost struct CtxState {
    pub entries: Seq<TyCtxtEntry>,
    pub next: nat,
}

/// Whether `e` carries the existential identity `id` (unsolved, marker or
/// solved).
pub open spec fn entry_is_evar(e: TyCtxtEntry, id: usize) -> bool {
    match e {
        TyCtxtEntry::UnsolvedExst(i) => i == id,
        TyCtxtEntry::ExstMarker(i) => i == id,
        TyCtxtEntry::SolvedExst(i, _) => i == id,
        _ => false,
    }
}

/// Whether `e` is the unsolved existential `id`.
pub open spec fn entry_is_unsolved(e: TyCtxtEntry, id: usize) -> bool {
    e == TyCtxtEntry::UnsolvedExst(id)
}

/// Whether `e` is the scope marker of the existential identity `id`.
pub open spec fn entry_is_marker(e: TyCtxtEntry, id: usize) -> bool {
    e == TyCtxtEntry::ExstMarker(id)
}

/// Position of the first entry at index `i` or later that carries the
/// existential identity `id` in any form.
pub open spec fn find_entry_from(s: Seq<TyCtxtEntry>, id: usize, i: int) -> Option<int>
    decreases s.len() - i,
{
    if i < 0 || i >= s.len() {
        None
    } else if entry_is_evar(s[i], id) {
        Some(i)
    } else {
        find_entry_from(s, id, i + 1)
    }
}

/// Position of the first `UnsolvedExst(id)` entry at index `i` or later.
pub open spec fn find_unsolved_from(s: Seq<TyCtxtEntry>, id: usize, i: int) -> Option<int>
    decreases s.len() - i,
{
    if i < 0 || i >= s.len() {
        None
    } else if entry_is_unsolved(s[i], id) {
        Some(i)
    } else {
        find_unsolved_from(s, id, i + 1)
    }
}

/// Position of the first `ExstMarker(id)` entry at index `i` or later.
pub open spec fn find_marker_from(s: Seq<TyCtxtEntry>, id: usize, i: int) -> Option<int>
    decreases s.len() - i,
{
    if i < 0 || i >= s.len() {
        None
    } else if entry_is_marker(s[i], id) {
        Some(i)
    } else {
        find_marker_from(s, id, i + 1)
    }
}

/// Whether the identity `id` occurs anywhere in `s`.
pub open spec fn seq_has_evar(s: Seq<TyCtxtEntry>, id: usize) -> bool {
    find_entry_from(s, id, 0) is Some
}

/// Whether `UnsolvedExst(id)` occurs in `s`.
pub open spec fn seq_has_unsolved(s: Seq<TyCtxtEntry>, id: usize) -> bool {
    find_unsolved_from(s, id, 0) is Some
}

/// Position of the `k`-th `Uvar` entry counting from the right (`k == 0` is
/// the rightmost one).
pub open spec fn uvar_pos(s: Seq<TyCtxtEntry>, k: nat) -> Option<int>
    decreases s.len(),
{
    if s.len() == 0 {
        None
    } else if s.last() is Uvar {
        if k == 0 {
            Some(s.len() - 1)
        } else {
            uvar_pos(s.drop_last(), (k - 1) as nat)
        }
    } else {
        uvar_pos(s.drop_last(), k)
    }
}

/// Whether `s` holds at least `k + 1` `Uvar` entries.
pub open spec fn seq_has_uvar(s: Seq<TyCtxtEntry>, k: nat) -> bool {
    uvar_pos(s, k) is Some
}

/// Position of the `k`-th `TermVar` entry counting from the right.
pub open spec fn term_var_pos(s: Seq<TyCtxtEntry>, k: nat) -> Option<int>
    decreases s.len(),
{
    if s.len() == 0 {
        None
    } else if s.last() is TermVar {
        if k == 0 {
            Some(s.len() - 1)
        } else {
            term_var_pos(s.drop_last(), (k - 1) as nat)
        }
    } else {
        term_var_pos(s.drop_last(), k)
    }
}

/// The mapping from solved existential identities to their solutions; a
/// later entry for the same identity wins.
pub open spec fn solved_map(s: Seq<TyCtxtEntry>) -> Map<usize, Ty>
    decreases s.len(),
{
    if s.len() == 0 {
        Map::empty()
    } else {
        match s.last() {
            TyCtxtEntry::SolvedExst(id, ty) => solved_map(s.drop_last()).insert(id, ty),
            _ => solved_map(s.drop_last()),
        }
    }
}

/// The state after appending one entry.
pub open spec fn st_push(c: CtxState, e: TyCtxtEntry) -> CtxState {
    CtxState { entries: c.entries.push(e), next: c.next }
}

/// The state after replacing the (first) unsolved occurrence of `id` with
/// the solution `ty`; `None` when `id` is not present unsolved.
pub open spec fn st_solve(c: CtxState, id: usize, ty: Ty) -> Option<CtxState> {
    match find_unsolved_from(c.entries, id, 0) {
        Some(p) => Some(
            CtxState {
                entries: c.entries.update(p, TyCtxtEntry::SolvedExst(id, ty)),
                next: c.next,
            },
        ),
        None => None,
    }
}

/// The state after inserting `UnsolvedExst(fresh_id)` immediately left of
/// the (first) unsolved occurrence of `id`.
pub open spec fn st_insert_before(c: CtxState, id: usize, fresh_id: usize) -> Option<CtxState> {
    match find_unsolved_from(c.entries, id, 0) {
        Some(p) => Some(
            CtxState {
                entries: c.entries.insert(p, TyCtxtEntry::UnsolvedExst(fresh_id)),
                next: c.next,
            },
        ),
        None => None,
    }
}

/// The state after truncating at the (first) marker of `id`, removing the
/// marker itself and everything after it.
pub open spec fn st_drop_marker(c: CtxState, id: usize) -> Option<CtxState> {
    match find_marker_from(c.entries, id, 0) {
        Some(p) => Some(CtxState { entries: c.entries.subrange(0, p), next: c.next }),
        None => None,
    }
}

/// The state after truncating at the `k`-th most recent `Uvar`, removing it
/// and everything after it.
pub open spec fn st_drop_uvar(c: CtxState, k: nat) -> Option<CtxState> {
    match uvar_pos(c.entries, k) {
        Some(p) => Some(CtxState { entries: c.entries.subrange(0, p), next: c.next }),
        None => None,
    }
}

/// The state after truncating at the `k`-th most recent `TermVar`.
pub open spec fn st_drop_term_var(c: CtxState, k: nat) -> Option<CtxState> {
    match term_var_pos(c.entries, k) {
        Some(p) => Some(CtxState { entries: c.entries.subrange(0, p), next: c.next }),
        None => None,
    }
}

/// The prefix strictly left of the first entry that carries the identity
/// `id` in any form.
pub open spec fn st_prefix_before(c: CtxState, id: usize) -> Option<Seq<TyCtxtEntry>> {
    match find_entry_from(c.entries, id, 0) {
        Some(p) => Some(c.entries.subrange(0, p)),
        None => None,
    }
}

/// A found entry position lies in bounds and holds the sought entry.
pub proof fn lemma_find_unsolved_bounds(s: Seq<TyCtxtEntry>, id: usize, i: int)
    requires
        find_unsolved_from(s, id, i) is Some,
    ensures
        (match find_unsolved_from(s, id, i) {
            Some(p) => i <= p < s.len() && entry_is_unsolved(s[p], id),
            None => false,
        }),
    decreases s.len() - i,
{
    if i < 0 || i >= s.len() {
    } else if entry_is_unsolved(s[i], id) {
    } else {
        lemma_find_unsolved_bounds(s, id, i + 1);
    }
}

/// A found marker position lies in bounds and holds the sought marker.
pub proof fn lemma_find_marker_bounds(s: Seq<TyCtxtEntry>, id: usize, i: int)
    requires
        find_marker_from(s, id, i) is Some,
    ensures
        (match find_marker_from(s, id, i) {
            Some(p) => i <= p < s.len() && entry_is_marker(s[p], id),
            None => false,
        }),
    decreases s.len() - i,
{
    if i < 0 || i >= s.len() {
    } else if entry_is_marker(s[i], id) {
    } else {
        lemma_find_marker_bounds(s, id, i + 1);
    }
}

/// A found `Uvar` position lies in bounds and holds a `Uvar`.
pub proof fn lemma_uvar_pos_bounds(s: Seq<TyCtxtEntry>, k: nat)
    requires
        uvar_pos(s, k) is Some,
    ensures
        (match uvar_pos(s, k) {
            Some(p) => 0 <= p < s.len() && s[p] is Uvar,
            None => false,
        }),
    decreases s.len(),
{
    if s.len() == 0 {
    } else if s.last() is Uvar {
        if k == 0 {
        } else {
            lemma_uvar_pos_bounds(s.drop_last(), (k - 1) as nat);
        }
    } else {
        lemma_uvar_pos_bounds(s.drop_last(), k);
    }
}

/// A found `TermVar` position lies in bounds and holds a `TermVar`.
pub proof fn lemma_term_var_pos_bounds(s: Seq<TyCtxtEntry>, k: nat)
    requires
        term_var_pos(s, k) is Some,
    ensures
        (match term_var_pos(s, k) {
            Some(p) => 0 <= p < s.len() && s[p] is TermVar,
            None => false,
        }),
    decreases s.len(),
{
    if s.len() == 0 {
    } else if s.last() is TermVar {
        if k == 0 {
        } else {
            lemma_term_var_pos_bounds(s.drop_last(), (k - 1) as nat);
        }
    } else {
        lemma_term_var_pos_bounds(s.drop_last(), k);
    }
}

impl View for TyCtxt {
    type V = CtxState;

    closed spec fn view(&self) -> CtxState {
        CtxState { entries: self.arr@, next: self.fresh_evar as nat }
    }
}

impl TyCtxt {
    /// The empty context with the counter at zero.
    pub fn new() -> (res: Self)
        ensures
            res@.entries == Seq::<TyCtxtEntry>::empty(),
            res@.next == 0,
    {
        TyCtxt { arr: Vec::new(), fresh_evar: 0 }
    }

    /// The number of entries currently in the context.
    pub fn num_entries(&self) -> (res: usize)
        ensures
            res == self@.entries.len(),
    {
        self.arr.len()
    }

    /// Whether the counter can still mint `k` fresh identities.
    pub fn can_mint(&self, k: usize) -> (res: bool)
        ensures
            res == (self@.next + k <= usize::MAX),
    {
        usize::MAX - self.fresh_evar >= k
    }

    /// Position of the first `UnsolvedExst(id)` entry, scanning left to
    /// right.
    fn find_unsolved(&self, id: usize) -> (res: Option<usize>)
        ensures
            match res {
                Some(i) => find_unsolved_from(self@.entries, id, 0) == Some(i as int) && i
                    < self@.entries.len(),
                None => find_unsolved_from(self@.entries, id, 0) is None,
            },
    {
        let ghost s = self@.entries;
        let n = self.arr.len();
        let mut i: usize = 0;
        while i < n
            invariant
                n == s.len(),
                0 <= i <= n,
                s == self@.entries,
                find_unsolved_from(s, id, 0) == find_unsolved_from(s, id, i as int),
            decreases n - i,
        {
            let found = match &self.arr[i] {
                TyCtxtEntry::UnsolvedExst(e) => *e == id,
                _ => false,
            };
            if found {
                return Some(i);
            }
            i = i + 1;
        }
        None
    }

    /// Position of the first `ExstMarker(id)` entry.
    fn find_marker(&self, id: usize) -> (res: Option<usize>)
        ensures
            match res {
                Some(i) => find_marker_from(self@.entries, id, 0) == Some(i as int) && i
                    < self@.entries.len(),
                None => find_marker_from(self@.entries, id, 0) is None,
            },
    {
        let ghost s = self@.entries;
        let n = self.arr.len();
        let mut i: usize = 0;
        while i < n
            invariant
                n == s.len(),
                0 <= i <= n,
                s == self@.entries,
                find_marker_from(s, id, 0) == find_marker_from(s, id, i as int),
            decreases n - i,
        {
            let found = match &self.arr[i] {
                TyCtxtEntry::ExstMarker(e) => *e == id,
                _ => false,
            };
            if found {
                return Some(i);
            }
            i = i + 1;
        }
        None
    }

    /// Position of the first entry carrying the identity `id` in any form.
    fn find_entry(&self, id: usize) -> (res: Option<usize>)
        ensures
            match res {
                Some(i) => find_entry_from(self@.entries, id, 0) == Some(i as int) && i
                    < self@.entries.len(),
                None => find_entry_from(self@.entries, id, 0) is None,
            },
    {
        let ghost s = self@.entries;
        let n = self.arr.len();
        let mut i: usize = 0;
        while i < n
            invariant
                n == s.len(),
                0 <= i <= n,
                s == self@.entries,
                find_entry_from(s, id, 0) == find_entry_from(s, id, i as int),
            decreases n - i,
        {
            let found = match &self.arr[i] {
                TyCtxtEntry::UnsolvedExst(e) => *e == id,
                TyCtxtEntry::ExstMarker(e) => *e == id,
                TyCtxtEntry::SolvedExst(e, _) => *e == id,
                _ => false,
            };
            if found {
                return Some(i);
            }
            i = i + 1;
        }
        None
    }

    /// Absolute position of the `idx`-th most recent `Uvar` entry.
    pub fn get_uvar(&self, idx: usize) -> (res: Option<usize>)
        ensures
            match res {
                Some(i) => uvar_pos(self@.entries, idx as nat) == Some(i as int) && i
                    < self@.entries.len(),
                None => uvar_pos(self@.entries, idx as nat) is None,
            },
    {
        let ghost s = self@.entries;
        let mut i: usize = self.arr.len();
        let mut k: usize = idx;
        proof {
            assert(s.take(i as int) =~= s);
        }
        while i > 0
            invariant
                0 <= i <= s.len(),
                s == self@.entries,
                uvar_pos(s, idx as nat) == uvar_pos(s.take(i as int), k as nat),
            decreases i,
        {
            i = i - 1;
            proof {
                assert(s.take(i + 1).drop_last() =~= s.take(i as int));
                assert(s.take(i + 1).last() == s[i as int]);
            }
            match &self.arr[i] {
                TyCtxtEntry::Uvar => {
                    if k == 0 {
                        return Some(i);
                    }
                    k = k - 1;
                },
                _ => {},
            }
        }
        proof {
            assert(s.take(0) =~= Seq::<TyCtxtEntry>::empty());
        }
        None
    }

    /// The recorded type of the `idx`-th most recent term variable.
    pub fn get_term_var(&self, idx: usize) -> (res: Option<&Ty>)
        ensures
            match res {
                Some(ty) => term_var_pos(self@.entries, idx as nat) matches Some(p)
                    && self@.entries[p] == TyCtxtEntry::TermVar(*ty),
                None => term_var_pos(self@.entries, idx as nat) is None,
            },
    {
        match self.get_term_var_idx(idx) {
            Some(i) => match &self.arr[i] {
                TyCtxtEntry::TermVar(ty) => Some(ty),
                _ => vstd::pervasive::unreached(),
            },
            None => None,
        }
    }

    /// Absolute position of the `idx`-th most recent `TermVar` entry.
    pub fn get_term_var_idx(&self, idx: usize) -> (res: Option<usize>)
        ensures
            match res {
                Some(i) => term_var_pos(self@.entries, idx as nat) == Some(i as int) && i
                    < self@.entries.len() && self@.entries[i as int] is TermVar,
                None => term_var_pos(self@.entries, idx as nat) is None,
            },
    {
        let ghost s = self@.entries;
        let mut i: usize = self.arr.len();
        let mut k: usize = idx;
        proof {
            assert(s.take(i as int) =~= s);
        }
        while i > 0
            invariant
                0 <= i <= s.len(),
                s == self@.entries,
                term_var_pos(s, idx as nat) == term_var_pos(s.take(i as int), k as nat),
            decreases i,
        {
            i = i - 1;
            proof {
                assert(s.take(i + 1).drop_last() =~= s.take(i as int));
                assert(s.take(i + 1).last() == s[i as int]);
            }
            match &self.arr[i] {
                TyCtxtEntry::TermVar(_) => {
                    if k == 0 {
                        return Some(i);
                    }
                    k = k - 1;
                },
                _ => {},
            }
        }
        proof {
            assert(s.take(0) =~= Seq::<TyCtxtEntry>::empty());
        }
        None
    }

    /// Whether the context holds at least `idx + 1` universal variables.
    pub fn contains_uvar(&self, idx: usize) -> (res: bool)
        ensures
            res == seq_has_uvar(self@.entries, idx as nat),
    {
        self.get_uvar(idx).is_some()
    }

    /// Whether the identity `idx` occurs in the context in any form.
    pub fn contains_evar(&self, idx: usize) -> (res: bool)
        ensures
            res == seq_has_evar(self@.entries, idx),
    {
        self.find_entry(idx).is_some()
    }

    /// Whether the identity `idx` occurs in the context unsolved.
    pub fn contains_unsolved_evar(&self, idx: usize) -> (res: bool)
        ensures
            res == seq_has_unsolved(self@.entries, idx),
    {
        self.find_unsolved(idx).is_some()
    }

    /// Truncate so that the marker of `evar` is the last entry removed.
    pub fn drop_after_marker(&mut self, evar: usize) -> (res: Option<()>)
        ensures
            match st_drop_marker(old(self)@, evar) {
                Some(c) => res is Some && final(self)@ == c,
                None => res is None && final(self)@ == old(self)@,
            },
    {
        match self.find_marker(evar) {
            Some(i) => {
                self.arr.truncate(i);
                Some(())
            },
            None => None,
        }
    }

    /// Truncate so that the `idx`-th most recent `Uvar` and everything
    /// after it is removed.
    pub fn drop_after_uvar(&mut self, idx: usize) -> (res: Option<()>)
        ensures
            match st_drop_uvar(old(self)@, idx as nat) {
                Some(c) => res is Some && final(self)@ == c,
                None => res is None && final(self)@ == old(self)@,
            },
    {
        match self.get_uvar(idx) {
            Some(i) => {
                self.arr.truncate(i);
                Some(())
            },
            None => None,
        }
    }

    /// Truncate so that the `idx`-th most recent `TermVar` and everything
    /// after it is removed.
    pub fn drop_after_term_var(&mut self, idx: usize) -> (res: Option<()>)
        ensures
            match st_drop_term_var(old(self)@, idx as nat) {
                Some(c) => res is Some && final(self)@ == c,
                None => res is None && final(self)@ == old(self)@,
            },
    {
        match self.get_term_var_idx(idx) {
            Some(i) => {
                self.arr.truncate(i);
                Some(())
            },
            None => None,
        }
    }

    /// Mint a fresh existential identity.
    pub fn fresh_evar(&mut self) -> (res: usize)
        requires
            old(self)@.next < usize::MAX,
        ensures
            res == old(self)@.next,
            final(self)@.next == old(self)@.next + 1,
            final(self)@.entries == old(self)@.entries,
    {
        let fresh_evar = self.fresh_evar;
        self.fresh_evar = self.fresh_evar + 1;
        fresh_evar
    }

    /// Append the scope marker of `evar`.
    pub fn add_marker(&mut self, evar: usize)
        ensures
            final(self)@ == st_push(old(self)@, TyCtxtEntry::ExstMarker(evar)),
    {
        self.arr.push(TyCtxtEntry::ExstMarker(evar));
    }

    /// Append the unsolved existential `evar`.
    pub fn add_unsolved(&mut self, evar: usize)
        ensures
            final(self)@ == st_push(old(self)@, TyCtxtEntry::UnsolvedExst(evar)),
    {
        self.arr.push(TyCtxtEntry::UnsolvedExst(evar));
    }

    /// Append a fresh universal variable.
    pub fn add_uvar(&mut self)
        ensures
            final(self)@ == st_push(old(self)@, TyCtxtEntry::Uvar),
    {
        self.arr.push(TyCtxtEntry::Uvar);
    }

    /// Append the existential `evar` already solved to `ty`.
    pub fn add_solved(&mut self, evar: usize, ty: Ty)
        ensures
            final(self)@ == st_push(old(self)@, TyCtxtEntry::SolvedExst(evar, ty)),
    {
        self.arr.push(TyCtxtEntry::SolvedExst(evar, ty));
    }

    /// Append a term variable typed `ty`.
    pub fn add_term_var(&mut self, ty: Ty)
        ensures
            final(self)@ == st_push(old(self)@, TyCtxtEntry::TermVar(ty)),
    {
        self.arr.push(TyCtxtEntry::TermVar(ty));
    }

    /// Replace the unsolved existential `evar` in place with the solution
    /// `ty`; fails if `evar` is not present unsolved.
    pub fn solve_evar(&mut self, evar: usize, ty: Ty) -> (res: Option<()>)
        ensures
            match st_solve(old(self)@, evar, ty) {
                Some(c) => res is Some && final(self)@ == c,
                None => res is None && final(self)@ == old(self)@,
            },
    {
        match self.find_unsolved(evar) {
            Some(i) => {
                self.arr[i] = TyCtxtEntry::SolvedExst(evar, ty);
                Some(())
            },
            None => None,
        }
    }

    /// Insert the unsolved existential `unsolved` immediately left of the
    /// unsolved existential `evar`; fails if `evar` is not present
    /// unsolved.
    pub fn insert_unsolved_before_evar(&mut self, evar: usize, unsolved: usize) -> (res: Option<
        (),
    >)
        ensures
            match st_insert_before(old(self)@, evar, unsolved) {
                Some(c) => res is Some && final(self)@ == c,
                None => res is None && final(self)@ == old(self)@,
            },
    {
        match self.find_unsolved(evar) {
            Some(i) => {
                self.arr.insert(i, TyCtxtEntry::UnsolvedExst(unsolved));
                Some(())
            },
            None => None,
        }
    }

    /// A snapshot of the solutions recorded in the context.
    pub fn get_solved(&self) -> (res: HashMap<usize, Ty>)
        ensures
            res@ == solved_map(self@.entries),
    {
        let ghost s = self@.entries;
        let n = self.arr.len();
        let mut res: HashMap<usize, Ty> = HashMap::new();
        let mut i: usize = 0;
        while i < n
            invariant
                n == s.len(),
                0 <= i <= n,
                s == self@.entries,
                res@ == solved_map(s.take(i as int)),
            decreases n - i,
        {
            proof {
                assert(s.take(i + 1).drop_last() =~= s.take(i as int));
                assert(s.take(i + 1).last() == s[i as int]);
            }
            match &self.arr[i] {
                TyCtxtEntry::SolvedExst(id, ty) => {
                    res.insert(*id, ty.clone());
                },
                _ => {},
            }
            i = i + 1;
        }
        proof {
            assert(s.take(n as int) =~= s);
        }
        res
    }

    /// Empty the context and reset the counter.
    pub fn clear(&mut self)
        ensures
            final(self)@.entries == Seq::<TyCtxtEntry>::empty(),
            final(self)@.next == 0,
    {
        self.arr.truncate(0);
        self.fresh_evar = 0;
        proof {
            assert(final(self)@.entries =~= Seq::<TyCtxtEntry>::empty());
        }
    }

    /// A read-only view of the entries in `range`.
    pub fn slice(&self, range: core::ops::Range<usize>) -> (res: TyCtxtView<'_>)
        requires
            range.start <= range.end <= self@.entries.len(),
        ensures
            res@ == self@.entries.subrange(range.start as int, range.end as int),
    {
        TyCtxtView {
            arr: vstd::slice::slice_subrange(self.arr.as_slice(), range.start, range.end),
        }
    }

    /// A read-only view of the prefix strictly left of the first entry
    /// carrying the identity `evar`; fails if `evar` is absent.
    pub fn slice_until_evar(&self, evar: usize) -> (res: Option<TyCtxtView<'_>>)
        ensures
            match st_prefix_before(self@, evar) {
                Some(s) => res matches Some(v) && v@ == s,
                None => res is None,
            },
    {
        match self.find_entry(evar) {
            Some(i) => Some(self.slice(0..i)),
            None => None,
        }
    }

    /// The full context as a read-only view.
    pub fn as_view(&self) -> (res: TyCtxtView<'_>)
        ensures
            res@ == self@.entries,
    {
        let n = self.arr.len();
        let res = self.slice(0..n);
        proof {
            assert(self@.entries.subrange(0, n as int) =~= self@.entries);
        }
        res
    }
}

impl Default for TyCtxt {
    fn default() -> (res: Self)
        ensures
            res@.entries == Seq::<TyCtxtEntry>::empty(),
            res@.next == 0,
    {
        TyCtxt::new()
    }
}

/// A read-only view of a contiguous run of context entries.
#[derive(Clone, Copy, Debug, PartialEq, Eq)]
pub struct TyCtxtView<'a> {
    arr: &'a [TyCtxtEntry],
}

impl<'a> View for TyCtxtView<'a> {
    type V = Seq<TyCtxtEntry>;

    closed spec fn view(&self) -> Seq<TyCtxtEntry> {
        self.arr@
    }
}

impl<'a> TyCtxtView<'a> {
    /// Whether the identity `idx` occurs in the viewed prefix in any form.
    pub fn contains_evar(&self, idx: usize) -> (res: bool)
        ensures
            res == seq_has_evar(self@, idx),
    {
        let ghost s = self@;
        let n = self.arr.len();
        let mut i: usize = 0;
        while i < n
            invariant
                n == s.len(),
                0 <= i <= n,
                s == self@,
                find_entry_from(s, idx, 0) == find_entry_from(s, idx, i as int),
            decreases n - i,
        {
            let found = match &self.arr[i] {
                TyCtxtEntry::UnsolvedExst(e) => *e == idx,
                TyCtxtEntry::ExstMarker(e) => *e == idx,
                TyCtxtEntry::SolvedExst(e, _) => *e == idx,
                _ => false,
            };
            if found {
                return true;
            }
            i = i + 1;
        }
        false
    }

    /// Whether the viewed prefix holds at least `idx + 1` universal
    /// variables.
    pub fn contains_uvar(&self, idx: usize) -> (res: bool)
        ensures
            res == seq_has_uvar(self@, idx as nat),
    {
        self.get_uvar(idx).is_some()
    }

    /// Absolute position of the `idx`-th most recent `Uvar` entry of the
    /// viewed prefix.
    pub fn get_uvar(&self, idx: usize) -> (res: Option<usize>)
        ensures
            match res {
                Some(i) => uvar_pos(self@, idx as nat) == Some(i as int) && i < self@.len(),
                None => uvar_pos(self@, idx as nat) is None,
            },
    {
        let ghost s = self@;
        let mut i: usize = self.arr.len();
        let mut k: usize = idx;
        proof {
            assert(s.take(i as int) =~= s);
        }
        while i > 0
            invariant
                0 <= i <= s.len(),
                s == self@,
                uvar_pos(s, idx as nat) == uvar_pos(s.take(i as int), k as nat),
            decreases i,
        {
            i = i - 1;
            proof {
                assert(s.take(i + 1).drop_last() =~= s.take(i as int));
                assert(s.take(i + 1).last() == s[i as int]);
            }
            match &self.arr[i] {
                TyCtxtEntry::Uvar => {
                    if k == 0 {
                        return Some(i);
                    }
                    k = k - 1;
                },
                _ => {},
            }
        }
        proof {
            assert(s.take(0) =~= Seq::<TyCtxtEntry>::empty());
        }
        None
    }
}

} // verus!
