//! The plain backtracking search driver and the partial assignment
//! tracker.
//!
//! The driver alternates unit propagation to fixpoint, pure-literal
//! elimination, and branching with full snapshot/restore backtracking.
//! Its contract is soundness and totality: an assignment it returns
//! assigns every declared variable and satisfies every clause that was
//! active when the search began.

use vstd::prelude::*;

use crate::cnf::Cnf;
use crate::lit::Lit;
use crate::model::{
    consistent, extends, lemma_extend_preserves, lemma_in_active_unassigned,
    lemma_propagate_consistent, lemma_reach_conflict, lemma_reach_dead, lemma_reach_pure,
    lemma_reach_refl, lemma_reach_unit, lemma_solved, propagate_seq, propagated, reachable,
    satisfies, sats_all, total_assign, units_chain,
};
use crate::Strategy;

verus! {

/// How many variables are still unassigned.
pub open spec fn count_none(s: Seq<Option<bool>>) -> nat
    decreases s.len(),
{
    if s.len() == 0 {
        0
    } else {
        count_none(s.drop_last()) + if s.last() is None {
            1nat
        } else {
            0nat
        }
    }
}

proof fn lemma_count_none_update(s: Seq<Option<bool>>, i: int, v: Option<bool>)
    requires
        0 <= i < s.len(),
        s[i] is None,
        v is Some,
    ensures
        count_none(s.update(i, v)) == count_none(s) - 1,
    decreases s.len(),
{
    let s2 = s.update(i, v);
    if i == s.len() - 1 {
        assert(s2.drop_last() =~= s.drop_last());
    } else {
        assert(s2.drop_last() =~= s.drop_last().update(i, v));
        lemma_count_none_update(s.drop_last(), i, v);
    }
}

proof fn lemma_count_none_zero(s: Seq<Option<bool>>)
    ensures
        (count_none(s) == 0) <==> (forall|v: int| 0 <= v < s.len() ==> (#[trigger] s[v]) is Some),
    decreases s.len(),
{
    if s.len() > 0 {
        lemma_count_none_zero(s.drop_last());
        assert(forall|v: int| 0 <= v < s.len() - 1 ==> s.drop_last()[v] == #[trigger] s[v]);
        if count_none(s) == 0 {
            assert forall|v: int| 0 <= v < s.len() implies (#[trigger] s[v]) is Some by {
                if v < s.len() - 1 {
                    assert(s.drop_last()[v] == s[v]);
                } else {
                    assert(s[v] == s.last());
                }
            }
        } else {
            if forall|v: int| 0 <= v < s.len() ==> (#[trigger] s[v]) is Some {
                assert forall|v: int|
                    0 <= v < s.len() - 1 implies (#[trigger] s.drop_last()[v]) is Some by {
                    assert(s.drop_last()[v] == s[v]);
                }
                assert(s.last() == s[s.len() - 1]);
            }
        }
    }
}

/// A partial assignment: one optional truth value per variable, plus the
/// count of variables still unassigned.
#[derive(Debug)]
pub struct PartialSolution {
    pub solution: Vec<Option<bool>>,
    pub n_unassigned: usize,
}

impl PartialSolution {
    /// The unassigned counter matches the assignment.
    pub open spec fn wf(self) -> bool {
        self.n_unassigned == count_none(self.solution@)
    }

    /// An assignment over `n_lit` variables, all unassigned.
    pub fn new(n_lit: usize) -> (r: PartialSolution)
        ensures
            r.wf(),
            r.solution@.len() == n_lit,
            r.n_unassigned == n_lit,
            forall|v: int| 0 <= v < n_lit ==> (#[trigger] r.solution@[v]) is None,
    {
        let mut solution: Vec<Option<bool>> = Vec::new();
        let mut k: usize = 0;
        while k < n_lit
            invariant
                k <= n_lit,
                solution@.len() == k,
                count_none(solution@) == k,
                forall|v: int| 0 <= v < k ==> (#[trigger] solution@[v]) is None,
            decreases n_lit - k,
        {
            let ghost pre = solution@;
            solution.push(None);
            proof {
                assert(solution@.drop_last() =~= pre);
            }
            k += 1;
        }
        PartialSolution { solution, n_unassigned: n_lit }
    }

    /// Records the literal as true: its variable, unassigned until now,
    /// gets the literal's polarity.
    pub fn assign_lit(&mut self, lit: Lit)
        requires
            old(self).wf(),
            lit.var < old(self).solution@.len(),
            old(self).solution@[lit.var as int] is None,
        ensures
            final(self).wf(),
            final(self).solution@ == old(self).solution@.update(
                lit.var as int,
                Some(!lit.neg),
            ),
            final(self).n_unassigned == old(self).n_unassigned - 1,
    {
        proof {
            lemma_count_none_update(self.solution@, lit.var as int, Some(!lit.neg));
            lemma_count_none_zero(self.solution@);
        }
        let val = !lit.is_negative();
        self.solution.set(lit.index(), Some(val));
        self.n_unassigned = self.n_unassigned - 1;
    }

    /// True when every variable has a truth value.
    pub fn is_solved(&self) -> (r: bool)
        requires
            self.wf(),
        ensures
            r <==> (forall|v: int|
                0 <= v < self.solution@.len() ==> (#[trigger] self.solution@[v]) is Some),
    {
        proof {
            lemma_count_none_zero(self.solution@);
        }
        self.n_unassigned == 0
    }

    /// The variables currently assigned false, in ascending order,
    /// without repetition.
    pub fn false_lits(&self) -> (r: Vec<usize>)
        ensures
            forall|k: int|
                0 <= k < r@.len() ==> (#[trigger] r@[k]) < self.solution@.len()
                    && self.solution@[r@[k] as int] == Some(false),
            forall|v: int|
                0 <= v < self.solution@.len() && #[trigger] self.solution@[v] == Some(false)
                    ==> r@.contains(v as usize),
            forall|k1: int, k2: int|
                0 <= k1 < k2 < r@.len() ==> (#[trigger] r@[k1]) < (#[trigger] r@[k2]),
    {
        self.lits(false)
    }

    /// The variables currently assigned true, in ascending order, without
    /// repetition.
    pub fn true_lits(&self) -> (r: Vec<usize>)
        ensures
            forall|k: int|
                0 <= k < r@.len() ==> (#[trigger] r@[k]) < self.solution@.len()
                    && self.solution@[r@[k] as int] == Some(true),
            forall|v: int|
                0 <= v < self.solution@.len() && #[trigger] self.solution@[v] == Some(true)
                    ==> r@.contains(v as usize),
            forall|k1: int, k2: int|
                0 <= k1 < k2 < r@.len() ==> (#[trigger] r@[k1]) < (#[trigger] r@[k2]),
    {
        self.lits(true)
    }

    /// The variables currently assigned the given value, in ascending
    /// order, without repetition.
    fn lits(&self, val: bool) -> (r: Vec<usize>)
        ensures
            forall|k: int|
                0 <= k < r@.len() ==> (#[trigger] r@[k]) < self.solution@.len()
                    && self.solution@[r@[k] as int] == Some(val),
            forall|v: int|
                0 <= v < self.solution@.len() && #[trigger] self.solution@[v] == Some(val)
                    ==> r@.contains(v as usize),
            forall|k1: int, k2: int|
                0 <= k1 < k2 < r@.len() ==> (#[trigger] r@[k1]) < (#[trigger] r@[k2]),
    {
        let mut r: Vec<usize> = Vec::new();
        let mut v: usize = 0;
        let n = self.solution.len();
        while v < n
            invariant
                v <= self.solution@.len(),
                n == self.solution@.len(),
                forall|k: int|
                    0 <= k < r@.len() ==> (#[trigger] r@[k]) < self.solution@.len()
                        && self.solution@[r@[k] as int] == Some(val),
                forall|v2: int|
                    0 <= v2 < v && #[trigger] self.solution@[v2] == Some(val) ==> r@.contains(
                        v2 as usize,
                    ),
                forall|k: int| 0 <= k < r@.len() ==> (#[trigger] r@[k]) < v,
                forall|k1: int, k2: int|
                    0 <= k1 < k2 < r@.len() ==> (#[trigger] r@[k1]) < (#[trigger] r@[k2]),
            decreases self.solution@.len() - v,
        {
            let ghost pre = r@;
            let keep = match self.solution[v] {
                Some(b) => b == val,
                None => false,
            };
            if keep {
                r.push(v);
            }
            proof {
                assert forall|v2: int|
                    0 <= v2 < v + 1 && #[trigger] self.solution@[v2] == Some(val) implies r@
                    .contains(v2 as usize) by {
                    if v2 < v {
                        assert(pre.contains(v2 as usize));
                        let k = choose|k: int| 0 <= k < pre.len() && pre[k] == v2 as usize;
                        assert(r@[k] == v2 as usize);
                    } else {
                        assert(r@[r@.len() - 1] == v2 as usize);
                    }
                }
            }
            v += 1;
        }
        r
    }

    /// An independent copy of the assignment.
    pub fn snapshot(&self) -> (r: PartialSolution)
        ensures
            r.solution@ == self.solution@,
            r.n_unassigned == self.n_unassigned,
    {
        let mut solution: Vec<Option<bool>> = Vec::new();
        let mut k: usize = 0;
        let n = self.solution.len();
        while k < n
            invariant
                k <= self.solution@.len(),
                n == self.solution@.len(),
                solution@ == self.solution@.take(k as int),
            decreases self.solution@.len() - k,
        {
            solution.push(self.solution[k]);
            proof {
                assert(self.solution@.take(k + 1int) =~= self.solution@.take(k as int).push(
                    self.solution@[k as int],
                ));
            }
            k += 1;
        }
        proof {
            assert(self.solution@.take(self.solution@.len() as int) =~= self.solution@);
        }
        PartialSolution { solution, n_unassigned: self.n_unassigned }
    }

    /// Gives every still unassigned variable the value false, so that the
    /// assignment is total; assigned variables are untouched.
    pub fn complete(&mut self)
        requires
            old(self).wf(),
        ensures
            final(self).wf(),
            final(self).solution@.len() == old(self).solution@.len(),
            forall|v: int|
                0 <= v < old(self).solution@.len() && (#[trigger] old(self).solution@[v]) is Some
                    ==> final(self).solution@[v] == old(self).solution@[v],
            forall|v: int|
                0 <= v < final(self).solution@.len() ==> (#[trigger] final(self).solution@[v]) is Some,
    {
        let mut v: usize = 0;
        let n = self.solution.len();
        while v < n
            invariant
                v <= self.solution@.len(),
                n == self.solution@.len(),
                self.wf(),
                self.solution@.len() == old(self).solution@.len(),
                forall|v2: int|
                    0 <= v2 < old(self).solution@.len() && (#[trigger] old(self).solution@[v2]) is Some ==> self.solution@[v2] == old(self).solution@[v2],
                forall|v2: int| 0 <= v2 < v ==> (#[trigger] self.solution@[v2]) is Some,
            decreases self.solution@.len() - v,
        {
            let unassigned = match self.solution[v] {
                Some(_) => false,
                None => true,
            };
            if unassigned {
                proof {
                    lemma_count_none_update(self.solution@, v as int, Some(false));
                    lemma_count_none_zero(self.solution@);
                }
                self.solution.set(v, Some(false));
                self.n_unassigned = self.n_unassigned - 1;
            }
            v += 1;
        }
    }
}

/// Solves the formula by backtracking search. On success the returned
/// assignment is total over the declared variables and satisfies every
/// clause that was active at the call; on failure no total assignment
/// over the declared variables satisfies them all.
pub fn dpll(cnf: &mut Cnf) -> (r: Result<PartialSolution, usize>)
    requires
        old(cnf).wf(),
    ensures
        match r {
            Ok(sol) => sol.wf() && sol.solution@.len() == old(cnf).n_lit() && (forall|v: int|
                0 <= v < sol.solution@.len() ==> (#[trigger] sol.solution@[v]) is Some) && (
            forall|i: int|
                #[trigger] old(cnf).model().dom().contains(i) ==> satisfies(
                    sol.solution@,
                    old(cnf).model()[i],
                )),
            Err(e) => (e == usize::MAX || e < old(cnf).total()) && (forall|
                a2: Seq<Option<bool>>,
            |
                a2.len() == old(cnf).n_lit() && total_assign(a2) ==> !sats_all(
                    a2,
                    old(cnf).model(),
                )),
        },
{
    let n = cnf.db.n_lit;
    let mut solution = PartialSolution::new(n);
    let ghost orig = cnf.model();
    let ghost a0 = solution.solution@;
    proof {
        assert(consistent(orig, cnf.model(), solution.solution@)) by {
            assert forall|i: int| #[trigger] orig.dom().contains(i) implies orig[i]
                == crate::model::reduce(orig[i], solution.solution@) && crate::model::no_true_lit(
                solution.solution@,
                orig[i],
            ) by {
                assert(orig[i] =~= crate::model::reduce(orig[i], solution.solution@));
            }
            assert forall|i: int, l: Lit|
                orig.dom().contains(i) && #[trigger] orig[i].contains(l) implies l.var
                < solution.solution@.len() by {
                assert(cnf.db.slots@[i].lits.live().contains(l));
                assert(cnf.db.slots@[i].lits.full().contains(l));
            }
        }
    }
    match _dpll(cnf, &mut solution, Ghost(orig)) {
        Ok(mut sol) => {
            let ghost before = sol.solution@;
            sol.complete();
            proof {
                lemma_extend_preserves(orig, before, sol.solution@);
            }
            Ok(sol)
        },
        Err(e) => {
            proof {
                assert forall|a2: Seq<Option<bool>>|
                    a2.len() == n as int && total_assign(a2) implies !sats_all(a2, orig) by {
                    assert(extends(a2, a0));
                }
            }
            Err(e)
        },
    }
}

/// One node of the search: propagate to fixpoint, eliminate pure
/// literals, then branch on a candidate literal and recurse, restoring
/// the snapshot before trying the complement. On failure, no total
/// assignment extending the entry assignment satisfies the original
/// clauses.
fn _dpll(cnf: &mut Cnf, solution: &mut PartialSolution, Ghost(orig): Ghost<Map<int, Set<Lit>>>) -> (r:
    Result<PartialSolution, usize>)
    requires
        old(cnf).wf(),
        old(solution).wf(),
        old(solution).solution@.len() == old(cnf).n_lit(),
        consistent(orig, old(cnf).model(), old(solution).solution@),
    ensures
        match r {
            Ok(sol) => sol.wf() && sol.solution@.len() == old(cnf).n_lit() && extends(
                sol.solution@,
                old(solution).solution@,
            ) && (forall|i: int|
                #[trigger] orig.dom().contains(i) ==> satisfies(sol.solution@, orig[i])),
            Err(e) => (e == usize::MAX || e < old(cnf).total()) && (forall|
                a2: Seq<Option<bool>>,
            |
                (#[trigger] extends(a2, old(solution).solution@)) && total_assign(a2)
                    ==> !sats_all(a2, orig)),
        },
    decreases old(solution).n_unassigned,
{
    let ghost e0 = old(solution).n_unassigned as int;
    let ghost n0 = old(cnf).n_lit();
    let ghost t0 = old(cnf).total();
    let ghost a0 = old(solution).solution@;
    proof {
        lemma_reach_refl(orig, a0);
        crate::model::lemma_extends_refl(a0);
    }
    if cnf.num_clause() == 0 {
        proof {
            lemma_solved(orig, cnf.model(), solution.solution@);
        }
        return Ok(solution.snapshot());
    }
    // unit propagation to fixpoint
    let unit_lits = match cnf.unit_propagations() {
        Ok(l) => l,
        Err(e) => {
            proof {
                let (lits, l) = choose|lits: Seq<Lit>, l: Lit|
                    units_chain(old(cnf).model(), lits) && (exists|i: int|
                        #[trigger] propagate_seq(old(cnf).model(), lits).dom().contains(i)
                            && propagate_seq(old(cnf).model(), lits)[i] == set![l])
                        && #[trigger] crate::model::conflicts(
                        propagate_seq(old(cnf).model(), lits),
                        l,
                    );
                lemma_reach_conflict(orig, a0, old(cnf).model(), a0, lits, l);
            }
            return Err(e);
        },
    };
    let ghost m0 = old(cnf).model();
    let ghost mut mk = m0;
    proof {
        assert(unit_lits@.skip(0) =~= unit_lits@);
    }
    let mut k: usize = 0;
    while k < unit_lits.len()
        invariant
            cnf.wf(),
            cnf.n_lit() == n0,
            cnf.total() == t0,
            solution.wf(),
            solution.solution@.len() == n0,
            solution.n_unassigned <= e0,
            k <= unit_lits@.len(),
            consistent(orig, mk, solution.solution@),
            units_chain(mk, unit_lits@.skip(k as int)),
            propagate_seq(mk, unit_lits@.skip(k as int)) == cnf.model(),
            reachable(orig, a0, solution.solution@),
            extends(solution.solution@, a0),
            forall|i: int|
                cnf.model().dom().contains(i) ==> (#[trigger] cnf.db.slots@[i]).lits.width() != 1,
        decreases unit_lits@.len() - k,
    {
        let l = unit_lits[k];
        let ghost a_pre = solution.solution@;
        proof {
            assert(unit_lits@.skip(k as int)[0] == l);
            let i = choose|i: int| #[trigger] mk.dom().contains(i) && mk[i] == set![l];
            assert(mk[i].contains(l)) by {
                assert(set![l].contains(l));
            }
            lemma_in_active_unassigned(orig, mk, solution.solution@, i, l);
            lemma_reach_unit(orig, a0, mk, a_pre, l);
            crate::model::lemma_extends_assign(a0, a_pre, l.var as int, Some(!l.neg));
        }
        solution.assign_lit(l);
        proof {
            lemma_propagate_consistent(orig, mk, a_pre, l);
            mk = propagated(mk, l);
            assert(unit_lits@.skip(k as int).skip(1) =~= unit_lits@.skip(k + 1int));
        }
        k += 1;
    }
    proof {
        assert(unit_lits@.skip(unit_lits@.len() as int) =~= Seq::<Lit>::empty());
        assert(mk == cnf.model());
        crate::clause_db::lemma_no_units_no_conflicts(cnf.db);
    }
    // pure literal elimination
    let pure = cnf.pure_literals();
    proof {
        assert forall|q: int|
            0 <= q < pure@.len() implies solution.solution@[(#[trigger] pure@[q]).var as int]
            is None by {
            let i = choose|i: int|
                #[trigger] cnf.model().dom().contains(i) && cnf.model()[i].contains(pure@[q]);
            lemma_in_active_unassigned(orig, cnf.model(), solution.solution@, i, pure@[q]);
        }
        assert forall|q: int| 0 <= q < pure@.len() implies !crate::model::occurs_in(
            cnf.model(),
            (#[trigger] pure@[q]).spec_negate(),
        ) by {
            if crate::model::occurs_in(cnf.model(), pure@[q].spec_negate()) {
                let i = choose|i: int|
                    #[trigger] cnf.model().dom().contains(i) && cnf.model()[i].contains(
                        pure@[q].spec_negate(),
                    );
                assert(cnf.occurs(pure@[q].spec_negate()));
            }
        }
    }
    let mut p: usize = 0;
    while p < pure.len()
        invariant
            cnf.wf(),
            cnf.n_lit() == n0,
            cnf.total() == t0,
            solution.wf(),
            solution.solution@.len() == n0,
            solution.n_unassigned <= e0,
            p <= pure@.len(),
            consistent(orig, cnf.model(), solution.solution@),
            reachable(orig, a0, solution.solution@),
            extends(solution.solution@, a0),
            forall|l: Lit| !(#[trigger] crate::model::conflicts(cnf.model(), l)),
            forall|q: int| 0 <= q < pure@.len() ==> (#[trigger] pure@[q]).var < n0,
            forall|q1: int, q2: int|
                0 <= q1 < q2 < pure@.len() ==> (#[trigger] pure@[q1]).var != (
                #[trigger] pure@[q2]).var,
            forall|q: int|
                p <= q < pure@.len() ==> solution.solution@[(#[trigger] pure@[q]).var as int]
                    is None,
            forall|q: int|
                p <= q < pure@.len() ==> !crate::model::occurs_in(
                    cnf.model(),
                    (#[trigger] pure@[q]).spec_negate(),
                ),
        decreases pure@.len() - p,
    {
        let l = pure[p];
        let ghost a_pre = solution.solution@;
        let ghost m_pre = cnf.model();
        proof {
            crate::model::lemma_pure_step(m_pre, l);
            lemma_reach_pure(orig, a0, m_pre, a_pre, l);
            crate::model::lemma_extends_assign(a0, a_pre, l.var as int, Some(!l.neg));
        }
        solution.assign_lit(l);
        match cnf.propagation(l) {
            Ok(()) => {
                proof {
                    lemma_propagate_consistent(orig, m_pre, a_pre, l);
                    assert forall|x: Lit| !(#[trigger] crate::model::conflicts(
                        cnf.model(),
                        x,
                    )) by {
                        if crate::model::conflicts(cnf.model(), x) {
                            assert(crate::model::conflicts(m_pre, x));
                        }
                    }
                    assert forall|q: int|
                        p + 1 <= q < pure@.len() implies !crate::model::occurs_in(
                        cnf.model(),
                        (#[trigger] pure@[q]).spec_negate(),
                    ) by {
                        if crate::model::occurs_in(cnf.model(), pure@[q].spec_negate()) {
                            assert(crate::model::occurs_in(m_pre, pure@[q].spec_negate()));
                        }
                    }
                }
            },
            Err(e) => {
                // unreachable: a pure literal's complement is in no clause,
                // so propagating it cannot empty one
                proof {
                    assert(false);
                }
                return Err(e);
            },
        }
        p += 1;
    }
    // terminal checks
    let no_occ = cnf.no_occurrences();
    if no_occ {
        if cnf.num_clause() == 0 {
            proof {
                lemma_solved(orig, cnf.model(), solution.solution@);
            }
            return Ok(solution.snapshot());
        } else {
            proof {
                assert(exists|i: int| #[trigger] cnf.model().dom().contains(i)) by {
                    if forall|i: int| !(#[trigger] cnf.model().dom().contains(i)) {
                        assert(cnf.model().dom() =~= Set::<int>::empty());
                    }
                }
                let i = choose|i: int| #[trigger] cnf.model().dom().contains(i);
                assert(cnf.model()[i] =~= Set::<Lit>::empty()) by {
                    assert forall|x: Lit| !(#[trigger] cnf.model()[i].contains(x)) by {
                        if cnf.model()[i].contains(x) {
                            assert(cnf.occurs(x));
                        }
                    }
                }
                lemma_reach_dead(orig, a0, cnf.model(), solution.solution@);
            }
            return Err(usize::MAX);
        }
    }
    // branch
    let guess = match cnf.next_guess(Strategy::Direct) {
        Some(l) => l,
        None => {
            proof {
                let w = choose|w: Lit| #[trigger] cnf.occurs(w);
                assert(false);
            }
            return Err(usize::MAX);
        },
    };
    proof {
        if cnf.occurs(guess) {
            let i = choose|i: int|
                #[trigger] cnf.model().dom().contains(i) && cnf.model()[i].contains(guess);
            lemma_in_active_unassigned(orig, cnf.model(), solution.solution@, i, guess);
        } else {
            let i = choose|i: int|
                #[trigger] cnf.model().dom().contains(i) && cnf.model()[i].contains(
                    guess.spec_negate(),
                );
            lemma_in_active_unassigned(
                orig,
                cnf.model(),
                solution.solution@,
                i,
                guess.spec_negate(),
            );
        }
    }
    let saved_cnf = cnf.snapshot();
    let saved_sol = solution.snapshot();
    let ghost a_pre = solution.solution@;
    let ghost m_pre = cnf.model();
    proof {
        crate::model::lemma_extends_assign(a0, a_pre, guess.var as int, Some(!guess.neg));
    }
    solution.assign_lit(guess);
    let ghost a_g = solution.solution@;
    match cnf.propagation(guess) {
        Ok(()) => {
            proof {
                lemma_propagate_consistent(orig, m_pre, a_pre, guess);
            }
        },
        Err(e) => {
            // unreachable: after propagation to fixpoint no one-literal
            // clause remains, so no branch literal can conflict at once
            proof {
                assert(false);
            }
            return Err(e);
        },
    }
    if cnf.num_clause() == 0 && cnf.no_occurrences() {
        proof {
            lemma_solved(orig, cnf.model(), solution.solution@);
        }
        return Ok(solution.snapshot());
    }
    match _dpll(cnf, solution, Ghost(orig)) {
        Ok(sol) => {
            proof {
                crate::model::lemma_extends_trans(a0, a_g, sol.solution@);
            }
            Ok(sol)
        },
        Err(_first) => {
            *cnf = saved_cnf;
            *solution = saved_sol;
            let gn = guess.negate();
            let ghost a_pre2 = solution.solution@;
            let ghost m_pre2 = cnf.model();
            match cnf.propagation(gn) {
                Ok(()) => {},
                Err(e) => {
                    // unreachable: the restored state is the fixpoint state,
                    // where no one-literal clause remains
                    proof {
                        assert(crate::model::conflicts(m_pre, gn));
                        assert(false);
                    }
                    return Err(e);
                },
            }
            proof {
                crate::model::lemma_extends_assign(a0, a_pre2, gn.var as int, Some(!gn.neg));
            }
            solution.assign_lit(gn);
            let ghost a_n = solution.solution@;
            proof {
                lemma_propagate_consistent(orig, m_pre2, a_pre2, gn);
            }
            match _dpll(cnf, solution, Ghost(orig)) {
                Ok(sol) => {
                    proof {
                        crate::model::lemma_extends_trans(a0, a_n, sol.solution@);
                    }
                    Ok(sol)
                },
                Err(e2) => {
                    proof {
                        assert forall|a2: Seq<Option<bool>>|
                            (#[trigger] extends(a2, a0)) && total_assign(a2) implies !sats_all(
                            a2,
                            orig,
                        ) by {
                            if sats_all(a2, orig) {
                                let a3 = choose|a3: Seq<Option<bool>>|
                                    (#[trigger] extends(a3, a_pre)) && total_assign(a3)
                                        && sats_all(a3, orig);
                                assert(a3[guess.var as int] is Some);
                                if a3[guess.var as int] == Some(!guess.neg) {
                                    assert(extends(a3, a_g)) by {
                                        assert forall|v: int|
                                            0 <= v < a_g.len() && (#[trigger] a_g[v])
                                                is Some implies a3[v] == a_g[v] by {
                                            if v != guess.var as int {
                                                assert(a_pre[v] == a_g[v]);
                                            }
                                        }
                                    }
                                    assert(!sats_all(a3, orig));
                                } else {
                                    assert(a3[guess.var as int] == Some(guess.neg));
                                    assert(extends(a3, a_n)) by {
                                        assert forall|v: int|
                                            0 <= v < a_n.len() && (#[trigger] a_n[v])
                                                is Some implies a3[v] == a_n[v] by {
                                            if v != guess.var as int {
                                                assert(a_pre2[v] == a_n[v]);
                                            } else {
                                                assert(a_n[v] == Some(!gn.neg));
                                            }
                                        }
                                    }
                                    assert(!sats_all(a3, orig));
                                }
                            }
                        }
                    }
                    Err(e2)
                },
            }
        },
    }
}

} // verus!
