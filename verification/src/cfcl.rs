//! The learning search driver: the same backtracking control structure
//! as the plain driver, but decisions are recorded on the graph variant's
//! decision stack, and each conflict with a located clause id yields a
//! learned clause, collected in a log that is returned alongside the
//! assignment. Learned clauses are reported, not reinserted into the
//! active clause set.

use vstd::prelude::*;

use crate::clause::Clause;
use crate::cnf_graph::CnfGraph;
use crate::dpll::PartialSolution;
use crate::lit::Lit;
use crate::model::{
    consistent, extends, lemma_extend_preserves, lemma_in_active_unassigned,
    lemma_propagate_consistent, lemma_reach_conflict, lemma_reach_dead, lemma_reach_pure,
    lemma_reach_refl, lemma_reach_unit, lemma_solved, propagate_seq, propagated, reachable,
    satisfies, sats_all, total_assign, units_chain,
};
use crate::Strategy;

verus! {

/// Solves the formula by backtracking search with conflict learning. On
/// success the returned assignment is total over the declared variables
/// and satisfies every clause that was active at the call, and the
/// clauses learned along the way are returned with it; on failure no
/// total assignment over the declared variables satisfies them all.
pub fn cfcl(cnf: &mut CnfGraph) -> (r: Result<(PartialSolution, Vec<Clause>), usize>)
    requires
        old(cnf).wf(),
    ensures
        match r {
            Ok(p) => p.0.wf() && p.0.solution@.len() == old(cnf).n_lit() && (forall|v: int|
                0 <= v < p.0.solution@.len() ==> (#[trigger] p.0.solution@[v]) is Some) && (
            forall|i: int|
                #[trigger] old(cnf).model().dom().contains(i) ==> satisfies(
                    p.0.solution@,
                    old(cnf).model()[i],
                )) && (forall|k: int, j: int|
                0 <= k < p.1@.len() && 0 <= j < p.1@[k].0@.len() ==> (#[trigger] p.1@[k].0@[j]).var < old(cnf).n_lit()) && (forall|k: int|
                0 <= k < p.1@.len() ==> (#[trigger] p.1@[k]).0@.len() >= 1) && (forall|
                k: int,
                j1: int,
                j2: int,
            |
                0 <= k < p.1@.len() && 0 <= j1 < j2 < p.1@[k].0@.len() ==> (#[trigger] p.1@[k].0@[j1]) != (#[trigger] p.1@[k].0@[j2])),
            Err(e) => (e == usize::MAX || e < old(cnf).total()) && (forall|
                a2: Seq<Option<bool>>,
            |
                a2.len() == old(cnf).n_lit() && total_assign(a2) ==> !sats_all(
                    a2,
                    old(cnf).model(),
                )),
        },
        final(cnf).total() == old(cnf).total(),
{
    let n = cnf.db.n_lit;
    let mut solution = PartialSolution::new(n);
    let mut learnt: Vec<Clause> = Vec::new();
    let ghost orig = cnf.model();
    let ghost a0 = solution.solution@;
    proof {
        assert(consistent(orig, cnf.model(), solution.solution@)) by {
            assert forall|i: int| #[trigger] orig.dom().contains(i) implies orig[i]
                == crate::model::reduce(orig[i], solution.solution@) && crate::model::no_true_lit(
                solution.solution@,
                orig[i],
            ) by {
                assert(orig[i] =~= crate::model::reduce(orig[i], solution.solution@));
            }
            assert forall|i: int, l: Lit|
                orig.dom().contains(i) && #[trigger] orig[i].contains(l) implies l.var
                < solution.solution@.len() by {
                assert(cnf.db.slots@[i].lits.live().contains(l));
                assert(cnf.db.slots@[i].lits.full().contains(l));
            }
        }
    }
    match _cfcl(cnf, &mut solution, &mut learnt, Ghost(orig)) {
        Ok(mut sol) => {
            let ghost before = sol.solution@;
            sol.complete();
            proof {
                lemma_extend_preserves(orig, before, sol.solution@);
            }
            Ok((sol, learnt))
        },
        Err(e) => {
            proof {
                assert forall|a2: Seq<Option<bool>>|
                    a2.len() == n as int && total_assign(a2) implies !sats_all(a2, orig) by {
                    assert(extends(a2, a0));
                }
            }
            Err(e)
        },
    }
}

/// Runs unit propagation to fixpoint and pure-literal elimination,
/// recording every forced literal in the assignment; fails when a clause
/// empties or when no literal occurs while clauses remain, and then no
/// total assignment extending the entry assignment satisfies the
/// original clauses.
fn propagate(
    cnf: &mut CnfGraph,
    solution: &mut PartialSolution,
    Ghost(orig): Ghost<Map<int, Set<Lit>>>,
) -> (r: Result<(), usize>)
    requires
        old(cnf).wf(),
        old(solution).wf(),
        old(solution).solution@.len() == old(cnf).n_lit(),
        consistent(orig, old(cnf).model(), old(solution).solution@),
    ensures
        final(cnf).n_lit() == old(cnf).n_lit(),
        final(cnf).max_lit == old(cnf).max_lit,
        final(cnf).total() == old(cnf).total(),
        final(cnf).guessed@ == old(cnf).guessed@,
        final(cnf).wf_core(),
        final(solution).wf(),
        final(solution).solution@.len() == old(solution).solution@.len(),
        final(solution).n_unassigned <= old(solution).n_unassigned,
        extends(final(solution).solution@, old(solution).solution@),
        match r {
            Ok(()) => final(cnf).wf() && consistent(
                orig,
                final(cnf).model(),
                final(solution).solution@,
            ) && reachable(orig, old(solution).solution@, final(solution).solution@) && (forall|
                l: Lit,
            | !(#[trigger] crate::model::conflicts(final(cnf).model(), l))),
            Err(e) => (e == usize::MAX || e < old(cnf).total()) && (e == usize::MAX ==> (forall|
                l: Lit,
            |
                !(#[trigger] final(cnf).occurs(l))) && (exists|i: int|
                #[trigger] final(cnf).model().dom().contains(i))) && (forall|
                a2: Seq<Option<bool>>,
            |
                (#[trigger] extends(a2, old(solution).solution@)) && total_assign(a2)
                    ==> !sats_all(a2, orig)),
        },
{
    let ghost e0 = old(solution).n_unassigned as int;
    let ghost n0 = old(cnf).n_lit();
    let ghost t0 = old(cnf).total();
    let ghost a0 = old(solution).solution@;
    let ids_assigned = cnf.db.total();
    proof {
        lemma_reach_refl(orig, a0);
        crate::model::lemma_extends_refl(a0);
        assert(ids_assigned as int == t0);
    }
    if cnf.num_clause() == 0 {
        proof {
            assert forall|l: Lit| !(#[trigger] crate::model::conflicts(cnf.model(), l)) by {
                if crate::model::conflicts(cnf.model(), l) {
                    let i = choose|i: int|
                        #[trigger] cnf.model().dom().contains(i) && cnf.model()[i] == set![l.spec_negate()];
                }
            }
        }
        return Ok(());
    }
    let unit_lits = match cnf.unit_propagations() {
        Ok(l) => l,
        Err(e) => {
            proof {
                let (lits, l) = choose|lits: Seq<Lit>, l: Lit|
                    units_chain(old(cnf).model(), lits) && (exists|i: int|
                        #[trigger] propagate_seq(old(cnf).model(), lits).dom().contains(i)
                            && propagate_seq(old(cnf).model(), lits)[i] == set![l])
                        && #[trigger] crate::model::conflicts(
                        propagate_seq(old(cnf).model(), lits),
                        l,
                    );
                lemma_reach_conflict(orig, a0, old(cnf).model(), a0, lits, l);
            }
            return Err(e);
        },
    };
    let ghost m0 = old(cnf).model();
    let ghost mut mk = m0;
    proof {
        assert(unit_lits@.skip(0) =~= unit_lits@);
    }
    let mut k: usize = 0;
    while k < unit_lits.len()
        invariant
            cnf.wf(),
            cnf.n_lit() == n0,
            cnf.max_lit == old(cnf).max_lit,
            cnf.total() == t0,
            cnf.guessed@ == old(cnf).guessed@,
            solution.wf(),
            solution.solution@.len() == n0,
            solution.n_unassigned <= e0,
            k <= unit_lits@.len(),
            consistent(orig, mk, solution.solution@),
            units_chain(mk, unit_lits@.skip(k as int)),
            propagate_seq(mk, unit_lits@.skip(k as int)) == cnf.model(),
            reachable(orig, a0, solution.solution@),
            extends(solution.solution@, a0),
            forall|i: int|
                cnf.model().dom().contains(i) ==> (#[trigger] cnf.db.slots@[i]).lits.width() != 1,
        decreases unit_lits@.len() - k,
    {
        let l = unit_lits[k];
        let ghost a_pre = solution.solution@;
        proof {
            assert(unit_lits@.skip(k as int)[0] == l);
            let i = choose|i: int| #[trigger] mk.dom().contains(i) && mk[i] == set![l];
            assert(mk[i].contains(l)) by {
                assert(set![l].contains(l));
            }
            lemma_in_active_unassigned(orig, mk, solution.solution@, i, l);
            lemma_reach_unit(orig, a0, mk, a_pre, l);
            crate::model::lemma_extends_assign(a0, a_pre, l.var as int, Some(!l.neg));
        }
        solution.assign_lit(l);
        proof {
            lemma_propagate_consistent(orig, mk, a_pre, l);
            mk = propagated(mk, l);
            assert(unit_lits@.skip(k as int).skip(1) =~= unit_lits@.skip(k + 1int));
        }
        k += 1;
    }
    proof {
        assert(unit_lits@.skip(unit_lits@.len() as int) =~= Seq::<Lit>::empty());
        assert(mk == cnf.model());
        crate::clause_db::lemma_no_units_no_conflicts(cnf.db);
    }
    let pure = cnf.pure_literals();
    proof {
        assert forall|q: int|
            0 <= q < pure@.len() implies solution.solution@[(#[trigger] pure@[q]).var as int]
            is None by {
            let i = choose|i: int|
                #[trigger] cnf.model().dom().contains(i) && cnf.model()[i].contains(pure@[q]);
            lemma_in_active_unassigned(orig, cnf.model(), solution.solution@, i, pure@[q]);
        }
        assert forall|q: int| 0 <= q < pure@.len() implies !crate::model::occurs_in(
            cnf.model(),
            (#[trigger] pure@[q]).spec_negate(),
        ) by {
            if crate::model::occurs_in(cnf.model(), pure@[q].spec_negate()) {
                let i = choose|i: int|
                    #[trigger] cnf.model().dom().contains(i) && cnf.model()[i].contains(
                        pure@[q].spec_negate(),
                    );
                assert(cnf.occurs(pure@[q].spec_negate()));
            }
        }
    }
    let mut p: usize = 0;
    while p < pure.len()
        invariant
            cnf.wf(),
            cnf.n_lit() == n0,
            cnf.max_lit == old(cnf).max_lit,
            cnf.total() == t0,
            cnf.guessed@ == old(cnf).guessed@,
            solution.wf(),
            solution.solution@.len() == n0,
            solution.n_unassigned <= e0,
            p <= pure@.len(),
            consistent(orig, cnf.model(), solution.solution@),
            reachable(orig, a0, solution.solution@),
            extends(solution.solution@, a0),
            forall|l: Lit| !(#[trigger] crate::model::conflicts(cnf.model(), l)),
            forall|q: int| 0 <= q < pure@.len() ==> (#[trigger] pure@[q]).var < n0,
            forall|q1: int, q2: int|
                0 <= q1 < q2 < pure@.len() ==> (#[trigger] pure@[q1]).var != (
                #[trigger] pure@[q2]).var,
            forall|q: int|
                p <= q < pure@.len() ==> solution.solution@[(#[trigger] pure@[q]).var as int]
                    is None,
            forall|q: int|
                p <= q < pure@.len() ==> !crate::model::occurs_in(
                    cnf.model(),
                    (#[trigger] pure@[q]).spec_negate(),
                ),
        decreases pure@.len() - p,
    {
        let l = pure[p];
        let ghost a_pre = solution.solution@;
        let ghost m_pre = cnf.model();
        proof {
            crate::model::lemma_pure_step(m_pre, l);
            lemma_reach_pure(orig, a0, m_pre, a_pre, l);
            crate::model::lemma_extends_assign(a0, a_pre, l.var as int, Some(!l.neg));
        }
        solution.assign_lit(l);
        match cnf.propagation(l) {
            Ok(()) => {
                proof {
                    lemma_propagate_consistent(orig, m_pre, a_pre, l);
                    assert forall|x: Lit| !(#[trigger] crate::model::conflicts(
                        cnf.model(),
                        x,
                    )) by {
                        if crate::model::conflicts(cnf.model(), x) {
                            assert(crate::model::conflicts(m_pre, x));
                        }
                    }
                    assert forall|q: int|
                        p + 1 <= q < pure@.len() implies !crate::model::occurs_in(
                        cnf.model(),
                        (#[trigger] pure@[q]).spec_negate(),
                    ) by {
                        if crate::model::occurs_in(cnf.model(), pure@[q].spec_negate()) {
                            assert(crate::model::occurs_in(m_pre, pure@[q].spec_negate()));
                        }
                    }
                }
            },
            Err(e) => {
                // unreachable: a pure literal's complement is in no clause,
                // so propagating it cannot empty one
                proof {
                    assert(false);
                }
                return Err(e);
            },
        }
        p += 1;
    }
    let no_occ = cnf.no_occurrences();
    if no_occ {
        if cnf.num_clause() == 0 {
            return Ok(());
        } else {
            proof {
                assert(exists|i: int| #[trigger] cnf.model().dom().contains(i)) by {
                    if forall|i: int| !(#[trigger] cnf.model().dom().contains(i)) {
                        assert(cnf.model().dom() =~= Set::<int>::empty());
                    }
                }
                let i = choose|i: int| #[trigger] cnf.model().dom().contains(i);
                assert(cnf.model()[i] =~= Set::<Lit>::empty()) by {
                    assert forall|x: Lit| !(#[trigger] cnf.model()[i].contains(x)) by {
                        if cnf.model()[i].contains(x) {
                            assert(cnf.occurs(x));
                        }
                    }
                }
                lemma_reach_dead(orig, a0, cnf.model(), solution.solution@);
            }
            return Err(usize::MAX);
        }
    }
    Ok(())
}

/// One node of the learning search: propagate, then branch on a recorded
/// decision and recurse; on a located conflict below, derive a learned
/// clause before restoring the snapshot and trying the complement. On
/// failure, no total assignment extending the entry assignment satisfies
/// the original clauses.
fn _cfcl(
    cnf: &mut CnfGraph,
    solution: &mut PartialSolution,
    learned_clauses: &mut Vec<Clause>,
    Ghost(orig): Ghost<Map<int, Set<Lit>>>,
) -> (r: Result<PartialSolution, usize>)
    requires
        old(cnf).wf(),
        old(solution).wf(),
        old(solution).solution@.len() == old(cnf).n_lit(),
        consistent(orig, old(cnf).model(), old(solution).solution@),
        forall|k: int, j: int|
            0 <= k < old(learned_clauses)@.len() && 0 <= j < old(learned_clauses)@[k].0@.len()
                ==> (#[trigger] old(learned_clauses)@[k].0@[j]).var < old(cnf).n_lit(),
        forall|k: int| 0 <= k < old(learned_clauses)@.len() ==> (#[trigger] old(learned_clauses)@[k]).0@.len() >= 1,
        forall|k: int, j1: int, j2: int|
            0 <= k < old(learned_clauses)@.len() && 0 <= j1 < j2 < old(learned_clauses)@[k].0@.len() ==> (#[trigger] old(learned_clauses)@[k].0@[j1]) != (#[trigger] old(learned_clauses)@[k].0@[j2]),
    ensures
        final(cnf).wf_core(),
        final(cnf).n_lit() == old(cnf).n_lit(),
        final(cnf).max_lit == old(cnf).max_lit,
        final(cnf).total() == old(cnf).total(),
        final(cnf).guessed@.len() >= old(cnf).guessed@.len(),
        forall|k: int, j: int|
            0 <= k < final(learned_clauses)@.len() && 0 <= j < final(learned_clauses)@[k].0@.len() ==> (#[trigger] final(learned_clauses)@[k].0@[j]).var < old(cnf).n_lit(),
        forall|k: int|
            0 <= k < final(learned_clauses)@.len() ==> (#[trigger] final(learned_clauses)@[k]).0@.len() >= 1,
        forall|k: int, j1: int, j2: int|
            0 <= k < final(learned_clauses)@.len() && 0 <= j1 < j2 < final(learned_clauses)@[k].0@.len() ==> (#[trigger] final(learned_clauses)@[k].0@[j1]) != (
            #[trigger] final(learned_clauses)@[k].0@[j2]),
        match r {
            Ok(sol) => sol.wf() && sol.solution@.len() == old(cnf).n_lit() && extends(
                sol.solution@,
                old(solution).solution@,
            ) && (forall|i: int|
                #[trigger] orig.dom().contains(i) ==> satisfies(sol.solution@, orig[i])),
            Err(e) => (e == usize::MAX || e < old(cnf).total()) && (forall|
                a2: Seq<Option<bool>>,
            |
                (#[trigger] extends(a2, old(solution).solution@)) && total_assign(a2)
                    ==> !sats_all(a2, orig)),
        },
    decreases old(solution).n_unassigned,
{
    let ghost a0 = old(solution).solution@;
    match propagate(cnf, solution, Ghost(orig)) {
        Ok(()) => {},
        Err(e) => {
            return Err(e);
        },
    }
    if cnf.num_clause() == 0 {
        proof {
            lemma_solved(orig, cnf.model(), solution.solution@);
        }
        return Ok(solution.snapshot());
    }
    let guess = match cnf.next_guess(Strategy::Direct) {
        Some(l) => l,
        None => {
            proof {
                assert(exists|i: int| #[trigger] cnf.model().dom().contains(i)) by {
                    if forall|i: int| !(#[trigger] cnf.model().dom().contains(i)) {
                        assert(cnf.model().dom() =~= Set::<int>::empty());
                    }
                }
                let i = choose|i: int| #[trigger] cnf.model().dom().contains(i);
                assert(cnf.model()[i] =~= Set::<Lit>::empty()) by {
                    assert forall|x: Lit| !(#[trigger] cnf.model()[i].contains(x)) by {
                        if cnf.model()[i].contains(x) {
                            assert(cnf.occurs(x));
                        }
                    }
                }
                lemma_reach_dead(orig, a0, cnf.model(), solution.solution@);
            }
            return Err(usize::MAX);
        },
    };
    proof {
        if cnf.occurs(guess) {
            let i = choose|i: int|
                #[trigger] cnf.model().dom().contains(i) && cnf.model()[i].contains(guess);
            lemma_in_active_unassigned(orig, cnf.model(), solution.solution@, i, guess);
        } else {
            let i = choose|i: int|
                #[trigger] cnf.model().dom().contains(i) && cnf.model()[i].contains(
                    guess.spec_negate(),
                );
            lemma_in_active_unassigned(
                orig,
                cnf.model(),
                solution.solution@,
                i,
                guess.spec_negate(),
            );
        }
    }
    let saved_cnf = cnf.snapshot();
    let saved_sol = solution.snapshot();
    cnf.make_guess(guess);
    let ghost a_pre = solution.solution@;
    let ghost m_pre = cnf.model();
    proof {
        crate::model::lemma_extends_assign(a0, a_pre, guess.var as int, Some(!guess.neg));
    }
    solution.assign_lit(guess);
    let ghost a_g = solution.solution@;
    match cnf.propagation(guess) {
        Ok(()) => {
            proof {
                lemma_propagate_consistent(orig, m_pre, a_pre, guess);
            }
        },
        Err(e) => {
            // unreachable: after propagation to fixpoint no one-literal
            // clause remains, so no branch literal can conflict at once
            proof {
                assert(false);
            }
            return Err(e);
        },
    }
    if cnf.num_clause() == 0 && cnf.no_occurrences() {
        proof {
            lemma_solved(orig, cnf.model(), solution.solution@);
        }
        return Ok(solution.snapshot());
    }
    match _cfcl(cnf, solution, learned_clauses, Ghost(orig)) {
        Ok(sol) => {
            proof {
                crate::model::lemma_extends_trans(a0, a_g, sol.solution@);
            }
            Ok(sol)
        },
        Err(first_id) => {
            if first_id != usize::MAX {
                match cnf.learn_from_conflict(first_id) {
                    Some(c) => {
                        let ghost lc_pre = learned_clauses@;
                        learned_clauses.push(c);

                    proof {
                        assert forall|k: int|
                            0 <= k < learned_clauses@.len() implies (#[trigger] learned_clauses@[
                            k]).0@.len() >= 1 by {
                            if k < lc_pre.len() {
                                assert(learned_clauses@[k] == lc_pre[k]);
                            } else {
                                assert(learned_clauses@[k] == c);
                            }
                        }
                        assert forall|k: int, j1: int, j2: int|
                            0 <= k < learned_clauses@.len() && 0 <= j1 < j2 < learned_clauses@[
                            k].0@.len() implies (#[trigger] learned_clauses@[k].0@[j1]) != (
                        #[trigger] learned_clauses@[k].0@[j2]) by {
                            if k < lc_pre.len() {
                                assert(learned_clauses@[k] == lc_pre[k]);
                                assert(lc_pre[k].0@[j1] != lc_pre[k].0@[j2]);
                            } else {
                                assert(learned_clauses@[k] == c);
                            }
                        }
                        assert forall|k: int, j: int|
                            0 <= k < learned_clauses@.len() && 0 <= j < learned_clauses@[
                            k].0@.len() implies (#[trigger] learned_clauses@[k].0@[j]).var < old(
                            cnf,
                        ).n_lit() by {
                            if k < lc_pre.len() {
                                assert(learned_clauses@[k] == lc_pre[k]);
                                assert(lc_pre[k].0@[j].var < old(cnf).n_lit());
                            } else {
                                assert(learned_clauses@[k] == c);
                            }
                        }
                    }
                    },
                    None => {},
                }
            }
            *cnf = saved_cnf;
            *solution = saved_sol;
            let gn = guess.negate();
            cnf.make_guess(gn);
            let ghost a_pre2 = solution.solution@;
            let ghost m_pre2 = cnf.model();
            match cnf.propagation(gn) {
                Ok(()) => {},
                Err(e) => {
                    // unreachable: the restored state is the fixpoint state,
                    // where no one-literal clause remains
                    proof {
                        assert(crate::model::conflicts(m_pre, gn));
                        assert(false);
                    }
                    return Err(e);
                },
            }
            proof {
                crate::model::lemma_extends_assign(a0, a_pre2, gn.var as int, Some(!gn.neg));
            }
            solution.assign_lit(gn);
            let ghost a_n = solution.solution@;
            proof {
                lemma_propagate_consistent(orig, m_pre2, a_pre2, gn);
            }
            match _cfcl(cnf, solution, learned_clauses, Ghost(orig)) {
                Ok(sol) => {
                    proof {
                        crate::model::lemma_extends_trans(a0, a_n, sol.solution@);
                    }
                    Ok(sol)
                },
                Err(second_id) => {
                    if second_id != usize::MAX {
                        match cnf.learn_from_conflict(second_id) {
                            Some(c) => {
                                let ghost lc_pre = learned_clauses@;
                                learned_clauses.push(c);

                    proof {
                        assert forall|k: int|
                            0 <= k < learned_clauses@.len() implies (#[trigger] learned_clauses@[
                            k]).0@.len() >= 1 by {
                            if k < lc_pre.len() {
                                assert(learned_clauses@[k] == lc_pre[k]);
                            } else {
                                assert(learned_clauses@[k] == c);
                            }
                        }
                        assert forall|k: int, j1: int, j2: int|
                            0 <= k < learned_clauses@.len() && 0 <= j1 < j2 < learned_clauses@[
                            k].0@.len() implies (#[trigger] learned_clauses@[k].0@[j1]) != (
                        #[trigger] learned_clauses@[k].0@[j2]) by {
                            if k < lc_pre.len() {
                                assert(learned_clauses@[k] == lc_pre[k]);
                                assert(lc_pre[k].0@[j1] != lc_pre[k].0@[j2]);
                            } else {
                                assert(learned_clauses@[k] == c);
                            }
                        }
                        assert forall|k: int, j: int|
                            0 <= k < learned_clauses@.len() && 0 <= j < learned_clauses@[
                            k].0@.len() implies (#[trigger] learned_clauses@[k].0@[j]).var < old(
                            cnf,
                        ).n_lit() by {
                            if k < lc_pre.len() {
                                assert(learned_clauses@[k] == lc_pre[k]);
                                assert(lc_pre[k].0@[j].var < old(cnf).n_lit());
                            } else {
                                assert(learned_clauses@[k] == c);
                            }
                        }
                    }
                            },
                            None => {},
                        }
                    }
                    proof {
                        assert forall|a2: Seq<Option<bool>>|
                            (#[trigger] extends(a2, a0)) && total_assign(a2) implies !sats_all(
                            a2,
                            orig,
                        ) by {
                            if sats_all(a2, orig) {
                                let a3 = choose|a3: Seq<Option<bool>>|
                                    (#[trigger] extends(a3, a_pre)) && total_assign(a3)
                                        && sats_all(a3, orig);
                                assert(a3[guess.var as int] is Some);
                                if a3[guess.var as int] == Some(!guess.neg) {
                                    assert(extends(a3, a_g)) by {
                                        assert forall|v: int|
                                            0 <= v < a_g.len() && (#[trigger] a_g[v])
                                                is Some implies a3[v] == a_g[v] by {
                                            if v != guess.var as int {
                                                assert(a_pre[v] == a_g[v]);
                                            }
                                        }
                                    }
                                    assert(!sats_all(a3, orig));
                                } else {
                                    assert(a3[guess.var as int] == Some(guess.neg));
                                    assert(extends(a3, a_n)) by {
                                        assert forall|v: int|
                                            0 <= v < a_n.len() && (#[trigger] a_n[v])
                                                is Some implies a3[v] == a_n[v] by {
                                            if v != guess.var as int {
                                                assert(a_pre2[v] == a_n[v]);
                                            } else {
                                                assert(a_n[v] == Some(!gn.neg));
                                            }
                                        }
                                    }
                                    assert(!sats_all(a3, orig));
                                }
                            }
                        }
                    }
                    Err(second_id)
                },
            }
        },
    }
}

} // verus!
