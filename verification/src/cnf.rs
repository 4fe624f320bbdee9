//! The plain formula engine: the live clause set with its occurrence
//! index and unit worklist, without learning support.

use vstd::prelude::*;

use crate::clause::{Clause, Clauses};
use crate::clause_db::{active_count, ClauseDb};
use crate::lit::{lit_of_code, Lit};
use crate::model::{
    conflicts, lit_set_of, neg_shrunk, propagate_seq, propagated, sat_removed, shrink_conflicts,
    units_chain,
};
use crate::Strategy;

verus! {

/// The state of propagation over a clause set: which clauses are still
/// active, which literals they still hold, and where each literal occurs.
#[derive(Debug)]
pub struct Cnf {
    pub db: ClauseDb,
}

impl Cnf {
    /// The number of declared variables.
    pub open spec fn n_lit(self) -> int {
        self.db.n_lit as int
    }

    /// The active clauses, by id, as sets of unresolved literals.
    pub open spec fn model(self) -> Map<int, Set<Lit>> {
        self.db.model()
    }

    /// The literal is still unresolved in some active clause.
    pub open spec fn occurs(self, l: Lit) -> bool {
        self.db.occurs(l)
    }

    /// How many clause ids have ever been assigned.
    pub open spec fn total(self) -> int {
        self.db.slots@.len() as int
    }

    pub open spec fn wf(self) -> bool {
        self.db.wf()
    }

    /// An empty formula over `n_lit` variables.
    pub fn new(n_lit: usize) -> (r: Cnf)
        requires
            n_lit <= usize::MAX / 2,
        ensures
            r.wf(),
            r.n_lit() == n_lit,
            r.total() == 0,
            r.model() =~= Map::<int, Set<Lit>>::empty(),
    {
        Cnf { db: ClauseDb::new(n_lit) }
    }

    /// Builds the formula from parsed clauses: the declared variable count
    /// is the number of distinct variables, and every clause is added
    /// under its position as id.
    pub fn from_clauses(value: &Clauses) -> (r: Cnf)
        requires
            value.1 <= usize::MAX / 2,
            forall|i: int, j: int|
                0 <= i < value.0@.len() && 0 <= j < value.0@[i].0@.len() ==> (
                #[trigger] value.0@[i].0@[j]).var < value.1,
        ensures
            r.wf(),
            r.n_lit() == value.1,
            r.total() == value.0@.len(),
            r.model().dom() =~= Set::new(|i: int| 0 <= i < value.0@.len()),
            forall|i: int|
                0 <= i < value.0@.len() ==> r.model()[i] == lit_set_of(
                    (#[trigger] value.0@[i]).0@,
                ),
    {
        let mut cnf = Cnf::new(value.1);
        let n = value.0.len();
        let mut k: usize = 0;
        while k < n
            invariant
                k <= value.0@.len(),
                n == value.0@.len(),
                cnf.wf(),
                cnf.n_lit() == value.1,
                cnf.total() == k,
                value.1 <= usize::MAX / 2,
                forall|i: int, j: int|
                    0 <= i < value.0@.len() && 0 <= j < value.0@[i].0@.len() ==> (
                    #[trigger] value.0@[i].0@[j]).var < value.1,
                cnf.model().dom() =~= Set::new(|i: int| 0 <= i < k),
                forall|i: int|
                    0 <= i < k ==> cnf.model()[i] == lit_set_of((#[trigger] value.0@[i]).0@),
            decreases value.0@.len() - k,
        {
            let ghost pre = cnf;
            cnf.add_clause(&value.0[k]);
            proof {
                assert(cnf.model().dom() =~= Set::new(|i: int| 0 <= i < k + 1));
                assert forall|i: int| 0 <= i < k + 1 implies cnf.model()[i] == lit_set_of(
                    (#[trigger] value.0@[i]).0@,
                ) by {
                    if i < k {
                        assert(pre.model()[i] == lit_set_of(value.0@[i].0@));
                    }
                }
            }
            k += 1;
        }
        cnf
    }

    /// How many clauses are still active.
    pub fn num_clause(&self) -> (r: usize)
        requires
            self.wf(),
        ensures
            r == active_count(self.db.slots@),
            (r == 0) <==> (self.model().dom() =~= Set::<int>::empty()),
    {
        self.db.num_active()
    }

    /// Registers a new clause, deduplicating its literals; a one-literal
    /// clause joins the unit worklist.
    pub fn add_clause(&mut self, clause: &Clause)
        requires
            old(self).wf(),
            old(self).total() < usize::MAX,
            forall|j: int|
                0 <= j < clause.0@.len() ==> (#[trigger] clause.0@[j]).var < old(self).n_lit(),
        ensures
            final(self).wf(),
            final(self).n_lit() == old(self).n_lit(),
            final(self).total() == old(self).total() + 1,
            final(self).model() == old(self).model().insert(
                old(self).total(),
                lit_set_of(clause.0@),
            ),
    {
        self.db.add_clause(&clause.0);
    }

    /// Removes every clause containing `lit`: each is satisfied once `lit`
    /// holds.
    pub fn remove_positive(&mut self, lit: Lit)
        requires
            old(self).wf(),
            lit.var < old(self).n_lit(),
        ensures
            final(self).wf(),
            final(self).n_lit() == old(self).n_lit(),
            final(self).total() == old(self).total(),
            final(self).model() == sat_removed(old(self).model(), lit),
            final(self).db.n_active <= old(self).db.n_active,
    {
        self.db.remove_sat(lit);
    }

    /// Rules `lit` out of every clause that still holds it: `lit` has just
    /// been falsified. A clause left empty is a conflict, reported by id.
    pub fn remove_negation(&mut self, lit: Lit) -> (r: Result<(), usize>)
        requires
            old(self).wf(),
            lit.var < old(self).n_lit(),
        ensures
            final(self).n_lit() == old(self).n_lit(),
            final(self).total() == old(self).total(),
            final(self).db.lits_ok(),
            final(self).db.n_active == old(self).db.n_active,
            match r {
                Ok(()) => final(self).wf() && final(self).model() == neg_shrunk(
                    old(self).model(),
                    lit,
                ) && !shrink_conflicts(old(self).model(), lit),
                Err(cid) => cid < old(self).total() && old(self).model().dom().contains(cid as int)
                    && old(self).model()[cid as int] == set![lit],
            },
    {
        let (_shrunk, r) = self.db.shrink_all(lit);
        r
    }

    /// Propagates `lit` as true: removes the satisfied clauses and rules
    /// the complement out everywhere else. Fails with the id of a clause
    /// that held exactly the complement of `lit`.
    pub fn propagation(&mut self, lit: Lit) -> (r: Result<(), usize>)
        requires
            old(self).wf(),
            lit.var < old(self).n_lit(),
        ensures
            final(self).n_lit() == old(self).n_lit(),
            final(self).total() == old(self).total(),
            final(self).db.lits_ok(),
            final(self).db.n_active <= old(self).db.n_active,
            match r {
                Ok(()) => final(self).wf() && final(self).model() == propagated(
                    old(self).model(),
                    lit,
                ) && !conflicts(old(self).model(), lit),
                Err(cid) => cid < old(self).total() && conflicts(old(self).model(), lit)
                    && old(self).model().dom().contains(cid as int) && old(self).model()[
                    cid as int
                ] == set![lit.spec_negate()],
            },
    {
        self.remove_positive(lit);
        let nl = lit.negate();
        proof {
            crate::model::lemma_conflicts_split(old(self).model(), lit);
        }
        self.remove_negation(nl)
    }

    /// Consumes an active unit clause: retires it and propagates its sole
    /// literal as true. An inactive or unknown id is a no-op.
    pub fn unit_propagation(&mut self, clause_id: usize) -> (r: Result<Option<Lit>, usize>)
        requires
            old(self).wf(),
            old(self).model().dom().contains(clause_id as int) ==> old(self).db.slots@[clause_id as int].lits.width() == 1,
        ensures
            final(self).n_lit() == old(self).n_lit(),
            final(self).total() == old(self).total(),
            final(self).db.lits_ok(),
            match r {
                Ok(ol) => match ol {
                    Some(l) => old(self).model().dom().contains(clause_id as int) && old(self).model()[clause_id as int] == set![l] && l.var < old(self).n_lit() && final(self).wf() && final(self).model() == propagated(old(self).model(), l) && !conflicts(old(self).model(), l) && final(self).db.n_active < old(self).db.n_active,
                    None => *final(self) == *old(self) && !old(self).model().dom().contains(
                        clause_id as int,
                    ),
                },
                Err(cid) => cid < old(self).total() && exists|l: Lit|
                    old(self).model().dom().contains(clause_id as int) && old(self).model()[
                        clause_id as int
                    ] == set![l] && #[trigger] conflicts(old(self).model(), l) && old(
                        self,
                    ).model().dom().contains(cid as int) && old(self).model()[cid as int]
                        == set![l.spec_negate()],
            },
    {
        match self.db.pop_unit(clause_id) {
            None => Ok(None),
            Some(l) => {
                proof {
                    assert(set![l].contains(l));
                    crate::model::lemma_propagate_drop_unit(old(self).model(), clause_id as int, l);
                }
                match self.propagation(l) {
                    Ok(()) => Ok(Some(l)),
                    Err(cid) => {
                        proof {
                            assert(conflicts(old(self).model(), l));
                        }
                        Err(cid)
                    },
                }
            },
        }
    }

    /// Pops ids from the unit worklist and propagates each in turn until
    /// no unit clause remains, returning the literals forced this way in
    /// order. Fails with the conflicting clause id if a propagation step
    /// empties a clause.
    pub fn unit_propagations(&mut self) -> (r: Result<Vec<Lit>, usize>)
        requires
            old(self).wf(),
        ensures
            final(self).n_lit() == old(self).n_lit(),
            final(self).total() == old(self).total(),
            final(self).db.lits_ok(),
            match r {
                Ok(lits) => final(self).wf() && units_chain(old(self).model(), lits@) && final(self).model() == propagate_seq(old(self).model(), lits@) && (forall|k: int|
                    0 <= k < lits@.len() ==> (#[trigger] lits@[k]).var < old(self).n_lit()) && (
                forall|i: int|
                    final(self).model().dom().contains(i) ==> final(self).db.slots@[i].lits.width() != 1),
                Err(cid) => cid < old(self).total() && exists|lits: Seq<Lit>, l: Lit|
                    units_chain(old(self).model(), lits) && (exists|i: int|
                        #[trigger] propagate_seq(old(self).model(), lits).dom().contains(i)
                            && propagate_seq(old(self).model(), lits)[i] == set![l])
                        && #[trigger] conflicts(propagate_seq(old(self).model(), lits), l)
                        && propagate_seq(old(self).model(), lits).dom().contains(cid as int)
                        && propagate_seq(old(self).model(), lits)[cid as int] == set![
                        l.spec_negate()
                    ],
            },
    {
        let ghost m0 = self.model();
        let mut lits: Vec<Lit> = Vec::new();
        let mut done = false;
        while !done
            invariant
                self.wf(),
                self.n_lit() == old(self).n_lit(),
                self.total() == old(self).total(),
                units_chain(m0, lits@),
                self.model() == propagate_seq(m0, lits@),
                m0 == old(self).model(),
                forall|k: int| 0 <= k < lits@.len() ==> (#[trigger] lits@[k]).var < self.n_lit(),
                done ==> forall|i: int|
                    self.model().dom().contains(i) ==> self.db.slots@[i].lits.width() != 1,
            decreases self.db.n_active, (if done {
                0int
            } else {
                1int
            }),
        {
            match self.db.peek_unit() {
                None => {
                    proof {
                        assert forall|i: int| self.model().dom().contains(i) implies self.db.slots@[i].lits.width() != 1 by {}
                    }
                    done = true;
                },
                Some(id) => {
                    let ghost mk = self.model();
                    let ghost litsk = lits@;
                    match self.unit_propagation(id) {
                        Ok(Some(l)) => {
                            lits.push(l);
                            proof {
                                assert(mk.dom().contains(id as int) && mk[id as int] == set![l]);
                                crate::model::lemma_units_chain_snoc(m0, litsk, l);
                            }
                        },
                        Ok(None) => {
                            proof {
                                assert(false);
                            }
                        },
                        Err(cid) => {
                            proof {
                                let l = choose|l: Lit|
                                    mk.dom().contains(id as int) && mk[id as int] == set![l]
                                        && #[trigger] conflicts(mk, l);
                                assert(units_chain(m0, litsk) && (exists|i: int|
                                    #[trigger] propagate_seq(m0, litsk).dom().contains(i)
                                        && propagate_seq(m0, litsk)[i] == set![l]) && conflicts(
                                    propagate_seq(m0, litsk),
                                    l,
                                ));
                            }
                            return Err(cid);
                        },
                    }
                },
            }
        }
        Ok(lits)
    }

    /// The literals that occur in only one polarity among the active
    /// clauses.
    pub fn pure_literals(&self) -> (r: Vec<Lit>)
        requires
            self.wf(),
        ensures
            forall|k: int|
                0 <= k < r@.len() ==> (#[trigger] r@[k]).var < self.n_lit() && self.occurs(r@[k])
                    && !self.occurs(r@[k].spec_negate()),
            forall|k1: int, k2: int|
                0 <= k1 < k2 < r@.len() ==> (#[trigger] r@[k1]).var != (#[trigger] r@[k2]).var,
    {
        self.db.pure_literals()
    }

    /// True when no literal occurs in any active clause.
    pub fn no_occurrences(&self) -> (r: bool)
        requires
            self.wf(),
        ensures
            r == (forall|l: Lit| !(#[trigger] self.occurs(l))),
    {
        let r = self.db.no_occurrences();
        proof {
            if r {
                assert forall|l: Lit| !(#[trigger] self.occurs(l)) by {
                    assert(!self.db.occurs(l));
                }
            } else {
                let l = choose|l: Lit| #[trigger] self.db.occurs(l);
                assert(self.occurs(l));
            }
        }
        r
    }

    /// Chooses an unresolved literal to branch on. `Direct`
    /// deterministically picks the smallest occurring literal in the
    /// code order, normalized to its positive form; `Random` draws
    /// uniformly among the occurring literals. Nothing is returned once
    /// no literal occurs.
    pub fn next_guess(&self, strategy: Strategy) -> (r: Option<Lit>)
        requires
            self.wf(),
        ensures
            match r {
                Some(l) => l.var < self.n_lit() && (self.occurs(l) || self.occurs(
                    l.spec_negate(),
                )),
                None => forall|l: Lit| !(#[trigger] self.occurs(l)),
            },
            strategy is Direct && r is Some ==> !r->Some_0.neg && (forall|y: Lit|
                #[trigger] self.occurs(y) ==> 2 * r->Some_0.var <= y.cs()),
    {
        match strategy {
            Strategy::Direct => self.db.first_occurring(),
            Strategy::Random => {
                let codes = self.db.occurring_codes();
                if codes.len() == 0 {
                    None
                } else {
                    let idx = crate::rng::random_below(codes.len());
                    let c = codes[idx];
                    let l = Lit { var: c / 2, neg: c % 2 == 1 };
                    proof {
                        assert(l == lit_of_code(c as int));
                        assert(self.occurs(l));
                        assert(l.var < self.n_lit()) by {
                            let i = choose|i: int|
                                #[trigger] self.model().dom().contains(i) && self.model()[i].contains(l);
                            assert(self.db.slots@[i].lits.full().contains(l));
                        }
                    }
                    Some(l)
                }
            },
        }
    }

    /// An independent copy of the whole formula state.
    pub fn snapshot(&self) -> (r: Cnf)
        requires
            self.wf(),
        ensures
            r.wf(),
            r.n_lit() == self.n_lit(),
            r.total() == self.total(),
            r.model() == self.model(),
    {
        Cnf { db: self.db.snapshot() }
    }
}

} // verus!
