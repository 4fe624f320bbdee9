//! The mathematical model of the engine.
//!
//! A formula state is a map from clause id to the set of literals still
//! unresolved in that clause; only active clauses are in the map's domain.
//! A partial assignment is a sequence of optional truth values indexed by
//! variable. The spec functions here describe exactly how propagation
//! transforms a formula state, and `consistent` is the invariant that ties
//! the live state and the partial assignment back to the original clauses:
//! it is what makes the search drivers' soundness contracts provable.

use vstd::prelude::*;

use crate::lit::Lit;

verus! {

/// The set of literals a clause list denotes.
pub open spec fn lit_set_of(s: Seq<Lit>) -> Set<Lit> {
    Set::new(|l: Lit| s.contains(l))
}

/// The literal is assigned true by `a`.
pub open spec fn lit_true(a: Seq<Option<bool>>, l: Lit) -> bool {
    l.var < a.len() && a[l.var as int] == Some(!l.neg)
}

/// The literal is assigned false by `a`.
pub open spec fn lit_false(a: Seq<Option<bool>>, l: Lit) -> bool {
    l.var < a.len() && a[l.var as int] == Some(l.neg)
}

/// Some literal of the clause is assigned true by `a`.
pub open spec fn satisfies(a: Seq<Option<bool>>, c: Set<Lit>) -> bool {
    exists|x: Lit| #[trigger] c.contains(x) && lit_true(a, x)
}

/// No literal of the clause is assigned true by `a`.
pub open spec fn no_true_lit(a: Seq<Option<bool>>, c: Set<Lit>) -> bool {
    forall|x: Lit| #[trigger] c.contains(x) ==> !lit_true(a, x)
}

/// The clause with its falsified literals ruled out.
pub open spec fn reduce(c: Set<Lit>, a: Seq<Option<bool>>) -> Set<Lit> {
    Set::new(|x: Lit| c.contains(x) && !lit_false(a, x))
}

/// Drops every clause that contains `l`: those clauses are satisfied once
/// `l` holds.
pub open spec fn sat_removed(m: Map<int, Set<Lit>>, l: Lit) -> Map<int, Set<Lit>> {
    Map::new(|i: int| m.dom().contains(i) && !m[i].contains(l), |i: int| m[i])
}

/// Rules `l` out of every clause: `l` has just been falsified.
pub open spec fn neg_shrunk(m: Map<int, Set<Lit>>, l: Lit) -> Map<int, Set<Lit>> {
    Map::new(|i: int| m.dom().contains(i), |i: int| m[i].remove(l))
}

/// The full effect of propagating `l` as true: satisfied clauses leave, the
/// complement is ruled out everywhere else.
pub open spec fn propagated(m: Map<int, Set<Lit>>, l: Lit) -> Map<int, Set<Lit>> {
    neg_shrunk(sat_removed(m, l), l.spec_negate())
}

/// Ruling `l` out empties some clause: that clause held `l` alone.
pub open spec fn shrink_conflicts(m: Map<int, Set<Lit>>, l: Lit) -> bool {
    exists|i: int| #[trigger] m.dom().contains(i) && m[i] == set![l]
}

/// Propagating `l` as true empties some clause: a clause held exactly the
/// complement of `l`.
pub open spec fn conflicts(m: Map<int, Set<Lit>>, l: Lit) -> bool {
    exists|i: int| #[trigger] m.dom().contains(i) && m[i] == set![l.spec_negate()]
}

/// The states reached by propagating a sequence of literals in order.
pub open spec fn propagate_seq(m: Map<int, Set<Lit>>, lits: Seq<Lit>) -> Map<int, Set<Lit>>
    decreases lits.len(),
{
    if lits.len() == 0 {
        m
    } else {
        propagate_seq(propagated(m, lits[0]), lits.skip(1))
    }
}

/// Each literal of the sequence was the sole remaining literal of some
/// active clause when its turn came.
pub open spec fn units_chain(m: Map<int, Set<Lit>>, lits: Seq<Lit>) -> bool
    decreases lits.len(),
{
    if lits.len() == 0 {
        true
    } else {
        (exists|i: int| #[trigger] m.dom().contains(i) && m[i] == set![lits[0]])
            && units_chain(propagated(m, lits[0]), lits.skip(1))
    }
}

/// The search invariant. `orig` is the clause set at the start of the
/// search, `m` the live state, `a` the partial assignment built so far:
/// every live clause is its original clause with the falsified literals
/// ruled out and none satisfied yet, and every retired clause is already
/// satisfied by `a`.
pub open spec fn consistent(
    orig: Map<int, Set<Lit>>,
    m: Map<int, Set<Lit>>,
    a: Seq<Option<bool>>,
) -> bool {
    &&& m.dom().subset_of(orig.dom())
    &&& forall|i: int|
        #[trigger] m.dom().contains(i) ==> m[i] == reduce(orig[i], a) && no_true_lit(a, orig[i])
    &&& forall|i: int|
        orig.dom().contains(i) && !m.dom().contains(i) ==> #[trigger] satisfies(a, orig[i])
    &&& forall|i: int, l: Lit|
        orig.dom().contains(i) && #[trigger] orig[i].contains(l) ==> l.var < a.len()
}


/// Every declared variable has a truth value.
pub open spec fn total_assign(a: Seq<Option<bool>>) -> bool {
    forall|v: int| 0 <= v < a.len() ==> (#[trigger] a[v]) is Some
}

/// `a2` agrees with `a` wherever `a` is assigned.
pub open spec fn extends(a2: Seq<Option<bool>>, a: Seq<Option<bool>>) -> bool {
    a2.len() == a.len() && forall|v: int|
        0 <= v < a.len() && (#[trigger] a[v]) is Some ==> a2[v] == a[v]
}

/// `a2` satisfies every clause of the live state.
pub open spec fn sat_under(m: Map<int, Set<Lit>>, a2: Seq<Option<bool>>) -> bool {
    forall|i: int| #[trigger] m.dom().contains(i) ==> satisfies(a2, m[i])
}

/// `a2` satisfies every original clause.
pub open spec fn sats_all(a2: Seq<Option<bool>>, orig: Map<int, Set<Lit>>) -> bool {
    forall|i: int| #[trigger] orig.dom().contains(i) ==> satisfies(a2, orig[i])
}

/// The literal is still unresolved in some clause of the state.
pub open spec fn occurs_in(m: Map<int, Set<Lit>>, l: Lit) -> bool {
    exists|i: int| #[trigger] m.dom().contains(i) && m[i].contains(l)
}

/// An assignment is an extension of itself.
pub proof fn lemma_extends_refl(a: Seq<Option<bool>>)
    ensures
        extends(a, a),
{
}

/// Assigning a still unassigned variable preserves extension of any
/// earlier assignment: the earlier one was unassigned there too.
pub proof fn lemma_extends_assign(
    a0: Seq<Option<bool>>,
    a: Seq<Option<bool>>,
    v: int,
    x: Option<bool>,
)
    requires
        extends(a, a0),
        0 <= v < a.len(),
        a[v] is None,
    ensures
        extends(a.update(v, x), a0),
{
    assert forall|w: int|
        0 <= w < a0.len() && (#[trigger] a0[w]) is Some implies a.update(v, x)[w] == a0[w] by {
        assert(a[w] == a0[w]);
    }
}

/// Extension is transitive.
pub proof fn lemma_extends_trans(a: Seq<Option<bool>>, b: Seq<Option<bool>>, c: Seq<Option<bool>>)
    requires
        extends(c, b),
        extends(b, a),
    ensures
        extends(c, a),
{
    assert forall|w: int| 0 <= w < a.len() && (#[trigger] a[w]) is Some implies c[w] == a[w] by {
        assert(b[w] == a[w]);
    }
}

/// An assignment extending the current one and satisfying the original
/// clauses also satisfies every live clause: the live clauses are the
/// original ones with only falsified literals ruled out.
pub proof fn lemma_bridge(
    orig: Map<int, Set<Lit>>,
    m: Map<int, Set<Lit>>,
    a: Seq<Option<bool>>,
    a2: Seq<Option<bool>>,
)
    requires
        consistent(orig, m, a),
        extends(a2, a),
        sats_all(a2, orig),
    ensures
        sat_under(m, a2),
{
    assert forall|i: int| #[trigger] m.dom().contains(i) implies satisfies(a2, m[i]) by {
        assert(orig.dom().contains(i));
        assert(satisfies(a2, orig[i]));
        let x = choose|x: Lit| #[trigger] orig[i].contains(x) && lit_true(a2, x);
        assert(x.var < a.len());
        if a[x.var as int] is Some {
            assert(a2[x.var as int] == a[x.var as int]);
            assert(lit_true(a, x));
            assert(!lit_true(a, x));
        }
        assert(!lit_false(a, x));
        assert(reduce(orig[i], a).contains(x));
        assert(m[i].contains(x));
    }
}

/// A satisfying assignment that makes `l` true keeps satisfying the
/// state after `l` is propagated, and the propagation cannot conflict.
pub proof fn lemma_sat_propagated(m: Map<int, Set<Lit>>, a2: Seq<Option<bool>>, l: Lit)
    requires
        sat_under(m, a2),
        lit_true(a2, l),
    ensures
        sat_under(propagated(m, l), a2),
        !conflicts(m, l),
{
    let m2 = propagated(m, l);
    let nl = l.spec_negate();
    assert forall|i: int| #[trigger] m2.dom().contains(i) implies satisfies(a2, m2[i]) by {
        assert(m.dom().contains(i) && !m[i].contains(l));
        let x = choose|x: Lit| #[trigger] m[i].contains(x) && lit_true(a2, x);
        assert(x != nl) by {
            if x == nl {
                assert(a2[l.var as int] == Some(!l.neg) && a2[l.var as int] == Some(l.neg));
            }
        }
        assert(m2[i].contains(x));
    }
    assert(!conflicts(m, l)) by {
        if conflicts(m, l) {
            let i = choose|i: int| #[trigger] m.dom().contains(i) && m[i] == set![nl];
            let x = choose|x: Lit| #[trigger] m[i].contains(x) && lit_true(a2, x);
            assert(x == nl);
            assert(a2[l.var as int] == Some(!l.neg) && a2[l.var as int] == Some(l.neg));
        }
    }
}

/// A satisfying assignment agrees with every literal forced by a valid
/// unit-propagation chain, and keeps satisfying the state the chain
/// reaches.
pub proof fn lemma_sat_chain(m: Map<int, Set<Lit>>, a2: Seq<Option<bool>>, lits: Seq<Lit>)
    requires
        units_chain(m, lits),
        sat_under(m, a2),
    ensures
        sat_under(propagate_seq(m, lits), a2),
        forall|k: int| 0 <= k < lits.len() ==> lit_true(a2, #[trigger] lits[k]),
    decreases lits.len(),
{
    if lits.len() > 0 {
        let l = lits[0];
        let i = choose|i: int| #[trigger] m.dom().contains(i) && m[i] == set![l];
        assert(satisfies(a2, m[i]));
        let x = choose|x: Lit| #[trigger] m[i].contains(x) && lit_true(a2, x);
        assert(x == l);
        lemma_sat_propagated(m, a2, l);
        lemma_sat_chain(propagated(m, l), a2, lits.skip(1));
        assert forall|k: int| 0 <= k < lits.len() implies lit_true(a2, #[trigger] lits[k]) by {
            if k > 0 {
                assert(lits.skip(1)[k - 1] == lits[k]);
            }
        }
    }
}

/// Setting a pure literal true preserves satisfaction of the original
/// clauses: its complement is unresolved nowhere, every live clause that
/// mentions its variable mentions the literal itself, and every retired
/// clause is already satisfied on assigned variables.
pub proof fn lemma_pure_flip(
    orig: Map<int, Set<Lit>>,
    m: Map<int, Set<Lit>>,
    a: Seq<Option<bool>>,
    a2: Seq<Option<bool>>,
    p: Lit,
)
    requires
        consistent(orig, m, a),
        extends(a2, a),
        total_assign(a2),
        sats_all(a2, orig),
        !occurs_in(m, p.spec_negate()),
        p.var < a.len(),
        a[p.var as int] is None,
    ensures
        sats_all(a2.update(p.var as int, Some(!p.neg)), orig),
        extends(a2.update(p.var as int, Some(!p.neg)), a.update(p.var as int, Some(!p.neg))),
        total_assign(a2.update(p.var as int, Some(!p.neg))),
{
    let a3 = a2.update(p.var as int, Some(!p.neg));
    lemma_bridge(orig, m, a, a2);
    assert forall|i: int| #[trigger] orig.dom().contains(i) implies satisfies(a3, orig[i]) by {
        if m.dom().contains(i) {
            let x = choose|x: Lit| #[trigger] m[i].contains(x) && lit_true(a2, x);
            assert(orig[i].contains(x)) by {
                assert(reduce(orig[i], a).contains(x));
            }
            if x.var == p.var {
                assert(x == p || x == p.spec_negate());
                assert(x != p.spec_negate()) by {
                    if x == p.spec_negate() {
                        assert(occurs_in(m, p.spec_negate()));
                    }
                }
                assert(lit_true(a3, p));
            } else {
                assert(lit_true(a3, x));
            }
        } else {
            assert(satisfies(a, orig[i]));
            let y = choose|y: Lit| #[trigger] orig[i].contains(y) && lit_true(a, y);
            assert(y.var != p.var);
            assert(a2[y.var as int] == a[y.var as int]);
            assert(lit_true(a3, y));
        }
    }
}


/// Some total satisfying extension of the assignment `a0` can be brought
/// into agreement with the later assignment `a`: the search loses no
/// satisfying extension while it propagates forced literals and sets pure
/// literals true.
pub open spec fn reachable(
    orig: Map<int, Set<Lit>>,
    a0: Seq<Option<bool>>,
    a: Seq<Option<bool>>,
) -> bool {
    forall|a2: Seq<Option<bool>>|
        (#[trigger] extends(a2, a0)) && total_assign(a2) && sats_all(a2, orig) ==> exists|
            a3: Seq<Option<bool>>,
        | (#[trigger] extends(a3, a)) && total_assign(a3) && sats_all(a3, orig)
}

pub proof fn lemma_reach_refl(orig: Map<int, Set<Lit>>, a0: Seq<Option<bool>>)
    ensures
        reachable(orig, a0, a0),
{
    assert forall|a2: Seq<Option<bool>>|
        (#[trigger] extends(a2, a0)) && total_assign(a2) && sats_all(a2, orig) implies exists|
        a3: Seq<Option<bool>>,
    | (#[trigger] extends(a3, a0)) && total_assign(a3) && sats_all(a3, orig) by {
        assert(extends(a2, a0) && total_assign(a2) && sats_all(a2, orig));
    }
}

/// Assigning a literal forced by a unit clause keeps every satisfying
/// extension reachable: such an extension must agree with the forced
/// literal.
pub proof fn lemma_reach_unit(
    orig: Map<int, Set<Lit>>,
    a0: Seq<Option<bool>>,
    m: Map<int, Set<Lit>>,
    a: Seq<Option<bool>>,
    l: Lit,
)
    requires
        reachable(orig, a0, a),
        consistent(orig, m, a),
        exists|i: int| #[trigger] m.dom().contains(i) && m[i] == set![l],
    ensures
        reachable(orig, a0, a.update(l.var as int, Some(!l.neg))),
{
    let a_next = a.update(l.var as int, Some(!l.neg));
    assert forall|a2: Seq<Option<bool>>|
        (#[trigger] extends(a2, a0)) && total_assign(a2) && sats_all(a2, orig) implies exists|
        a3: Seq<Option<bool>>,
    | (#[trigger] extends(a3, a_next)) && total_assign(a3) && sats_all(a3, orig) by {
        let a3 = choose|a3: Seq<Option<bool>>|
            (#[trigger] extends(a3, a)) && total_assign(a3) && sats_all(a3, orig);
        lemma_bridge(orig, m, a, a3);
        let i = choose|i: int| #[trigger] m.dom().contains(i) && m[i] == set![l];
        assert(satisfies(a3, m[i]));
        let x = choose|x: Lit| #[trigger] m[i].contains(x) && lit_true(a3, x);
        assert(x == l);
        assert(extends(a3, a_next));
    }
}

/// Assigning a pure literal true keeps every satisfying extension
/// reachable: flipping the pure variable to the pure polarity cannot
/// falsify any clause.
pub proof fn lemma_reach_pure(
    orig: Map<int, Set<Lit>>,
    a0: Seq<Option<bool>>,
    m: Map<int, Set<Lit>>,
    a: Seq<Option<bool>>,
    p: Lit,
)
    requires
        reachable(orig, a0, a),
        consistent(orig, m, a),
        !occurs_in(m, p.spec_negate()),
        p.var < a.len(),
        a[p.var as int] is None,
    ensures
        reachable(orig, a0, a.update(p.var as int, Some(!p.neg))),
{
    let a_next = a.update(p.var as int, Some(!p.neg));
    assert forall|a2: Seq<Option<bool>>|
        (#[trigger] extends(a2, a0)) && total_assign(a2) && sats_all(a2, orig) implies exists|
        a3: Seq<Option<bool>>,
    | (#[trigger] extends(a3, a_next)) && total_assign(a3) && sats_all(a3, orig) by {
        let a3 = choose|a3: Seq<Option<bool>>|
            (#[trigger] extends(a3, a)) && total_assign(a3) && sats_all(a3, orig);
        lemma_pure_flip(orig, m, a, a3, p);
        let a4 = a3.update(p.var as int, Some(!p.neg));
        assert(extends(a4, a_next) && total_assign(a4) && sats_all(a4, orig));
    }
}

/// A live empty clause rules out every satisfying extension.
pub proof fn lemma_reach_dead(
    orig: Map<int, Set<Lit>>,
    a0: Seq<Option<bool>>,
    m: Map<int, Set<Lit>>,
    a: Seq<Option<bool>>,
)
    requires
        reachable(orig, a0, a),
        consistent(orig, m, a),
        exists|i: int| #[trigger] m.dom().contains(i) && m[i] =~= Set::<Lit>::empty(),
    ensures
        forall|a2: Seq<Option<bool>>|
            (#[trigger] extends(a2, a0)) && total_assign(a2) ==> !sats_all(a2, orig),
{
    assert forall|a2: Seq<Option<bool>>|
        (#[trigger] extends(a2, a0)) && total_assign(a2) implies !sats_all(a2, orig) by {
        if sats_all(a2, orig) {
            let a3 = choose|a3: Seq<Option<bool>>|
                (#[trigger] extends(a3, a)) && total_assign(a3) && sats_all(a3, orig);
            lemma_bridge(orig, m, a, a3);
            let i = choose|i: int| #[trigger] m.dom().contains(i) && m[i] =~= Set::<Lit>::empty();
            assert(satisfies(a3, m[i]));
            let x = choose|x: Lit| #[trigger] m[i].contains(x) && lit_true(a3, x);
        }
    }
}

/// A conflict reached by pure unit propagation rules out every satisfying
/// extension: such an extension would have to agree with every forced
/// literal of the chain, including the one whose propagation empties a
/// clause.
pub proof fn lemma_reach_conflict(
    orig: Map<int, Set<Lit>>,
    a0: Seq<Option<bool>>,
    m: Map<int, Set<Lit>>,
    a: Seq<Option<bool>>,
    lits: Seq<Lit>,
    l: Lit,
)
    requires
        reachable(orig, a0, a),
        consistent(orig, m, a),
        units_chain(m, lits),
        exists|i: int| #[trigger] propagate_seq(m, lits).dom().contains(i) && propagate_seq(
            m,
            lits,
        )[i] == set![l],
        conflicts(propagate_seq(m, lits), l),
    ensures
        forall|a2: Seq<Option<bool>>|
            (#[trigger] extends(a2, a0)) && total_assign(a2) ==> !sats_all(a2, orig),
{
    assert forall|a2: Seq<Option<bool>>|
        (#[trigger] extends(a2, a0)) && total_assign(a2) implies !sats_all(a2, orig) by {
        if sats_all(a2, orig) {
            let a3 = choose|a3: Seq<Option<bool>>|
                (#[trigger] extends(a3, a)) && total_assign(a3) && sats_all(a3, orig);
            lemma_bridge(orig, m, a, a3);
            lemma_sat_chain(m, a3, lits);
            let fin = propagate_seq(m, lits);
            let i = choose|i: int| #[trigger] fin.dom().contains(i) && fin[i] == set![l];
            assert(satisfies(a3, fin[i]));
            let x = choose|x: Lit| #[trigger] fin[i].contains(x) && lit_true(a3, x);
            assert(x == l);
            lemma_sat_propagated(fin, a3, l);
        }
    }
}

/// Propagating a literal whose complement is unresolved nowhere keeps the
/// clause contents of the surviving clauses, so it neither introduces a
/// conflict possibility nor revives an occurrence.
pub proof fn lemma_pure_step(m: Map<int, Set<Lit>>, p: Lit)
    requires
        !occurs_in(m, p.spec_negate()),
    ensures
        forall|l: Lit| #[trigger] conflicts(propagated(m, p), l) ==> conflicts(m, l),
        forall|y: Lit| #[trigger] occurs_in(propagated(m, p), y) ==> occurs_in(m, y),
        !conflicts(m, p),
{
    let m2 = propagated(m, p);
    let np = p.spec_negate();
    assert forall|i: int| #[trigger] m2.dom().contains(i) implies m2[i] == m[i]
        && m.dom().contains(i) by {
        assert(!m[i].contains(np)) by {
            if m[i].contains(np) {
                assert(occurs_in(m, np));
            }
        }
        assert(m2[i] =~= m[i]);
    }
    assert forall|l: Lit| #[trigger] conflicts(m2, l) implies conflicts(m, l) by {
        let i = choose|i: int| #[trigger] m2.dom().contains(i) && m2[i] == set![l.spec_negate()];
        assert(m.dom().contains(i) && m[i] == set![l.spec_negate()]);
    }
    assert forall|y: Lit| #[trigger] occurs_in(m2, y) implies occurs_in(m, y) by {
        let i = choose|i: int| #[trigger] m2.dom().contains(i) && m2[i].contains(y);
        assert(m.dom().contains(i) && m[i].contains(y));
    }
    assert(!conflicts(m, p)) by {
        if conflicts(m, p) {
            let i = choose|i: int| #[trigger] m.dom().contains(i) && m[i] == set![np];
            assert(m[i].contains(np)) by {
                assert(set![np].contains(np));
            }
            assert(occurs_in(m, np));
        }
    }
}

/// A literal of a live clause refers to an in-range, still unassigned
/// variable.
pub proof fn lemma_in_active_unassigned(
    orig: Map<int, Set<Lit>>,
    m: Map<int, Set<Lit>>,
    a: Seq<Option<bool>>,
    i: int,
    l: Lit,
)
    requires
        consistent(orig, m, a),
        m.dom().contains(i),
        m[i].contains(l),
    ensures
        l.var < a.len(),
        a[l.var as int] is None,
{
    assert(reduce(orig[i], a).contains(l));
    assert(orig[i].contains(l));
    assert(!lit_true(a, l));
    assert(!lit_false(a, l));
    if a[l.var as int] is Some {
        let b = a[l.var as int]->0;
        if b == !l.neg {
            assert(lit_true(a, l));
        } else {
            assert(lit_false(a, l));
        }
    }
}

/// Propagating an unassigned literal as true preserves the search
/// invariant, with the assignment extended accordingly.
pub proof fn lemma_propagate_consistent(
    orig: Map<int, Set<Lit>>,
    m: Map<int, Set<Lit>>,
    a: Seq<Option<bool>>,
    l: Lit,
)
    requires
        consistent(orig, m, a),
        l.var < a.len(),
        a[l.var as int] is None,
    ensures
        consistent(orig, propagated(m, l), a.update(l.var as int, Some(!l.neg))),
{
    let m2 = propagated(m, l);
    let a2 = a.update(l.var as int, Some(!l.neg));
    let nl = l.spec_negate();
    assert(m2.dom() =~= sat_removed(m, l).dom());
    assert forall|i: int| #[trigger] m2.dom().contains(i) implies m2[i] == reduce(orig[i], a2) && no_true_lit(a2, orig[i]) by {
        assert(m.dom().contains(i));
        assert(!m[i].contains(l));
        assert(m[i] == reduce(orig[i], a));
        assert(m2[i] == m[i].remove(nl));
        assert(!orig[i].contains(l)) by {
            if orig[i].contains(l) {
                assert(!lit_false(a, l));
                assert(reduce(orig[i], a).contains(l));
            }
        }
        assert(m2[i] =~= reduce(orig[i], a2)) by {
            assert forall|x: Lit| #[trigger] m2[i].contains(x) implies reduce(orig[i], a2).contains(x) by {
                assert(m[i].contains(x) && x != nl);
                assert(orig[i].contains(x) && !lit_false(a, x));
                if x.var == l.var {
                    assert(x == l || x == nl);
                }
                assert(!lit_false(a2, x));
            }
            assert forall|x: Lit| #[trigger] reduce(orig[i], a2).contains(x) implies m2[i].contains(x) by {
                assert(orig[i].contains(x) && !lit_false(a2, x));
                if x.var == l.var {
                    assert(x == l || x == nl);
                    assert(x != l);
                    assert(lit_false(a2, nl));
                } else {
                    assert(!lit_false(a, x));
                }
            }
        }
        assert forall|x: Lit| #[trigger] orig[i].contains(x) implies !lit_true(a2, x) by {
            if x.var == l.var {
                assert(x == l || x == nl);
            } else {
                assert(!lit_true(a, x));
            }
        }
    }
    assert forall|i: int| orig.dom().contains(i) && !m2.dom().contains(i) implies #[trigger] satisfies(a2, orig[i]) by {
        if m.dom().contains(i) {
            assert(m[i].contains(l));
            assert(reduce(orig[i], a).contains(l));
            assert(orig[i].contains(l));
            assert(lit_true(a2, l));
        } else {
            assert(satisfies(a, orig[i]));
            let x = choose|x: Lit| #[trigger] orig[i].contains(x) && lit_true(a, x);
            assert(x.var != l.var);
            assert(orig[i].contains(x) && lit_true(a2, x));
        }
    }
}

/// Once no live clause remains, every original clause is satisfied.
pub proof fn lemma_solved(orig: Map<int, Set<Lit>>, m: Map<int, Set<Lit>>, a: Seq<Option<bool>>)
    requires
        consistent(orig, m, a),
        m.dom() =~= Set::<int>::empty(),
    ensures
        forall|i: int| #[trigger] orig.dom().contains(i) ==> satisfies(a, orig[i]),
{
}

/// Extending an assignment only on unassigned variables keeps every
/// already satisfied clause satisfied.
pub proof fn lemma_extend_preserves(
    orig: Map<int, Set<Lit>>,
    a: Seq<Option<bool>>,
    a2: Seq<Option<bool>>,
)
    requires
        a2.len() == a.len(),
        forall|v: int| 0 <= v < a.len() && a[v] is Some ==> a2[v] == a[v],
    ensures
        forall|i: int|
            #[trigger] orig.dom().contains(i) && satisfies(a, orig[i]) ==> satisfies(a2, orig[i]),
{
    assert forall|i: int|
        #[trigger] orig.dom().contains(i) && satisfies(a, orig[i]) implies satisfies(
        a2,
        orig[i],
    ) by {
        let x = choose|x: Lit| #[trigger] orig[i].contains(x) && lit_true(a, x);
        assert(orig[i].contains(x) && lit_true(a2, x));
    }
}

/// Retiring a clause that contains the literal being propagated does not
/// change the outcome of the propagation: the clause would have been
/// dropped as satisfied anyway.
pub proof fn lemma_propagate_drop_unit(m: Map<int, Set<Lit>>, id: int, l: Lit)
    requires
        m.dom().contains(id),
        m[id].contains(l),
    ensures
        propagated(m.remove(id), l) == propagated(m, l),
        conflicts(m.remove(id), l) == conflicts(m, l),
{
    assert(propagated(m.remove(id), l) =~= propagated(m, l));
    assert(conflicts(m.remove(id), l) == conflicts(m, l)) by {
        if conflicts(m, l) {
            let i = choose|i: int| #[trigger] m.dom().contains(i) && m[i] == set![l.spec_negate()];
            assert(i != id) by {
                if i == id {
                    assert(set![l.spec_negate()].contains(l));
                    assert(l == l.spec_negate());
                }
            }
            assert(m.remove(id).dom().contains(i) && m.remove(id)[i] == set![l.spec_negate()]);
        }
        if conflicts(m.remove(id), l) {
            let i = choose|i: int|
                #[trigger] m.remove(id).dom().contains(i) && m.remove(id)[i] == set![l.spec_negate()];
            assert(m.dom().contains(i) && m[i] == set![l.spec_negate()]);
        }
    }
}

/// Ruling the complement out after dropping the satisfied clauses empties a
/// clause exactly when the original state held the bare complement.
pub proof fn lemma_conflicts_split(m: Map<int, Set<Lit>>, l: Lit)
    ensures
        shrink_conflicts(sat_removed(m, l), l.spec_negate()) == conflicts(m, l),
{
    let nl = l.spec_negate();
    if conflicts(m, l) {
        let i = choose|i: int| #[trigger] m.dom().contains(i) && m[i] == set![nl];
        assert(!m[i].contains(l)) by {
            if m[i].contains(l) {
                assert(l == nl);
            }
        }
        assert(sat_removed(m, l).dom().contains(i) && sat_removed(m, l)[i] == set![nl]);
    }
    if shrink_conflicts(sat_removed(m, l), nl) {
        let i = choose|i: int|
            #[trigger] sat_removed(m, l).dom().contains(i) && sat_removed(m, l)[i] == set![nl];
        assert(m.dom().contains(i) && m[i] == set![nl]);
    }
}

/// Appending one more forced literal to a valid propagation chain.
pub proof fn lemma_units_chain_snoc(m: Map<int, Set<Lit>>, lits: Seq<Lit>, l: Lit)
    requires
        units_chain(m, lits),
        exists|i: int|
            #[trigger] propagate_seq(m, lits).dom().contains(i) && propagate_seq(m, lits)[i]
                == set![l],
    ensures
        units_chain(m, lits.push(l)),
        propagate_seq(m, lits.push(l)) == propagated(propagate_seq(m, lits), l),
    decreases lits.len(),
{
    if lits.len() == 0 {
        assert(lits.push(l)[0] == l);
        assert(lits.push(l).skip(1) =~= Seq::<Lit>::empty());
        assert(propagate_seq(m, lits) == m);
        assert(propagate_seq(propagated(m, l), Seq::<Lit>::empty()) == propagated(m, l));
        assert(units_chain(propagated(m, l), Seq::<Lit>::empty()));
        assert(propagate_seq(m, lits.push(l)) == propagated(m, l));
    } else {
        let m1 = propagated(m, lits[0]);
        assert(propagate_seq(m, lits) == propagate_seq(m1, lits.skip(1)));
        assert(units_chain(m1, lits.skip(1)));
        let w = choose|i: int|
            #[trigger] propagate_seq(m, lits).dom().contains(i) && propagate_seq(m, lits)[i]
                == set![l];
        assert(propagate_seq(m1, lits.skip(1)).dom().contains(w) && propagate_seq(
            m1,
            lits.skip(1),
        )[w] == set![l]);
        lemma_units_chain_snoc(m1, lits.skip(1), l);
        assert(lits.skip(1).push(l) =~= lits.push(l).skip(1));
        assert(lits.push(l)[0] == lits[0]);
        assert(propagate_seq(m, lits.push(l)) == propagate_seq(m1, lits.push(l).skip(1)));
        assert(units_chain(m, lits.push(l))) by {
            assert(exists|i: int| #[trigger] m.dom().contains(i) && m[i] == set![lits.push(l)[0]]);
            assert(units_chain(m1, lits.push(l).skip(1)));
        }
    }
}

/// Propagating a literal a second time, immediately after a first
/// successful propagation, leaves the clause state unchanged and cannot
/// produce a conflict: the first pass already removed every clause holding
/// the literal and ruled its complement out everywhere.
pub proof fn lemma_propagation_idempotent(m: Map<int, Set<Lit>>, l: Lit)
    ensures
        propagated(propagated(m, l), l) == propagated(m, l),
        !conflicts(propagated(m, l), l),
{
    let m2 = propagated(m, l);
    let nl = l.spec_negate();
    assert forall|i: int| #[trigger] m2.dom().contains(i) implies !m2[i].contains(l) && !m2[i].contains(nl) by {
        assert(m2[i] == m[i].remove(nl));
    }
    assert(propagated(m2, l) =~= m2) by {
        assert(sat_removed(m2, l).dom() =~= m2.dom());
        assert forall|i: int| #[trigger] m2.dom().contains(i) implies propagated(m2, l)[i] == m2[i] by {
            assert(propagated(m2, l)[i] =~= m2[i]);
        }
    }
    assert(!conflicts(m2, l)) by {
        if conflicts(m2, l) {
            let i = choose|i: int| #[trigger] m2.dom().contains(i) && m2[i] == set![nl];
            assert(m2[i].contains(nl));
        }
    }
}

/// After a successful propagation of a literal, propagating its complement
/// is a no-op: the state no longer mentions the literal or its complement,
/// so nothing is removed, nothing shrinks, and no conflict can arise.
pub proof fn lemma_propagate_complement_noop(m: Map<int, Set<Lit>>, l: Lit)
    ensures
        propagated(propagated(m, l), l.spec_negate()) == propagated(m, l),
        !conflicts(propagated(m, l), l.spec_negate()),
{
    let m2 = propagated(m, l);
    let nl = l.spec_negate();
    assert forall|i: int| #[trigger] m2.dom().contains(i) implies !m2[i].contains(l) && !m2[i].contains(nl) by {
        assert(m2[i] == m[i].remove(nl));
    }
    assert(propagated(m2, nl) =~= m2) by {
        assert(sat_removed(m2, nl).dom() =~= m2.dom());
        assert forall|i: int| #[trigger] m2.dom().contains(i) implies propagated(m2, nl)[i] == m2[i] by {
            assert(propagated(m2, nl)[i] =~= m2[i]);
        }
    }
    assert(!conflicts(m2, nl)) by {
        if conflicts(m2, nl) {
            let i = choose|i: int| #[trigger] m2.dom().contains(i) && m2[i] == set![l];
            assert(m2[i].contains(l)) by {
                assert(nl.spec_negate() == l);
                assert(m2[i] == set![l]);
                assert(set![l].contains(l));
            }
        }
    }
}

} // verus!
