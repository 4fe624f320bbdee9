//! The clause database shared by both formula-engine variants.
//!
//! `FakeHashSet` is a small literal set that remembers the literals ruled
//! out of it: conflict analysis wants to see the literals a clause held
//! originally, not only the ones still unresolved. `ClauseDb` keeps the
//! clauses (keyed by stable ids), the occurrence index (literal code to the
//! ids of the active clauses still holding that literal, kept exact), and
//! the unit worklist (exactly the ids of the active one-literal clauses).

use vstd::prelude::*;

use crate::lit::{lit_of_code, Lit};
use crate::model::lit_set_of;

verus! {

/// Pushing an element extends what a literal list contains by exactly that
/// element.
pub(crate) proof fn lemma_push_contains(s: Seq<Lit>, x: Lit)
    ensures
        forall|y: Lit| #[trigger] s.push(x).contains(y) <==> s.contains(y) || y == x,
{
    assert forall|y: Lit| #[trigger] s.push(x).contains(y) implies s.contains(y) || y == x by {
        let j = choose|j: int| 0 <= j < s.push(x).len() && s.push(x)[j] == y;
        if j < s.len() {
            assert(s[j] == y);
        }
    }
    assert forall|y: Lit| s.contains(y) || y == x implies #[trigger] s.push(x).contains(y) by {
        if s.contains(y) {
            let j = choose|j: int| 0 <= j < s.len() && s[j] == y;
            assert(s.push(x)[j] == y);
        } else {
            assert(s.push(x)[s.len() as int] == y);
        }
    }
}

/// What `swap_remove` leaves of a duplicate-free literal list: everything
/// but the removed element, still duplicate-free.
proof fn lemma_swap_removed(s: Seq<Lit>, k: int)
    requires
        0 <= k < s.len(),
        forall|i: int, j: int| 0 <= i < j < s.len() ==> #[trigger] s[i] != #[trigger] s[j],
    ensures
        forall|y: Lit| #[trigger] s.update(k, s.last()).drop_last().contains(y) <==> s.contains(y)
            && y != s[k],
        forall|i: int, j: int|
            0 <= i < j < s.update(k, s.last()).drop_last().len() ==> #[trigger] s.update(
                k,
                s.last(),
            ).drop_last()[i] != #[trigger] s.update(k, s.last()).drop_last()[j],
{
    let s2 = s.update(k, s.last()).drop_last();
    assert forall|y: Lit| #[trigger] s2.contains(y) implies s.contains(y) && y != s[k] by {
        let j = choose|j: int| 0 <= j < s2.len() && s2[j] == y;
        if j == k {
            assert(s[s.len() - 1] == y);
            if y == s[k] {
                assert(k < s.len() - 1 ==> s[k] != s[s.len() - 1]);
            }
        } else {
            assert(s[j] == y);
            assert(y != s[k]);
        }
    }
    assert forall|y: Lit| s.contains(y) && y != s[k] implies #[trigger] s2.contains(y) by {
        let j = choose|j: int| 0 <= j < s.len() && s[j] == y;
        assert(j != k);
        if j == s.len() - 1 {
            assert(k < s.len() - 1);
            assert(s2[k] == y);
        } else {
            assert(s2[j] == y);
        }
    }
}

/// A set of literals with memory: removal retires a literal instead of
/// forgetting it, so the set can still report everything it ever held.
#[derive(Debug)]
pub struct FakeHashSet {
    pub live_items: Vec<Lit>,
    pub dead_items: Vec<Lit>,
}

impl FakeHashSet {
    /// The literals still in the set, in insertion order.
    pub open spec fn live_seq(self) -> Seq<Lit> {
        self.live_items@
    }

    /// The literals still in the set.
    pub open spec fn live(self) -> Set<Lit> {
        Set::new(|l: Lit| self.live_items@.contains(l))
    }

    /// Every literal the set has ever held.
    pub open spec fn full(self) -> Set<Lit> {
        Set::new(|l: Lit| self.live_items@.contains(l) || self.dead_items@.contains(l))
    }

    /// How many literals are still in the set.
    pub open spec fn width(self) -> nat {
        self.live_items@.len()
    }

    /// No duplicates, and no literal both live and retired.
    pub open spec fn wf(self) -> bool {
        &&& forall|i: int, j: int|
            0 <= i < j < self.live_items@.len() ==> #[trigger] self.live_items@[i]
                != #[trigger] self.live_items@[j]
        &&& forall|i: int, j: int|
            0 <= i < j < self.dead_items@.len() ==> #[trigger] self.dead_items@[i]
                != #[trigger] self.dead_items@[j]
        &&& forall|i: int|
            0 <= i < self.live_items@.len() ==> !self.dead_items@.contains(
                #[trigger] self.live_items@[i],
            )
    }

    pub fn new() -> (r: FakeHashSet)
        ensures
            r.wf(),
            r.live() =~= Set::<Lit>::empty(),
            r.full() =~= Set::<Lit>::empty(),
            r.width() == 0,
    {
        FakeHashSet { live_items: Vec::new(), dead_items: Vec::new() }
    }

    /// True when the literal is still in the set.
    pub fn contains(&self, lit: Lit) -> (r: bool)
        ensures
            r == self.live().contains(lit),
    {
        contains_lit(&self.live_items, lit)
    }

    /// Adds a literal that is not currently in the set; a retired literal
    /// comes back, a new one is appended.
    pub fn insert(&mut self, lit: Lit)
        requires
            old(self).wf(),
            !old(self).live().contains(lit),
        ensures
            final(self).wf(),
            final(self).live() == old(self).live().insert(lit),
            final(self).full() == old(self).full().insert(lit),
            final(self).width() == old(self).width() + 1,
    {
        let ghost pre = *self;
        if contains_lit(&self.dead_items, lit) {
            let k = index_of(&self.dead_items, lit);
            proof {
                lemma_swap_removed(pre.dead_items@, k as int);
            }
            self.dead_items.swap_remove(k);
            proof {
                lemma_push_contains(pre.live_items@, lit);
            }
            self.live_items.push(lit);
            proof {
                assert(self.live() =~= pre.live().insert(lit));
                assert(self.full() =~= pre.full().insert(lit));
            }
        } else {
            proof {
                lemma_push_contains(pre.live_items@, lit);
            }
            self.live_items.push(lit);
            proof {
                assert(self.live() =~= pre.live().insert(lit));
                assert(self.full() =~= pre.full().insert(lit));
            }
        }
    }

    /// Retires a literal that is currently in the set.
    pub fn remove(&mut self, lit: Lit)
        requires
            old(self).wf(),
            old(self).live().contains(lit),
        ensures
            final(self).wf(),
            final(self).live() == old(self).live().remove(lit),
            final(self).full() == old(self).full(),
            final(self).width() == old(self).width() - 1,
    {
        let ghost pre = *self;
        let k = index_of(&self.live_items, lit);
        proof {
            lemma_swap_removed(pre.live_items@, k as int);
        }
        self.live_items.swap_remove(k);
        proof {
            lemma_push_contains(pre.dead_items@, lit);
        }
        self.dead_items.push(lit);
        proof {
            assert(self.live() =~= pre.live().remove(lit));
            assert(self.full() =~= pre.full());
        }
    }

    /// How many literals are still in the set.
    pub fn len(&self) -> (r: usize)
        ensures
            r == self.width(),
    {
        self.live_items.len()
    }

    /// True when no literal is left in the set.
    pub fn is_empty(&self) -> (r: bool)
        ensures
            r == (self.width() == 0),
    {
        self.live_items.len() == 0
    }

    /// Builds a set from a list of literals, ignoring duplicates.
    pub fn from_set(v: &Vec<Lit>) -> (r: FakeHashSet)
        ensures
            r.wf(),
            forall|l: Lit| r.live().contains(l) <==> v@.contains(l),
            r.full() == r.live(),
            r.width() <= v@.len(),
    {
        let mut r = FakeHashSet::new();
        let mut k: usize = 0;
        while k < v.len()
            invariant
                k <= v@.len(),
                r.wf(),
                forall|l: Lit| r.live().contains(l) <==> v@.take(k as int).contains(l),
                r.full() == r.live(),
                r.width() <= k,
            decreases v@.len() - k,
        {
            let ghost prefix = v@.take(k as int);
            let lit = v[k];
            if !r.contains(lit) {
                r.insert(lit);
                proof {
                    assert(r.full() =~= r.live());
                }
            }
            proof {
                lemma_push_contains(prefix, v@[k as int]);
                assert(v@.take(k + 1int) =~= prefix.push(v@[k as int]));
                assert(forall|l: Lit| r.live().contains(l) <==> v@.take(k + 1int).contains(l));
            }
            k += 1;
        }
        proof {
            assert(v@.take(v@.len() as int) =~= v@);
        }
        r
    }

    /// The literals still in the set, as a list.
    pub fn iter(&self) -> (r: Vec<Lit>)
        ensures
            r@ == self.live_seq(),
    {
        copy_lits(&self.live_items)
    }

    /// Every literal the set has ever held, as a list.
    pub fn all(&self) -> (r: Vec<Lit>)
        ensures
            forall|l: Lit| r@.contains(l) <==> self.full().contains(l),
    {
        let mut r = copy_lits(&self.live_items);
        let mut j: usize = 0;
        while j < self.dead_items.len()
            invariant
                j <= self.dead_items@.len(),
                r@ == self.live_items@ + self.dead_items@.take(j as int),
            decreases self.dead_items@.len() - j,
        {
            r.push(self.dead_items[j]);
            proof {
                assert(self.live_items@ + self.dead_items@.take(j + 1int) =~= (self.live_items@
                    + self.dead_items@.take(j as int)).push(self.dead_items@[j as int]));
            }
            j += 1;
        }
        proof {
            assert(self.dead_items@.take(self.dead_items@.len() as int) =~= self.dead_items@);
            assert forall|l: Lit| r@.contains(l) <==> self.full().contains(l) by {
                if r@.contains(l) {
                    let i = choose|i: int| 0 <= i < r@.len() && r@[i] == l;
                    if i < self.live_items@.len() {
                        assert(self.live_items@[i] == l);
                    } else {
                        assert(self.dead_items@[i - self.live_items@.len()] == l);
                    }
                }
                if self.live_items@.contains(l) {
                    let i = choose|i: int|
                        0 <= i < self.live_items@.len() && self.live_items@[i] == l;
                    assert(r@[i] == l);
                }
                if self.dead_items@.contains(l) {
                    let i = choose|i: int|
                        0 <= i < self.dead_items@.len() && self.dead_items@[i] == l;
                    assert(r@[i + self.live_items@.len()] == l);
                }
            }
        }
        r
    }

    /// An independent copy with the same contents.
    pub fn duplicate(&self) -> (r: FakeHashSet)
        ensures
            r.live_items@ == self.live_items@,
            r.dead_items@ == self.dead_items@,
    {
        FakeHashSet {
            live_items: copy_lits(&self.live_items),
            dead_items: copy_lits(&self.dead_items),
        }
    }

    /// A one-literal set holds exactly its first literal.
    pub proof fn lemma_width_one(self)
        requires
            self.width() == 1,
        ensures
            self.live() == set![self.live_seq()[0]],
    {
        assert(self.live() =~= set![self.live_seq()[0]]) by {
            assert forall|x: Lit| self.live().contains(x) implies x == self.live_seq()[0] by {
                let j = choose|j: int| 0 <= j < self.live_items@.len() && self.live_items@[j] == x;
            }
            assert(self.live_items@.contains(self.live_seq()[0]));
        }
    }
}

/// True when the list holds the literal.
pub(crate) fn contains_lit(v: &Vec<Lit>, lit: Lit) -> (r: bool)
    ensures
        r == v@.contains(lit),
{
    let mut k: usize = 0;
    while k < v.len()
        invariant
            k <= v@.len(),
            forall|j: int| 0 <= j < k ==> v@[j] != lit,
        decreases v@.len() - k,
    {
        if v[k] == lit {
            return true;
        }
        k += 1;
    }
    false
}

/// The position of a literal known to be in the list.
fn index_of(v: &Vec<Lit>, lit: Lit) -> (r: usize)
    requires
        v@.contains(lit),
    ensures
        r < v@.len(),
        v@[r as int] == lit,
{
    let mut k: usize = 0;
    while k < v.len()
        invariant
            k <= v@.len(),
            forall|j: int| 0 <= j < k ==> v@[j] != lit,
        decreases v@.len() - k,
    {
        if v[k] == lit {
            return k;
        }
        k += 1;
    }
    proof {
        let j = choose|j: int| 0 <= j < v@.len() && v@[j] == lit;
        assert(false);
    }
    0
}

/// An element-for-element copy of a literal list.
fn copy_lits(v: &Vec<Lit>) -> (r: Vec<Lit>)
    ensures
        r@ == v@,
{
    let mut r: Vec<Lit> = Vec::new();
    let mut k: usize = 0;
    while k < v.len()
        invariant
            k <= v@.len(),
            r@ == v@.take(k as int),
        decreases v@.len() - k,
    {
        r.push(v[k]);
        proof {
            assert(v@.take(k + 1int) =~= v@.take(k as int).push(v@[k as int]));
        }
        k += 1;
    }
    proof {
        assert(v@.take(v@.len() as int) =~= v@);
    }
    r
}

/// An element-for-element copy of an id list.
pub(crate) fn copy_ids(v: &Vec<usize>) -> (r: Vec<usize>)
    ensures
        r@ == v@,
{
    let mut r: Vec<usize> = Vec::new();
    let mut k: usize = 0;
    while k < v.len()
        invariant
            k <= v@.len(),
            r@ == v@.take(k as int),
        decreases v@.len() - k,
    {
        r.push(v[k]);
        proof {
            assert(v@.take(k + 1int) =~= v@.take(k as int).push(v@[k as int]));
        }
        k += 1;
    }
    proof {
        assert(v@.take(v@.len() as int) =~= v@);
    }
    r
}


/// Pushing an id extends what an id list contains by exactly that id.
proof fn lemma_push_contains_id(s: Seq<usize>, x: usize)
    ensures
        forall|y: usize| #[trigger] s.push(x).contains(y) <==> s.contains(y) || y == x,
{
    assert forall|y: usize| #[trigger] s.push(x).contains(y) implies s.contains(y) || y == x by {
        let j = choose|j: int| 0 <= j < s.push(x).len() && s.push(x)[j] == y;
        if j < s.len() {
            assert(s[j] == y);
        }
    }
    assert forall|y: usize| s.contains(y) || y == x implies #[trigger] s.push(x).contains(y) by {
        if s.contains(y) {
            let j = choose|j: int| 0 <= j < s.len() && s[j] == y;
            assert(s.push(x)[j] == y);
        } else {
            assert(s.push(x)[s.len() as int] == y);
        }
    }
}

/// No id appears twice in the list.
pub open spec fn distinct_ids(s: Seq<usize>) -> bool {
    forall|k1: int, k2: int| 0 <= k1 < k2 < s.len() ==> #[trigger] s[k1] != #[trigger] s[k2]
}

/// What `swap_remove` leaves of a duplicate-free id list.
proof fn lemma_swap_removed_id(s: Seq<usize>, k: int)
    requires
        0 <= k < s.len(),
        distinct_ids(s),
    ensures
        forall|y: usize| #[trigger] s.update(k, s.last()).drop_last().contains(y) <==> s.contains(
            y,
        ) && y != s[k],
        distinct_ids(s.update(k, s.last()).drop_last()),
{
    let s2 = s.update(k, s.last()).drop_last();
    assert forall|y: usize| #[trigger] s2.contains(y) implies s.contains(y) && y != s[k] by {
        let j = choose|j: int| 0 <= j < s2.len() && s2[j] == y;
        if j == k {
            assert(s[s.len() - 1] == y);
            if y == s[k] {
                assert(k < s.len() - 1 ==> s[k] != s[s.len() - 1]);
            }
        } else {
            assert(s[j] == y);
            assert(y != s[k]);
        }
    }
    assert forall|y: usize| s.contains(y) && y != s[k] implies #[trigger] s2.contains(y) by {
        let j = choose|j: int| 0 <= j < s.len() && s[j] == y;
        assert(j != k);
        if j == s.len() - 1 {
            assert(k < s.len() - 1);
            assert(s2[k] == y);
        } else {
            assert(s2[j] == y);
        }
    }
}

/// Removes an id from a duplicate-free id list if it is there.
fn remove_id(v: &mut Vec<usize>, id: usize)
    requires
        distinct_ids(old(v)@),
    ensures
        distinct_ids(final(v)@),
        forall|y: usize| #[trigger] final(v)@.contains(y) <==> old(v)@.contains(y) && y != id,
{
    let ghost pre = v@;
    let mut k: usize = 0;
    while k < v.len()
        invariant
            v@ == pre,
            k <= pre.len(),
            forall|j: int| 0 <= j < k ==> pre[j] != id,
        decreases pre.len() - k,
    {
        if v[k] == id {
            proof {
                lemma_swap_removed_id(pre, k as int);
            }
            v.swap_remove(k);
            return ;
        }
        k += 1;
    }
    proof {
        assert forall|y: usize| #[trigger] v@.contains(y) <==> pre.contains(y) && y != id by {
            if pre.contains(y) && y == id {
                let j = choose|j: int| 0 <= j < pre.len() && pre[j] == y;
                assert(false);
            }
        }
    }
}

/// A mutable borrow of one clause slot.
fn slot_at(v: &mut Vec<ClauseSlot>, i: usize) -> (r: &mut ClauseSlot)
    requires
        i < old(v)@.len(),
    ensures
        *r == old(v)@[i as int],
        final(v)@ == old(v)@.update(i as int, *final(r)),
{
    &mut v[i]
}

/// A mutable borrow of one occurrence entry.
fn occ_at(v: &mut Vec<Vec<usize>>, c: usize) -> (r: &mut Vec<usize>)
    requires
        c < old(v)@.len(),
    ensures
        *r == old(v)@[c as int],
        final(v)@ == old(v)@.update(c as int, *final(r)),
{
    &mut v[c]
}

/// One stored clause: its literal set and whether it is still active.
#[derive(Debug)]
pub struct ClauseSlot {
    pub lits: FakeHashSet,
    pub active: bool,
}

/// How many slots are active.
pub open spec fn active_count(s: Seq<ClauseSlot>) -> nat
    decreases s.len(),
{
    if s.len() == 0 {
        0
    } else {
        active_count(s.drop_last()) + if s.last().active {
            1nat
        } else {
            0nat
        }
    }
}

proof fn lemma_active_count_le(s: Seq<ClauseSlot>)
    ensures
        active_count(s) <= s.len(),
    decreases s.len(),
{
    if s.len() > 0 {
        lemma_active_count_le(s.drop_last());
    }
}

proof fn lemma_active_count_update(s: Seq<ClauseSlot>, i: int, slot: ClauseSlot)
    requires
        0 <= i < s.len(),
    ensures
        active_count(s.update(i, slot)) == active_count(s) - (if s[i].active {
            1int
        } else {
            0int
        }) + (if slot.active {
            1int
        } else {
            0int
        }),
    decreases s.len(),
{
    let s2 = s.update(i, slot);
    if i == s.len() - 1 {
        assert(s2.drop_last() =~= s.drop_last());
    } else {
        assert(s2.drop_last() =~= s.drop_last().update(i, slot));
        lemma_active_count_update(s.drop_last(), i, slot);
    }
}

proof fn lemma_active_count_push(s: Seq<ClauseSlot>, slot: ClauseSlot)
    ensures
        active_count(s.push(slot)) == active_count(s) + if slot.active {
            1int
        } else {
            0int
        },
{
    assert(s.push(slot).drop_last() =~= s);
}

proof fn lemma_active_count_zero(s: Seq<ClauseSlot>)
    ensures
        (active_count(s) == 0) <==> (forall|i: int| 0 <= i < s.len() ==> !(#[trigger] s[i]).active),
    decreases s.len(),
{
    if s.len() > 0 {
        lemma_active_count_zero(s.drop_last());
        assert(s.last() == s[s.len() - 1]);
        assert(forall|i: int| 0 <= i < s.len() - 1 ==> s.drop_last()[i] == #[trigger] s[i]);
        if active_count(s) == 0 {
            assert forall|i: int| 0 <= i < s.len() implies !(#[trigger] s[i]).active by {
                if i < s.len() - 1 {
                    assert(s.drop_last()[i] == s[i]);
                }
            }
        }
    }
}

/// The live clause set with its occurrence index and unit worklist.
///
/// Invariants: the occurrence entry of a literal code lists exactly the
/// active clauses still holding that literal, without duplicates, and the
/// unit worklist holds exactly the ids of the active one-literal clauses.
#[derive(Debug)]
pub struct ClauseDb {
    pub n_lit: usize,
    pub slots: Vec<ClauseSlot>,
    pub occ: Vec<Vec<usize>>,
    pub units: Vec<usize>,
    pub n_active: usize,
}

impl ClauseDb {
    /// The active clauses, by id, as sets of unresolved literals.
    pub open spec fn model(self) -> Map<int, Set<Lit>> {
        Map::new(
            |i: int| 0 <= i < self.slots@.len() && self.slots@[i].active,
            |i: int| self.slots@[i].lits.live(),
        )
    }

    /// The literal is still unresolved in some active clause.
    pub open spec fn occurs(self, l: Lit) -> bool {
        exists|i: int| #[trigger] self.model().dom().contains(i) && self.model()[i].contains(l)
    }

    /// Size and range invariants that hold even while the index is being
    /// rebuilt: every stored literal refers to a declared variable.
    pub open spec fn lits_ok(self) -> bool {
        &&& self.n_lit <= usize::MAX / 2
        &&& self.occ@.len() == 2 * self.n_lit
        &&& forall|i: int| 0 <= i < self.slots@.len() ==> (#[trigger] self.slots@[i]).lits.wf()
        &&& forall|i: int, l: Lit|
            0 <= i < self.slots@.len() && #[trigger] self.slots@[i].lits.full().contains(l)
                ==> l.var < self.n_lit
    }

    /// One occurrence entry is sound: its ids are distinct active clauses
    /// that still hold the entry's literal.
    pub open spec fn occ_entry_wf(self, c: int) -> bool {
        &&& forall|k: int|
            0 <= k < self.occ@[c]@.len() ==> (#[trigger] self.occ@[c]@[k]) < self.slots@.len()
                && self.slots@[self.occ@[c]@[k] as int].active
                && self.slots@[self.occ@[c]@[k] as int].lits.live().contains(lit_of_code(c))
        &&& distinct_ids(self.occ@[c]@)
    }

    /// The occurrence index is exact: sound entries, and every unresolved
    /// literal of every active clause is indexed.
    pub open spec fn occ_wf(self) -> bool {
        &&& forall|c: int| 0 <= c < self.occ@.len() ==> #[trigger] self.occ_entry_wf(c)
        &&& forall|i: int, l: Lit|
            0 <= i < self.slots@.len() && self.slots@[i].active
                && #[trigger] self.slots@[i].lits.live().contains(l) ==> self.occ@[
                l.cs()
            ]@.contains(i as usize)
    }

    /// The unit worklist is exact: distinct ids of active one-literal
    /// clauses, all of them.
    pub open spec fn units_wf(self) -> bool {
        &&& forall|k: int|
            0 <= k < self.units@.len() ==> (#[trigger] self.units@[k]) < self.slots@.len()
                && self.slots@[self.units@[k] as int].active
                && self.slots@[self.units@[k] as int].lits.width() == 1
        &&& distinct_ids(self.units@)
        &&& forall|i: int|
            0 <= i < self.slots@.len() && (#[trigger] self.slots@[i]).active && self.slots@[i].lits.width() == 1 ==> self.units@.contains(i as usize)
    }

    pub open spec fn wf(self) -> bool {
        &&& self.lits_ok()
        &&& self.occ_wf()
        &&& self.units_wf()
        &&& self.n_active == active_count(self.slots@)
    }

    /// An empty database over `n_lit` variables.
    pub fn new(n_lit: usize) -> (r: ClauseDb)
        requires
            n_lit <= usize::MAX / 2,
        ensures
            r.wf(),
            r.n_lit == n_lit,
            r.slots@.len() == 0,
            r.model() =~= Map::<int, Set<Lit>>::empty(),
            r.n_active == 0,
            r.units@.len() == 0,
    {
        let mut occ: Vec<Vec<usize>> = Vec::new();
        let mut c: usize = 0;
        while c < 2 * n_lit
            invariant
                occ@.len() == c,
                c <= 2 * n_lit,
                forall|j: int| 0 <= j < c ==> (#[trigger] occ@[j])@.len() == 0,
            decreases 2 * n_lit - c,
        {
            occ.push(Vec::new());
            c += 1;
        }
        let r = ClauseDb { n_lit, slots: Vec::new(), occ, units: Vec::new(), n_active: 0 };
        proof {
            assert(r.model() =~= Map::<int, Set<Lit>>::empty());
        }
        r
    }

    /// How many clauses are still active.
    pub fn num_active(&self) -> (r: usize)
        requires
            self.wf(),
        ensures
            r == active_count(self.slots@),
            (r == 0) <==> (self.model().dom() =~= Set::<int>::empty()),
    {
        proof {
            lemma_active_count_zero(self.slots@);
            if self.n_active == 0 {
                assert(self.model().dom() =~= Set::<int>::empty());
            } else {
                if self.model().dom() =~= Set::<int>::empty() {
                    assert forall|i: int| 0 <= i < self.slots@.len() implies !(
                    #[trigger] self.slots@[i]).active by {
                        if self.slots@[i].active {
                            assert(self.model().dom().contains(i));
                        }
                    }
                }
            }
        }
        self.n_active
    }

    /// How many clause ids have ever been assigned.
    pub fn total(&self) -> (r: usize)
        ensures
            r == self.slots@.len(),
    {
        self.slots.len()
    }

    /// Whether the clause with this id is still active.
    pub fn is_active(&self, id: usize) -> (r: bool)
        ensures
            r == (id < self.slots@.len() && self.slots@[id as int].active),
    {
        id < self.slots.len() && self.slots[id].active
    }

    /// The literal is still unresolved in some active clause.
    pub fn has_occurrence(&self, l: Lit) -> (r: bool)
        requires
            self.wf(),
            l.var < self.n_lit,
        ensures
            r == self.occurs(l),
    {
        let c = l.code();
        let r = self.occ[c].len() > 0;
        proof {
            crate::lit::lemma_code_roundtrip(l);
            if r {
                let id = self.occ@[l.cs()]@[0];
                assert(self.occ_entry_wf(l.cs()));
                assert(self.model().dom().contains(id as int) && self.model()[id as int].contains(
                    l,
                ));
            } else {
                if self.occurs(l) {
                    let i = choose|i: int|
                        #[trigger] self.model().dom().contains(i) && self.model()[i].contains(l);
                    assert(self.occ@[l.cs()]@.contains(i as usize));
                }
            }
        }
        r
    }

    /// True when no literal occurs in any active clause.
    pub fn no_occurrences(&self) -> (r: bool)
        requires
            self.wf(),
        ensures
            r == (forall|l: Lit| !(#[trigger] self.occurs(l))),
    {
        let mut c: usize = 0;
        let n = self.occ.len();
        while c < n
            invariant
                c <= self.occ@.len(),
                n == self.occ@.len(),
                forall|j: int| 0 <= j < c ==> (#[trigger] self.occ@[j])@.len() == 0,
            decreases self.occ@.len() - c,
        {
            if self.occ[c].len() > 0 {
                proof {
                    let id = self.occ@[c as int]@[0];
                    assert(self.occ_entry_wf(c as int));
                    assert(self.model().dom().contains(id as int)
                        && self.model()[id as int].contains(lit_of_code(c as int)));
                    assert(self.occurs(lit_of_code(c as int)));
                }
                return false;
            }
            c += 1;
        }
        proof {
            assert forall|l: Lit| !(#[trigger] self.occurs(l)) by {
                if self.occurs(l) {
                    let i = choose|i: int|
                        #[trigger] self.model().dom().contains(i) && self.model()[i].contains(l);
                    assert(self.slots@[i].lits.full().contains(l));
                    assert(l.var < self.n_lit);
                    assert(self.occ@[l.cs()]@.contains(i as usize));
                }
            }
        }
        true
    }

    /// The smallest occurring literal, normalized to its positive form;
    /// nothing when no literal occurs. Smallest means: the returned
    /// variable's positive code is no larger than any occurring literal's
    /// code, so the result is the minimum occurring literal up to
    /// polarity normalization.
    pub fn first_occurring(&self) -> (r: Option<Lit>)
        requires
            self.wf(),
        ensures
            match r {
                Some(l) => l.var < self.n_lit && !l.neg && (self.occurs(l) || self.occurs(
                    l.spec_negate(),
                )) && (forall|y: Lit| #[trigger] self.occurs(y) ==> 2 * l.var <= y.cs()),
                None => forall|l: Lit| !(#[trigger] self.occurs(l)),
            },
    {
        let mut c: usize = 0;
        let n = self.occ.len();
        while c < n
            invariant
                c <= self.occ@.len(),
                n == self.occ@.len(),
                forall|j: int| 0 <= j < c ==> (#[trigger] self.occ@[j])@.len() == 0,
            decreases self.occ@.len() - c,
        {
            if self.occ[c].len() > 0 {
                let l = Lit { var: c / 2, neg: false };
                proof {
                    let id = self.occ@[c as int]@[0];
                    assert(self.occ_entry_wf(c as int));
                    let w = lit_of_code(c as int);
                    assert(self.model().dom().contains(id as int)
                        && self.model()[id as int].contains(w));
                    assert(self.occurs(w));
                    assert(self.slots@[id as int].lits.full().contains(w));
                    assert(w.var < self.n_lit);
                    if c % 2 == 0 {
                        assert(w == l);
                    } else {
                        assert(w == l.spec_negate());
                    }
                    assert forall|y: Lit| #[trigger] self.occurs(y) implies 2 * l.var
                        <= y.cs() by {
                        let i = choose|i: int|
                            #[trigger] self.model().dom().contains(i) && self.model()[i].contains(
                                y,
                            );
                        assert(self.slots@[i].lits.full().contains(y));
                        assert(y.var < self.n_lit);
                        assert(self.occ@[y.cs()]@.contains(i as usize));
                        if y.cs() < c as int {
                            assert(self.occ@[y.cs()]@.len() == 0);
                        }
                        assert(2 * l.var <= c as int);
                    }
                }
                return Some(l);
            }
            c += 1;
        }
        proof {
            assert forall|l: Lit| !(#[trigger] self.occurs(l)) by {
                if self.occurs(l) {
                    let i = choose|i: int|
                        #[trigger] self.model().dom().contains(i) && self.model()[i].contains(l);
                    assert(self.slots@[i].lits.full().contains(l));
                    assert(self.occ@[l.cs()]@.contains(i as usize));
                }
            }
        }
        None
    }

    /// Every literal code with a nonempty occurrence entry.
    pub fn occurring_codes(&self) -> (r: Vec<usize>)
        requires
            self.wf(),
        ensures
            forall|k: int|
                0 <= k < r@.len() ==> (#[trigger] r@[k]) < 2 * self.n_lit && self.occurs(
                    lit_of_code(r@[k] as int),
                ),
            r@.len() == 0 ==> forall|l: Lit| !(#[trigger] self.occurs(l)),
    {
        let mut r: Vec<usize> = Vec::new();
        let mut c: usize = 0;
        let n = self.occ.len();
        while c < n
            invariant
                c <= self.occ@.len(),
                n == self.occ@.len(),
                forall|k: int|
                    0 <= k < r@.len() ==> (#[trigger] r@[k]) < 2 * self.n_lit && self.occurs(
                        lit_of_code(r@[k] as int),
                    ),
                r@.len() == 0 ==> forall|j: int| 0 <= j < c ==> (#[trigger] self.occ@[j])@.len()
                    == 0,
            decreases self.occ@.len() - c,
        {
            if self.occ[c].len() > 0 {
                proof {
                    let id = self.occ@[c as int]@[0];
                    assert(self.occ_entry_wf(c as int));
                    assert(self.model().dom().contains(id as int)
                        && self.model()[id as int].contains(lit_of_code(c as int)));
                }
                r.push(c);
            }
            c += 1;
        }
        proof {
            if r@.len() == 0 {
                assert forall|l: Lit| !(#[trigger] self.occurs(l)) by {
                    if self.occurs(l) {
                        let i = choose|i: int|
                            #[trigger] self.model().dom().contains(i)
                                && self.model()[i].contains(l);
                        assert(self.slots@[i].lits.full().contains(l));
                        assert(self.occ@[l.cs()]@.contains(i as usize));
                    }
                }
            }
        }
        r
    }

    /// The literals that occur only in one polarity among the active
    /// clauses: each may safely be assigned true.
    pub fn pure_literals(&self) -> (r: Vec<Lit>)
        requires
            self.wf(),
        ensures
            forall|k: int|
                0 <= k < r@.len() ==> (#[trigger] r@[k]).var < self.n_lit && self.occurs(r@[k])
                    && !self.occurs(r@[k].spec_negate()),
            forall|k1: int, k2: int|
                0 <= k1 < k2 < r@.len() ==> (#[trigger] r@[k1]).var != (#[trigger] r@[k2]).var,
    {
        let mut r: Vec<Lit> = Vec::new();
        let mut c: usize = 0;
        let n = self.occ.len();
        while c < n
            invariant
                c <= self.occ@.len(),
                n == self.occ@.len(),
                forall|k: int|
                    0 <= k < r@.len() ==> (#[trigger] r@[k]).var < self.n_lit && self.occurs(r@[k])
                        && !self.occurs(r@[k].spec_negate()) && r@[k].cs() < c,
                forall|k1: int, k2: int| 0 <= k1 < k2 < r@.len() ==> #[trigger] r@[k1]
                    != #[trigger] r@[k2],
            decreases self.occ@.len() - c,
        {
            let comp = if c % 2 == 0 {
                c + 1
            } else {
                c - 1
            };
            if self.occ[c].len() > 0 && self.occ[comp].len() == 0 {
                let l = Lit { var: c / 2, neg: c % 2 == 1 };
                proof {
                    assert(l == lit_of_code(c as int));
                    assert(l.cs() == c as int);
                    assert(l.spec_negate().cs() == comp as int);
                    let id = self.occ@[c as int]@[0];
                    assert(self.occ_entry_wf(c as int));
                    assert(self.model().dom().contains(id as int)
                        && self.model()[id as int].contains(l));
                    assert(self.slots@[id as int].lits.full().contains(l));
                    assert(l.var < self.n_lit);
                    if self.occurs(l.spec_negate()) {
                        let i = choose|i: int|
                            #[trigger] self.model().dom().contains(i) && self.model()[i].contains(
                                l.spec_negate(),
                            );
                        assert(self.occ@[l.spec_negate().cs()]@.contains(i as usize));
                    }
                }
                r.push(l);
            }
            c += 1;
        }
        proof {
            assert forall|k1: int, k2: int| 0 <= k1 < k2 < r@.len() implies (
            #[trigger] r@[k1]).var != (#[trigger] r@[k2]).var by {
                if r@[k1].var == r@[k2].var {
                    assert(r@[k1] != r@[k2]);
                    assert(r@[k2] == r@[k1].spec_negate());
                    assert(self.occurs(r@[k2]));
                }
            }
        }
        r
    }

    /// Every literal the clause with this id has ever held.
    pub fn clause_all_lits(&self, id: usize) -> (r: Vec<Lit>)
        requires
            self.lits_ok(),
            id < self.slots@.len(),
        ensures
            forall|l: Lit| r@.contains(l) <==> self.slots@[id as int].lits.full().contains(l),
            forall|k: int| 0 <= k < r@.len() ==> (#[trigger] r@[k]).var < self.n_lit,
    {
        let r = self.slots[id].lits.all();
        proof {
            assert forall|k: int| 0 <= k < r@.len() implies (#[trigger] r@[k]).var
                < self.n_lit by {
                assert(r@.contains(r@[k]));
            }
        }
        r
    }

    /// An independent copy of the whole database.
    pub fn snapshot(&self) -> (r: ClauseDb)
        requires
            self.wf(),
        ensures
            r.wf(),
            r.n_lit == self.n_lit,
            r.n_active == self.n_active,
            r.slots@.len() == self.slots@.len(),
            r.model() == self.model(),
    {
        let mut slots: Vec<ClauseSlot> = Vec::new();
        let mut k: usize = 0;
        while k < self.slots.len()
            invariant
                k <= self.slots@.len(),
                slots@.len() == k,
                forall|i: int|
                    0 <= i < k ==> (#[trigger] slots@[i]).lits.live_items@
                        == self.slots@[i].lits.live_items@ && slots@[i].lits.dead_items@
                        == self.slots@[i].lits.dead_items@ && slots@[i].active == self.slots@[i].active,
            decreases self.slots@.len() - k,
        {
            let lits = self.slots[k].lits.duplicate();
            let active = self.slots[k].active;
            slots.push(ClauseSlot { lits, active });
            k += 1;
        }
        let mut occ: Vec<Vec<usize>> = Vec::new();
        let mut c: usize = 0;
        while c < self.occ.len()
            invariant
                c <= self.occ@.len(),
                occ@.len() == c,
                forall|j: int| 0 <= j < c ==> (#[trigger] occ@[j])@ == self.occ@[j]@,
            decreases self.occ@.len() - c,
        {
            occ.push(copy_ids(&self.occ[c]));
            c += 1;
        }
        let units = copy_ids(&self.units);
        let r = ClauseDb { n_lit: self.n_lit, slots, occ, units, n_active: self.n_active };
        proof {
            assert(active_count(r.slots@) == active_count(self.slots@)) by {
                lemma_active_count_eq(r.slots@, self.slots@);
            }
            assert forall|i: int| 0 <= i < r.slots@.len() implies (
            #[trigger] r.slots@[i]).lits.live() == self.slots@[i].lits.live()
                && r.slots@[i].lits.full() == self.slots@[i].lits.full() by {
                assert(r.slots@[i].lits.live() =~= self.slots@[i].lits.live());
                assert(r.slots@[i].lits.full() =~= self.slots@[i].lits.full());
            }
            assert(r.model() =~= self.model());
            assert forall|c2: int| 0 <= c2 < r.occ@.len() implies #[trigger] r.occ_entry_wf(
                c2,
            ) by {
                assert(self.occ_entry_wf(c2));
                assert(r.occ@[c2]@ == self.occ@[c2]@);
            }
            assert(r.lits_ok()) by {
                assert forall|i: int|
                    0 <= i < r.slots@.len() implies (#[trigger] r.slots@[i]).lits.wf() by {
                    assert(self.slots@[i].lits.wf());
                }
                assert forall|i: int, l: Lit|
                    0 <= i < r.slots@.len() && #[trigger] r.slots@[i].lits.full().contains(
                    l) implies l.var < r.n_lit by {
                    assert(self.slots@[i].lits.full().contains(l));
                }
            }
            assert(r.occ_wf()) by {
                assert forall|i: int, l: Lit|
                    0 <= i < r.slots@.len() && r.slots@[i].active
                        && #[trigger] r.slots@[i].lits.live().contains(l) implies r.occ@[
                    l.cs()]@.contains(i as usize) by {
                    assert(self.slots@[i].lits.live().contains(l));
                    assert(self.slots@[i].lits.full().contains(l));
                    assert(self.occ@[l.cs()]@.contains(i as usize));
                    assert(r.occ@[l.cs()]@ == self.occ@[l.cs()]@);
                }
            }
            assert(r.units_wf()) by {
                assert(r.units@ == self.units@);
                assert forall|k: int|
                    0 <= k < r.units@.len() implies (#[trigger] r.units@[k]) < r.slots@.len()
                        && r.slots@[r.units@[k] as int].active
                        && r.slots@[r.units@[k] as int].lits.width() == 1 by {
                    let id = self.units@[k];
                    assert(id < self.slots@.len() && self.slots@[id as int].active
                        && self.slots@[id as int].lits.width() == 1);
                }
                assert forall|i: int|
                    0 <= i < r.slots@.len() && (#[trigger] r.slots@[i]).active
                        && r.slots@[i].lits.width() == 1 implies r.units@.contains(
                    i as usize) by {
                    assert(self.slots@[i].active && self.slots@[i].lits.width() == 1);
                }
            }
        }
        r
    }
}


/// With no one-literal clause active, no propagation can empty a clause.
pub proof fn lemma_no_units_no_conflicts(db: ClauseDb)
    requires
        db.wf(),
        forall|i: int|
            db.model().dom().contains(i) ==> (#[trigger] db.slots@[i]).lits.width() != 1,
    ensures
        forall|l: Lit| !(#[trigger] crate::model::conflicts(db.model(), l)),
{
    assert forall|l: Lit| !(#[trigger] crate::model::conflicts(db.model(), l)) by {
        if crate::model::conflicts(db.model(), l) {
            let i = choose|i: int|
                #[trigger] db.model().dom().contains(i) && db.model()[i] == set![l.spec_negate()];
            let s0 = db.slots@[i].lits.live_seq();
            assert(db.slots@[i].lits.live().contains(l.spec_negate())) by {
                assert(set![l.spec_negate()].contains(l.spec_negate()));
            }
            assert(s0.contains(l.spec_negate()));
            assert(s0.len() >= 1);
            if s0.len() >= 2 {
                assert(s0.contains(s0[0]) && s0.contains(s0[1]));
                assert(db.slots@[i].lits.live().contains(s0[0]));
                assert(db.slots@[i].lits.live().contains(s0[1]));
                assert(s0[0] == l.spec_negate() && s0[1] == l.spec_negate());
            }
            assert(db.slots@[i].lits.width() == 1);
        }
    }
}

/// Slot lists that agree on activity have the same active count.
proof fn lemma_active_count_eq(a: Seq<ClauseSlot>, b: Seq<ClauseSlot>)
    requires
        a.len() == b.len(),
        forall|i: int| 0 <= i < a.len() ==> (#[trigger] a[i]).active == (#[trigger] b[i]).active,
    ensures
        active_count(a) == active_count(b),
    decreases a.len(),
{
    if a.len() > 0 {
        assert forall|i: int| 0 <= i < a.len() - 1 implies (#[trigger] a.drop_last()[i]).active == (
        #[trigger] b.drop_last()[i]).active by {
            assert(a[i].active == b[i].active);
        }
        lemma_active_count_eq(a.drop_last(), b.drop_last());
        assert(a.last().active == b.last().active);
    }
}


/// Some literal among the first `n` of the list has code `c`.
pub open spec fn has_code(s: Seq<Lit>, n: int, c: int) -> bool {
    exists|j: int| 0 <= j < n && (#[trigger] s[j]).cs() == c
}

/// A clause that shrank during complement removal: its id and the literals
/// it still holds.
#[derive(Debug)]
pub struct ShrunkClause {
    pub id: usize,
    pub rest: Vec<Lit>,
}

/// Some entry of the shrunk-clause list reports the clause with this id.
pub open spec fn shrunk_covers(infos: Seq<ShrunkClause>, i: int) -> bool {
    exists|k2: int| 0 <= k2 < infos.len() && (#[trigger] infos[k2]).id as int == i
}

impl ClauseDb {
    /// Registers a new clause: assigns the next id, indexes every literal,
    /// and enqueues the clause if it is a unit.
    pub fn add_clause(&mut self, lits_in: &Vec<Lit>)
        requires
            old(self).wf(),
            forall|k: int|
                0 <= k < lits_in@.len() ==> (#[trigger] lits_in@[k]).var < old(self).n_lit,
            old(self).slots@.len() < usize::MAX,
        ensures
            final(self).wf(),
            final(self).n_lit == old(self).n_lit,
            final(self).slots@.len() == old(self).slots@.len() + 1,
            final(self).model() == old(self).model().insert(
                old(self).slots@.len() as int,
                lit_set_of(lits_in@),
            ),
    {
        let ghost pre = *self;
        let cl = FakeHashSet::from_set(lits_in);
        proof {
            assert forall|l: Lit| cl.live().contains(l) implies l.var < self.n_lit by {
                assert(lits_in@.contains(l));
                let j = choose|j: int| 0 <= j < lits_in@.len() && lits_in@[j] == l;
                assert(lits_in@[j].var < self.n_lit);
            }
        }
        let id = self.slots.len();
        let ls = cl.iter();
        proof {
            assert forall|k: int| 0 <= k < ls@.len() implies (#[trigger] ls@[k]).var
                < self.n_lit by {
                assert(ls@.contains(ls@[k]));
                assert(cl.live().contains(ls@[k]));
            }
        }
        let mut k: usize = 0;
        while k < ls.len()
            invariant
                self.n_lit == pre.n_lit,
                self.slots@ == pre.slots@,
                self.units@ == pre.units@,
                self.n_active == pre.n_active,
                k <= ls@.len(),
                self.occ@.len() == pre.occ@.len(),
                forall|c: int|
                    0 <= c < self.occ@.len() && has_code(ls@, k as int, c) ==> (
                    #[trigger] self.occ@[c])@ == pre.occ@[c]@.push(id as usize),
                forall|c: int|
                    0 <= c < self.occ@.len() && !has_code(ls@, k as int, c) ==> (
                    #[trigger] self.occ@[c])@ == pre.occ@[c]@,
            decreases ls@.len() - k,
        {
            let lk = ls[k];
            proof {
                assert(ls@.contains(ls@[k as int]));
                assert(cl.live().contains(lk));
            }
            let c = lk.code();
            proof {
                assert(!has_code(ls@, k as int, c as int)) by {
                    if has_code(ls@, k as int, c as int) {
                        let j = choose|j: int|
                            0 <= j < k && (#[trigger] ls@[j]).cs() == c as int;
                        crate::lit::lemma_code_injective(ls@[j], lk);
                        assert(ls@[j] == ls@[k as int]);
                    }
                }
            }
            let e = occ_at(&mut self.occ, c);
            e.push(id);
            proof {
                assert forall|c2: int|
                    0 <= c2 < self.occ@.len() && has_code(ls@, k + 1int, c2) implies (
                #[trigger] self.occ@[c2])@ == pre.occ@[c2]@.push(id as usize) by {
                    let j = choose|j: int| 0 <= j < k + 1 && (#[trigger] ls@[j]).cs() == c2;
                    if j < k {
                        assert(has_code(ls@, k as int, c2));
                    } else {
                        assert(c2 == c as int);
                    }
                }
                assert forall|c2: int|
                    0 <= c2 < self.occ@.len() && !has_code(ls@, k + 1int, c2) implies (
                #[trigger] self.occ@[c2])@ == pre.occ@[c2]@ by {
                    assert(!has_code(ls@, k as int, c2)) by {
                        if has_code(ls@, k as int, c2) {
                            let j = choose|j: int|
                                0 <= j < k && (#[trigger] ls@[j]).cs() == c2;
                        }
                    }
                    assert(c2 != c as int) by {
                        if c2 == c as int {
                            assert(ls@[k as int].cs() == c2);
                        }
                    }
                }
            }
            k += 1;
        }
        if cl.len() == 1 {
            self.units.push(id);
        }
        proof {
            lemma_active_count_le(pre.slots@);
        }
        self.slots.push(ClauseSlot { lits: cl, active: true });
        self.n_active = self.n_active + 1;
        proof {
            let fin = *self;
            lemma_active_count_push(pre.slots@, ClauseSlot { lits: cl, active: true });
            assert forall|l: Lit| cl.live().contains(l) implies has_code(
                ls@,
                ls@.len() as int,
                l.cs(),
            ) by {
                let j = choose|j: int| 0 <= j < ls@.len() && ls@[j] == l;
                assert(ls@[j].cs() == l.cs());
            }
            assert forall|c: int| 0 <= c < fin.occ@.len() implies #[trigger] fin.occ_entry_wf(
                c,
            ) by {
                assert(pre.occ_entry_wf(c));
                if has_code(ls@, ls@.len() as int, c) {
                    assert(fin.occ@[c]@ == pre.occ@[c]@.push(id as usize));
                    lemma_push_contains_id(pre.occ@[c]@, id as usize);
                    let j = choose|j: int| 0 <= j < ls@.len() && (#[trigger] ls@[j]).cs() == c;
                    crate::lit::lemma_code_roundtrip(ls@[j]);
                    assert(cl.live().contains(lit_of_code(c)));
                    assert forall|k2: int| 0 <= k2 < fin.occ@[c]@.len() implies (
                    #[trigger] fin.occ@[c]@[k2]) < fin.slots@.len()
                        && fin.slots@[fin.occ@[c]@[k2] as int].active
                        && fin.slots@[fin.occ@[c]@[k2] as int].lits.live().contains(
                        lit_of_code(c)) by {
                        if k2 < pre.occ@[c]@.len() {
                            assert(pre.occ@[c]@[k2] < pre.slots@.len());
                            assert(fin.slots@[fin.occ@[c]@[k2] as int]
                                == pre.slots@[pre.occ@[c]@[k2] as int]);
                        } else {
                            assert(fin.occ@[c]@[k2] == id as usize);
                        }
                    }
                    assert(distinct_ids(fin.occ@[c]@)) by {
                        assert forall|k1: int, k2: int|
                            0 <= k1 < k2 < fin.occ@[c]@.len() implies (
                        #[trigger] fin.occ@[c]@[k1]) != (#[trigger] fin.occ@[c]@[k2]) by {
                            if k2 == fin.occ@[c]@.len() - 1 {
                                assert(pre.occ@[c]@[k1] < pre.slots@.len());
                            }
                        }
                    }
                } else {
                    assert(fin.occ@[c]@ == pre.occ@[c]@);
                    assert forall|k2: int| 0 <= k2 < fin.occ@[c]@.len() implies (
                    #[trigger] fin.occ@[c]@[k2]) < fin.slots@.len()
                        && fin.slots@[fin.occ@[c]@[k2] as int].active
                        && fin.slots@[fin.occ@[c]@[k2] as int].lits.live().contains(
                        lit_of_code(c)) by {
                        assert(pre.occ@[c]@[k2] < pre.slots@.len());
                        assert(fin.slots@[fin.occ@[c]@[k2] as int]
                            == pre.slots@[pre.occ@[c]@[k2] as int]);
                    }
                }
            }
            assert forall|i: int, l: Lit|
                0 <= i < fin.slots@.len() && fin.slots@[i].active
                    && #[trigger] fin.slots@[i].lits.live().contains(l) implies fin.occ@[
            l.cs()]@.contains(i as usize) by {
                if i < pre.slots@.len() {
                    assert(pre.slots@[i].lits.live().contains(l));
                    assert(pre.slots@[i].lits.full().contains(l));
                    assert(pre.occ@[l.cs()]@.contains(i as usize));
                    if has_code(ls@, ls@.len() as int, l.cs()) {
                        lemma_push_contains_id(pre.occ@[l.cs()]@, id as usize);
                    }
                } else {
                    assert(i == id);
                    assert(cl.live().contains(l));
                    assert(has_code(ls@, ls@.len() as int, l.cs()));
                    assert(fin.occ@[l.cs()]@ == pre.occ@[l.cs()]@.push(id as usize));
                    lemma_push_contains_id(pre.occ@[l.cs()]@, id as usize);
                }
            }
            assert(fin.units_wf()) by {
                if cl.width() == 1 {
                    assert(fin.units@ == pre.units@.push(id as usize));
                    lemma_push_contains_id(pre.units@, id as usize);
                    assert forall|k2: int|
                        0 <= k2 < fin.units@.len() implies (#[trigger] fin.units@[k2])
                            < fin.slots@.len() && fin.slots@[fin.units@[k2] as int].active
                            && fin.slots@[fin.units@[k2] as int].lits.width() == 1 by {
                        if k2 < pre.units@.len() {
                            assert(pre.units@[k2] < pre.slots@.len());
                            assert(fin.slots@[fin.units@[k2] as int]
                                == pre.slots@[pre.units@[k2] as int]);
                        }
                    }
                    assert(distinct_ids(fin.units@)) by {
                        assert forall|k1: int, k2: int|
                            0 <= k1 < k2 < fin.units@.len() implies (
                        #[trigger] fin.units@[k1]) != (#[trigger] fin.units@[k2]) by {
                            if k2 == fin.units@.len() - 1 {
                                assert(pre.units@[k1] < pre.slots@.len());
                            }
                        }
                    }
                } else {
                    assert(fin.units@ == pre.units@);
                    assert forall|k2: int|
                        0 <= k2 < fin.units@.len() implies (#[trigger] fin.units@[k2])
                            < fin.slots@.len() && fin.slots@[fin.units@[k2] as int].active
                            && fin.slots@[fin.units@[k2] as int].lits.width() == 1 by {
                        assert(pre.units@[k2] < pre.slots@.len());
                        assert(fin.slots@[fin.units@[k2] as int]
                            == pre.slots@[pre.units@[k2] as int]);
                    }
                }
                assert forall|i: int|
                    0 <= i < fin.slots@.len() && (#[trigger] fin.slots@[i]).active
                        && fin.slots@[i].lits.width() == 1 implies fin.units@.contains(
                    i as usize,
                ) by {
                    if i < pre.slots@.len() {
                        assert(pre.units@.contains(i as usize));
                        if cl.width() == 1 {
                            lemma_push_contains_id(pre.units@, id as usize);
                        }
                    } else {
                        assert(i == id && cl.width() == 1);
                        lemma_push_contains_id(pre.units@, id as usize);
                    }
                }
            }
            assert(fin.model() =~= pre.model().insert(id as int, lit_set_of(lits_in@))) by {
                assert(cl.live() =~= lit_set_of(lits_in@));
                assert forall|i: int| #[trigger] fin.model().dom().contains(i) && i
                    != id implies fin.model()[i] == pre.model()[i] by {
                    assert(fin.slots@[i] == pre.slots@[i]);
                }
            }
        }
    }
}


impl ClauseDb {
    /// Removes the clause id from the occurrence entry of every literal in
    /// the list.
    fn scrub_occ(&mut self, rest: &Vec<Lit>, id: usize)
        requires
            forall|k: int| 0 <= k < rest@.len() ==> (#[trigger] rest@[k]).var < old(self).n_lit,
            old(self).occ@.len() == 2 * old(self).n_lit,
            old(self).n_lit <= usize::MAX / 2,
            forall|c: int|
                0 <= c < old(self).occ@.len() ==> distinct_ids((#[trigger] old(self).occ@[c])@),
        ensures
            final(self).n_lit == old(self).n_lit,
            final(self).slots@ == old(self).slots@,
            final(self).units@ == old(self).units@,
            final(self).n_active == old(self).n_active,
            final(self).occ@.len() == old(self).occ@.len(),
            forall|c: int|
                0 <= c < final(self).occ@.len() ==> distinct_ids((#[trigger] final(self).occ@[c])@),
            forall|c: int, y: usize|
                0 <= c < final(self).occ@.len() ==> ((#[trigger] final(self).occ@[c]@.contains(y))
                    <==> old(self).occ@[c]@.contains(y) && !(y == id && has_code(
                    rest@,
                    rest@.len() as int,
                    c,
                ))),
    {
        let ghost pre = *self;
        let mut j: usize = 0;
        while j < rest.len()
            invariant
                self.n_lit == pre.n_lit,
                self.slots@ == pre.slots@,
                self.units@ == pre.units@,
                self.n_active == pre.n_active,
                self.occ@.len() == pre.occ@.len(),
                j <= rest@.len(),
                forall|c: int|
                    0 <= c < self.occ@.len() ==> distinct_ids((#[trigger] self.occ@[c])@),
                forall|c: int, y: usize|
                    0 <= c < self.occ@.len() ==> ((#[trigger] self.occ@[c]@.contains(y)) <==> pre
                        .occ@[c]@.contains(y) && !(y == id && has_code(rest@, j as int, c))),
            decreases rest@.len() - j,
        {
            let ghost mid = *self;
            let lj = rest[j];
            let c = lj.code();
            let e = occ_at(&mut self.occ, c);
            remove_id(e, id);
            proof {
                assert forall|c2: int, y: usize|
                    0 <= c2 < self.occ@.len() implies ((#[trigger] self.occ@[c2]@.contains(y))
                        <==> pre.occ@[c2]@.contains(y) && !(y == id && has_code(
                        rest@,
                        j + 1int,
                        c2,
                    ))) by {
                    if c2 == c as int {
                        assert(has_code(rest@, j + 1int, c2)) by {
                            assert(rest@[j as int].cs() == c2);
                        }
                        assert(self.occ@[c2]@.contains(y) <==> mid.occ@[c2]@.contains(y) && y
                            != id);
                    } else {
                        assert(self.occ@[c2]@ == mid.occ@[c2]@);
                        assert(has_code(rest@, j + 1int, c2) <==> has_code(rest@, j as int, c2))
                            by {
                            if has_code(rest@, j + 1int, c2) {
                                let w = choose|w: int|
                                    0 <= w < j + 1 && (#[trigger] rest@[w]).cs() == c2;
                                assert(w < j);
                            }
                        }
                    }
                }
            }
            j += 1;
        }
    }

    /// Drops every active clause that contains `l`: each such clause is
    /// satisfied, so it retires, its other literals lose their index
    /// entries, and it leaves the unit worklist.
    pub fn remove_sat(&mut self, l: Lit)
        requires
            old(self).wf(),
            l.var < old(self).n_lit,
        ensures
            final(self).wf(),
            final(self).n_lit == old(self).n_lit,
            final(self).slots@.len() == old(self).slots@.len(),
            final(self).model() == crate::model::sat_removed(old(self).model(), l),
            final(self).n_active <= old(self).n_active,
    {
        let ghost pre = *self;
        let ghost cc = l.cs();
        let nslots = self.slots.len();
        let c = l.code();
        let mut ids: Vec<usize> = Vec::new();
        {
            let e = occ_at(&mut self.occ, c);
            core::mem::swap(e, &mut ids);
        }
        let ghost idsg = ids@;
        proof {
            assert(pre.occ_entry_wf(cc));
            assert forall|c2: int|
                0 <= c2 < self.occ@.len() implies distinct_ids((#[trigger] self.occ@[c2])@) by {
                assert(pre.occ_entry_wf(c2));
                if c2 != cc {
                    assert(self.occ@[c2]@ == pre.occ@[c2]@);
                }
            }
            crate::lit::lemma_code_roundtrip(l);
            assert forall|j: int| 0 <= j < idsg.len() implies (#[trigger] idsg[j])
                < pre.slots@.len() && pre.slots@[idsg[j] as int].active && pre.slots@[
            idsg[j] as int].lits.live().contains(l) by {
                assert(pre.occ@[cc]@[j] == idsg[j]);
            }
        }
        let mut k: usize = 0;
        while k < ids.len()
            invariant
                ids@ == idsg,
                k <= idsg.len(),
                self.n_lit == pre.n_lit,
                self.occ@.len() == 2 * pre.n_lit,
                self.slots@.len() == pre.slots@.len(),
                forall|i: int|
                    0 <= i < self.slots@.len() ==> (#[trigger] self.slots@[i]).lits == pre.slots@[i].lits,
                forall|i: int|
                    0 <= i < self.slots@.len() ==> ((#[trigger] self.slots@[i]).active <==> pre
                        .slots@[i].active && !idsg.take(k as int).contains(i as usize)),
                self.occ@[cc]@.len() == 0,
                forall|c2: int, y: usize|
                    0 <= c2 < self.occ@.len() && c2 != cc ==> ((#[trigger] self.occ@[c2]@.contains(y)) <==> pre.occ@[c2]@.contains(y) && !idsg.take(
                        k as int,
                    ).contains(y)),
                forall|c2: int|
                    0 <= c2 < self.occ@.len() ==> distinct_ids((#[trigger] self.occ@[c2])@),
                distinct_ids(self.units@),
                forall|y: usize|
                    (#[trigger] self.units@.contains(y)) <==> pre.units@.contains(y)
                        && !idsg.take(k as int).contains(y),
                self.n_active == active_count(self.slots@),
                self.n_active <= pre.n_active,
                distinct_ids(idsg),
                forall|j: int|
                    0 <= j < idsg.len() ==> (#[trigger] idsg[j]) < pre.slots@.len()
                        && pre.slots@[idsg[j] as int].active
                        && pre.slots@[idsg[j] as int].lits.live().contains(l),
            decreases idsg.len() - k,
        {
            let id = ids[k];
            let ghost stage = *self;
            proof {
                assert(idsg[k as int] == id);
                assert(!idsg.take(k as int).contains(id as usize)) by {
                    if idsg.take(k as int).contains(id as usize) {
                        let w = choose|w: int|
                            0 <= w < k && #[trigger] idsg.take(k as int)[w] == id as usize;
                        assert(idsg[w] == idsg[k as int]);
                    }
                }
                assert(self.slots@[id as int].active);
                lemma_active_count_zero(self.slots@);
            }
            let rest = {
                let slot = slot_at(&mut self.slots, id);
                let r = slot.lits.iter();
                slot.active = false;
                r
            };
            proof {
                lemma_active_count_update(
                    stage.slots@,
                    id as int,
                    ClauseSlot { lits: stage.slots@[id as int].lits, active: false },
                );
                assert(active_count(self.slots@) == active_count(stage.slots@) - 1);
            }
            self.n_active = self.n_active - 1;
            let ghost mid = *self;
            proof {
                assert forall|k2: int| 0 <= k2 < rest@.len() implies (#[trigger] rest@[k2]).var
                    < self.n_lit by {
                    assert(rest@.contains(rest@[k2]));
                    assert(pre.slots@[id as int].lits.live().contains(rest@[k2]));
                    assert(pre.slots@[id as int].lits.full().contains(rest@[k2]));
                }
            }
            self.scrub_occ(&rest, id);
            remove_id(&mut self.units, id);
            proof {
                lemma_push_contains_id(idsg.take(k as int), id as usize);
                assert(idsg.take(k + 1int) =~= idsg.take(k as int).push(id as usize));
                // slots
                assert forall|i: int|
                    0 <= i < self.slots@.len() implies ((#[trigger] self.slots@[i]).active <==> pre
                    .slots@[i].active && !idsg.take(k + 1int).contains(i as usize)) by {
                    if i == id as int {
                        assert(idsg.take(k + 1int).contains(id as usize));
                        assert(!self.slots@[i].active);
                    } else {
                        assert(self.slots@[i] == stage.slots@[i]);
                        assert(idsg.take(k + 1int).contains(i as usize) <==> idsg.take(
                            k as int,
                        ).contains(i as usize) || i as usize == id);
                    }
                }
                // occurrence entries
                assert forall|c2: int, y: usize|
                    0 <= c2 < self.occ@.len() && c2 != cc implies ((#[trigger] self.occ@[
                    c2]@.contains(y)) <==> pre.occ@[c2]@.contains(y) && !idsg.take(
                    k + 1int).contains(y)) by {
                    if y == id {
                        assert(idsg.take(k + 1int).contains(y));
                        if self.occ@[c2]@.contains(y) {
                            assert(mid.occ@[c2]@.contains(y) && !(y == id && has_code(
                                rest@,
                                rest@.len() as int,
                                c2,
                            )));
                            assert(pre.occ@[c2]@.contains(y));
                            assert(pre.occ_entry_wf(c2));
                            let w = choose|w: int|
                                0 <= w < pre.occ@[c2]@.len() && pre.occ@[c2]@[w] == y;
                            assert(pre.slots@[id as int].lits.live().contains(lit_of_code(c2)));
                            let w2 = choose|w2: int|
                                0 <= w2 < pre.slots@[id as int].lits.live_seq().len()
                                    && pre.slots@[id as int].lits.live_seq()[w2] == lit_of_code(
                                    c2,
                                );
                            assert(rest@[w2].cs() == c2);
                            assert(has_code(rest@, rest@.len() as int, c2));
                        }
                    } else {
                        assert(self.occ@[c2]@.contains(y) <==> mid.occ@[c2]@.contains(y));
                    }
                }
                // the taken entry stays empty
                assert(self.occ@[cc]@.len() == 0) by {
                    if self.occ@[cc]@.len() > 0 {
                        let y = self.occ@[cc]@[0];
                        assert(self.occ@[cc]@.contains(y));
                        assert(mid.occ@[cc]@.contains(y));
                    }
                }
                // units
                assert forall|y: usize|
                    (#[trigger] self.units@.contains(y)) <==> pre.units@.contains(y) && !idsg.take(
                    k + 1int).contains(y) by {}
            }
            k += 1;
        }
        proof {
            let fin = *self;
            assert(idsg.take(idsg.len() as int) =~= idsg);
            // the taken ids are exactly the active clauses containing l
            assert forall|i: int|
                0 <= i < pre.slots@.len() && pre.slots@[i].active && #[trigger] pre.slots@[
            i].lits.live().contains(l) implies idsg.contains(i as usize) by {
                assert(pre.occ@[cc]@.contains(i as usize));
            }
            assert(fin.model() =~= crate::model::sat_removed(pre.model(), l)) by {
                assert forall|i: int| #[trigger] fin.model().dom().contains(i) implies pre
                    .model().dom().contains(i) && !pre.model()[i].contains(l) && fin.model()[i]
                    == pre.model()[i] by {
                    assert(fin.slots@[i].active);
                    assert(pre.slots@[i].active && !idsg.contains(i as usize));
                    if pre.slots@[i].lits.live().contains(l) {
                        assert(idsg.contains(i as usize));
                    }
                }
                assert forall|i: int|
                    pre.model().dom().contains(i) && !pre.model()[i].contains(
                    l) implies #[trigger] fin.model().dom().contains(i) by {
                    if idsg.contains(i as usize) {
                        assert(0 <= i < pre.slots@.len());
                        assert(pre.slots@.len() == nslots as int);
                        assert(i <= usize::MAX);
                        let w = choose|w: int| 0 <= w < idsg.len() && idsg[w] == i as usize;
                        assert(pre.slots@[idsg[w] as int].lits.live().contains(l));
                        assert(idsg[w] as int == (i as usize) as int);
                        assert((i as usize) as int == i);
                        assert(pre.slots@[i].lits.live().contains(l));
                    }
                }
            }
            // well-formedness
            assert(fin.lits_ok()) by {
                assert forall|i: int|
                    0 <= i < fin.slots@.len() implies (#[trigger] fin.slots@[i]).lits.wf() by {
                    assert(fin.slots@[i].lits == pre.slots@[i].lits);
                }
                assert forall|i: int, la: Lit|
                    0 <= i < fin.slots@.len() && #[trigger] fin.slots@[i].lits.full().contains(
                    la) implies la.var < fin.n_lit by {
                    assert(fin.slots@[i].lits == pre.slots@[i].lits);
                    assert(pre.slots@[i].lits.full().contains(la));
                }
            }
            assert forall|c2: int| 0 <= c2 < fin.occ@.len() implies #[trigger] fin.occ_entry_wf(
                c2,
            ) by {
                assert(pre.occ_entry_wf(c2));
                if c2 != cc {
                    assert forall|k2: int| 0 <= k2 < fin.occ@[c2]@.len() implies (
                    #[trigger] fin.occ@[c2]@[k2]) < fin.slots@.len()
                        && fin.slots@[fin.occ@[c2]@[k2] as int].active
                        && fin.slots@[fin.occ@[c2]@[k2] as int].lits.live().contains(
                        lit_of_code(c2)) by {
                        let y = fin.occ@[c2]@[k2];
                        assert(fin.occ@[c2]@.contains(y));
                        assert(pre.occ@[c2]@.contains(y) && !idsg.contains(y));
                        let w = choose|w: int| 0 <= w < pre.occ@[c2]@.len() && pre.occ@[c2]@[w] == y;
                        assert(fin.slots@[y as int].lits == pre.slots@[y as int].lits);
                    }
                } else {
                    assert(fin.occ@[cc]@.len() == 0);
                }
            }
            assert forall|i: int, la: Lit|
                0 <= i < fin.slots@.len() && fin.slots@[i].active
                    && #[trigger] fin.slots@[i].lits.live().contains(la) implies fin.occ@[
            la.cs()]@.contains(i as usize) by {
                assert(fin.slots@[i].lits == pre.slots@[i].lits);
                assert(pre.slots@[i].active);
                assert(pre.slots@[i].lits.live().contains(la));
                assert(pre.slots@[i].lits.full().contains(la));
                assert(pre.occ@[la.cs()]@.contains(i as usize));
                assert(!idsg.contains(i as usize));
                if la.cs() == cc {
                    crate::lit::lemma_code_injective(la, l);
                    assert(idsg.contains(i as usize));
                }
            }
            assert(fin.units_wf()) by {
                assert forall|k2: int|
                    0 <= k2 < fin.units@.len() implies (#[trigger] fin.units@[k2])
                        < fin.slots@.len() && fin.slots@[fin.units@[k2] as int].active
                        && fin.slots@[fin.units@[k2] as int].lits.width() == 1 by {
                    let y = fin.units@[k2];
                    assert(fin.units@.contains(y));
                    assert(pre.units@.contains(y) && !idsg.contains(y));
                    let w = choose|w: int| 0 <= w < pre.units@.len() && pre.units@[w] == y;
                    assert(fin.slots@[y as int].lits == pre.slots@[y as int].lits);
                }
                assert forall|i: int|
                    0 <= i < fin.slots@.len() && (#[trigger] fin.slots@[i]).active && fin.slots@[
                    i].lits.width() == 1 implies fin.units@.contains(i as usize) by {
                    assert(fin.slots@[i].lits == pre.slots@[i].lits);
                    assert(pre.slots@[i].active && pre.slots@[i].lits.width() == 1);
                    assert(pre.units@.contains(i as usize));
                }
            }
        }
    }
}


impl ClauseDb {
    /// Rules `l` out of every active clause that still holds it: `l` has
    /// just been falsified. A clause shrinking to one literal joins the
    /// unit worklist; a clause shrinking to nothing is a conflict, reported
    /// with its id. The list of shrunk clauses, each with its remaining
    /// literals, is returned for the caller's bookkeeping.
    pub fn shrink_all(&mut self, l: Lit) -> (r: (Vec<ShrunkClause>, Result<(), usize>))
        requires
            old(self).wf(),
            l.var < old(self).n_lit,
        ensures
            final(self).n_lit == old(self).n_lit,
            final(self).slots@.len() == old(self).slots@.len(),
            final(self).lits_ok(),
            final(self).n_active == old(self).n_active,
            forall|k2: int|
                0 <= k2 < r.0@.len() ==> (#[trigger] r.0@[k2]).id < old(self).slots@.len(),
            forall|k2: int, j: int|
                0 <= k2 < r.0@.len() && 0 <= j < r.0@[k2].rest@.len() ==> (#[trigger] r.0@[k2].rest@[j]).var < old(self).n_lit,
            match r.1 {
                Ok(()) => final(self).wf() && final(self).model() == crate::model::neg_shrunk(
                    old(self).model(),
                    l,
                ) && !crate::model::shrink_conflicts(old(self).model(), l) && (forall|i: int|
                    old(self).model().dom().contains(i) && #[trigger] old(self).model()[
                        i
                    ].contains(l) ==> shrunk_covers(r.0@, i)) && (forall|
                    k2: int,
                |
                    0 <= k2 < r.0@.len() ==> old(self).model().dom().contains(
                        (#[trigger] r.0@[k2]).id as int,
                    )) && (forall|k2: int, a: Lit|
                    0 <= k2 < r.0@.len() ==> ((#[trigger] r.0@[k2].rest@.contains(a))
                        <==> old(self).model()[r.0@[k2].id as int].contains(a) && a != l)),
                Err(cid) => cid < old(self).slots@.len() && old(self).model().dom().contains(
                    cid as int,
                ) && old(self).model()[cid as int] == set![l] && final(self).slots@[
                    cid as int
                ].active && final(self).slots@[cid as int].lits.width() == 0 && final(self).slots@[cid as int].lits.full() == old(self).slots@[cid as int].lits.full(),
            },
    {
        let ghost pre = *self;
        let ghost cc = l.cs();
        let nslots = self.slots.len();
        let c = l.code();
        let mut ids: Vec<usize> = Vec::new();
        {
            let e = occ_at(&mut self.occ, c);
            core::mem::swap(e, &mut ids);
        }
        let ghost idsg = ids@;
        proof {
            assert(pre.occ_entry_wf(cc));
            crate::lit::lemma_code_roundtrip(l);
            assert forall|j: int| 0 <= j < idsg.len() implies (#[trigger] idsg[j])
                < pre.slots@.len() && pre.slots@[idsg[j] as int].active
                && pre.slots@[idsg[j] as int].lits.live().contains(l) by {
                assert(pre.occ@[cc]@[j] == idsg[j]);
            }
        }
        let mut infos: Vec<ShrunkClause> = Vec::new();
        let mut k: usize = 0;
        while k < ids.len()
            invariant
                ids@ == idsg,
                k <= idsg.len(),
                self.n_lit == pre.n_lit,
                self.occ@.len() == 2 * pre.n_lit,
                self.slots@.len() == pre.slots@.len(),
                self.n_active == pre.n_active,
                active_count(self.slots@) == active_count(pre.slots@),
                self.lits_ok(),
                forall|i: int|
                    0 <= i < self.slots@.len() ==> (#[trigger] self.slots@[i]).active
                        == pre.slots@[i].active,
                forall|i: int|
                    0 <= i < self.slots@.len() && !idsg.take(k as int).contains(i as usize) ==> (
                    #[trigger] self.slots@[i]).lits == pre.slots@[i].lits,
                forall|i: int|
                    0 <= i < self.slots@.len() && idsg.take(k as int).contains(i as usize) ==> (
                    #[trigger] self.slots@[i]).lits.live() == pre.slots@[i].lits.live().remove(l)
                        && self.slots@[i].lits.full() == pre.slots@[i].lits.full()
                        && self.slots@[i].lits.width() == pre.slots@[i].lits.width() - 1,
                self.occ@[cc]@.len() == 0,
                forall|c2: int|
                    0 <= c2 < self.occ@.len() && c2 != cc ==> (#[trigger] self.occ@[c2])@
                        == pre.occ@[c2]@,
                distinct_ids(self.units@),
                forall|y: usize|
                    (#[trigger] self.units@.contains(y)) <==> pre.units@.contains(y) || (idsg.take(
                        k as int,
                    ).contains(y) && pre.slots@[y as int].lits.width() == 2),
                forall|j: int|
                    0 <= j < k ==> pre.slots@[(#[trigger] idsg[j]) as int].lits.width() >= 2,
                infos@.len() == k,
                forall|k2: int| 0 <= k2 < k ==> (#[trigger] infos@[k2]).id == idsg[k2],
                forall|k2: int, a: Lit|
                    0 <= k2 < k ==> ((#[trigger] infos@[k2].rest@.contains(a)) <==> pre.slots@[
                        idsg[k2] as int
                    ].lits.live().contains(a) && a != l),
                forall|k2: int, j: int|
                    0 <= k2 < infos@.len() && 0 <= j < infos@[k2].rest@.len() ==> (
                    #[trigger] infos@[k2].rest@[j]).var < pre.n_lit,
                distinct_ids(idsg),
                forall|j: int|
                    0 <= j < idsg.len() ==> (#[trigger] idsg[j]) < pre.slots@.len() && pre.slots@[idsg[j] as int].active && pre.slots@[idsg[j] as int].lits.live().contains(l),
                pre.slots@.len() == nslots as int,
                cc == l.cs(),
            decreases idsg.len() - k,
        {
            let id = ids[k];
            let ghost stage = *self;
            proof {
                assert(idsg[k as int] == id);
                assert(!idsg.take(k as int).contains(id as usize)) by {
                    if idsg.take(k as int).contains(id as usize) {
                        let w = choose|w: int|
                            0 <= w < k && #[trigger] idsg.take(k as int)[w] == id as usize;
                        assert(idsg[w] == idsg[k as int]);
                    }
                }
                assert(stage.slots@[id as int].lits == pre.slots@[id as int].lits);
            }
            let (rest, w) = {
                let slot = slot_at(&mut self.slots, id);
                slot.lits.remove(l);
                let r = slot.lits.iter();
                let w = slot.lits.len();
                (r, w)
            };
            proof {
                lemma_active_count_eq(self.slots@, stage.slots@);
                assert forall|k2: int| 0 <= k2 < rest@.len() implies (#[trigger] rest@[k2]).var
                    < pre.n_lit by {
                    assert(rest@.contains(rest@[k2]));
                    assert(self.slots@[id as int].lits.live().contains(rest@[k2]));
                    assert(self.slots@[id as int].lits.full().contains(rest@[k2]));
                }
                assert(self.lits_ok()) by {
                    assert forall|i: int|
                        0 <= i < self.slots@.len() implies (#[trigger] self.slots@[i]).lits.wf()
                            by {
                        if i != id as int {
                            assert(self.slots@[i] == stage.slots@[i]);
                        }
                    }
                    assert forall|i: int, la: Lit|
                        0 <= i < self.slots@.len() && #[trigger] self.slots@[
                        i].lits.full().contains(la) implies la.var < self.n_lit by {
                        if i == id as int {
                            assert(pre.slots@[i].lits.full().contains(la));
                        } else {
                            assert(self.slots@[i] == stage.slots@[i]);
                            assert(stage.slots@[i].lits.full().contains(la));
                        }
                    }
                }
            }
            if w == 0 {
                proof {
                    assert(pre.slots@[id as int].lits.width() == 1);
                    pre.slots@[id as int].lits.lemma_width_one();
                    let l0 = pre.slots@[id as int].lits.live_seq()[0];
                    assert(pre.slots@[id as int].lits.live().contains(l));
                    assert(l == l0);
                    assert(pre.model().dom().contains(id as int));
                    assert(pre.model()[id as int] == set![l]);
                }
                infos.push(ShrunkClause { id, rest });
                return (infos, Err(id));
            }
            proof {
                assert forall|a: Lit| #[trigger] rest@.contains(a) <==> pre.slots@[
                    id as int
                ].lits.live().contains(a) && a != l by {
                    assert(rest@.contains(a) <==> self.slots@[id as int].lits.live().contains(
                        a,
                    )) by {
                        if rest@.contains(a) {
                            assert(self.slots@[id as int].lits.live_seq().contains(a));
                        }
                        if self.slots@[id as int].lits.live().contains(a) {
                            assert(self.slots@[id as int].lits.live_seq().contains(a));
                        }
                    }
                    assert(self.slots@[id as int].lits.live() == pre.slots@[
                        id as int
                    ].lits.live().remove(l));
                }
            }
            if w == 1 {
                proof {
                    assert(pre.slots@[id as int].lits.width() == 2);
                    assert(!self.units@.contains(id)) by {
                        if self.units@.contains(id) {
                            assert(pre.units@.contains(id) || (idsg.take(k as int).contains(id)
                                && pre.slots@[id as int].lits.width() == 2));
                            if pre.units@.contains(id) {
                                let w2 = choose|w2: int|
                                    0 <= w2 < pre.units@.len() && pre.units@[w2] == id;
                                assert(pre.slots@[id as int].lits.width() == 1);
                            }
                        }
                    }
                    lemma_push_contains_id(self.units@, id);
                    assert forall|k1: int, k2: int|
                        0 <= k1 < k2 < self.units@.push(id).len() implies (
                    #[trigger] self.units@.push(id)[k1]) != (#[trigger] self.units@.push(
                        id,
                    )[k2]) by {
                        if k2 == self.units@.push(id).len() - 1 {
                            assert(self.units@.contains(self.units@[k1]));
                        }
                    }
                }
                self.units.push(id);
            }
            infos.push(ShrunkClause { id, rest });
            proof {
                lemma_push_contains_id(idsg.take(k as int), id as usize);
                assert(idsg.take(k + 1int) =~= idsg.take(k as int).push(id as usize));
                assert forall|y: usize|
                    (#[trigger] self.units@.contains(y)) <==> pre.units@.contains(y) || (idsg.take(
                    k + 1int).contains(y) && pre.slots@[y as int].lits.width() == 2) by {
                    if y == id {
                        assert(idsg.take(k + 1int).contains(y));
                    }
                }
                assert(self.occ@[cc]@.len() == 0);
            }
            k += 1;
        }
        proof {
            let fin = *self;
            assert(idsg.take(idsg.len() as int) =~= idsg);
            assert forall|i: int|
                0 <= i < pre.slots@.len() && pre.slots@[i].active && #[trigger] pre.slots@[
            i].lits.live().contains(l) implies idsg.contains(i as usize) by {
                assert(pre.occ@[cc]@.contains(i as usize));
            }
            assert forall|i: int|
                pre.model().dom().contains(i) && #[trigger] pre.model()[i].contains(
            l) implies shrunk_covers(infos@, i) by {
                assert(idsg.contains(i as usize));
                let w2 = choose|w2: int| 0 <= w2 < idsg.len() && idsg[w2] == i as usize;
                assert(0 <= i < pre.slots@.len());
                assert(pre.slots@.len() == nslots as int);
                assert((#[trigger] infos@[w2]).id as int == i);
            }
            assert(fin.model() =~= crate::model::neg_shrunk(pre.model(), l)) by {
                assert forall|i: int| #[trigger] fin.model().dom().contains(i) implies fin.model()[
                    i] == pre.model()[i].remove(l) by {
                    if idsg.contains(i as usize) {
                        let w2 = choose|w2: int| 0 <= w2 < idsg.len() && idsg[w2] == i as usize;
                        assert(idsg[w2] as int == i);
                    } else {
                        assert(fin.slots@[i].lits == pre.slots@[i].lits);
                        assert(!pre.slots@[i].lits.live().contains(l));
                        assert(fin.model()[i] =~= pre.model()[i].remove(l));
                    }
                }
            }
            assert(!crate::model::shrink_conflicts(pre.model(), l)) by {
                if crate::model::shrink_conflicts(pre.model(), l) {
                    let i = choose|i: int|
                        #[trigger] pre.model().dom().contains(i) && pre.model()[i] == set![l];
                    assert(pre.slots@[i].lits.live().contains(l)) by {
                        assert(set![l].contains(l));
                    }
                    assert(idsg.contains(i as usize));
                    let w2 = choose|w2: int| 0 <= w2 < idsg.len() && idsg[w2] == i as usize;
                    assert(pre.slots@[idsg[w2] as int].lits.width() >= 2);
                    assert(idsg[w2] as int == i);
                    assert(pre.slots@[i].lits.width() >= 2);
                    let s0 = pre.slots@[i].lits.live_seq();
                    assert(s0.contains(s0[0]) && s0.contains(s0[1]));
                    assert(pre.slots@[i].lits.live().contains(s0[0]));
                    assert(pre.slots@[i].lits.live().contains(s0[1]));
                    assert(s0[0] == l && s0[1] == l);
                }
            }
            assert forall|c2: int| 0 <= c2 < fin.occ@.len() implies #[trigger] fin.occ_entry_wf(
                c2,
            ) by {
                assert(pre.occ_entry_wf(c2));
                if c2 != cc {
                    assert forall|k2: int| 0 <= k2 < fin.occ@[c2]@.len() implies (
                    #[trigger] fin.occ@[c2]@[k2]) < fin.slots@.len()
                        && fin.slots@[fin.occ@[c2]@[k2] as int].active
                        && fin.slots@[fin.occ@[c2]@[k2] as int].lits.live().contains(
                        lit_of_code(c2)) by {
                        let y = fin.occ@[c2]@[k2];
                        assert(pre.occ@[c2]@[k2] == y);
                        assert(pre.slots@[y as int].lits.live().contains(lit_of_code(c2)));
                        if idsg.contains(y) {
                            assert(fin.slots@[y as int].lits.live() == pre.slots@[y as int].lits.live().remove(l));
                            assert(lit_of_code(c2) != l) by {
                                crate::lit::lemma_code_roundtrip(l);
                            }
                        } else {
                            assert(fin.slots@[y as int].lits == pre.slots@[y as int].lits);
                        }
                    }
                } else {
                    assert(fin.occ@[cc]@.len() == 0);
                }
            }
            assert forall|i: int, la: Lit|
                0 <= i < fin.slots@.len() && fin.slots@[i].active
                    && #[trigger] fin.slots@[i].lits.live().contains(la) implies fin.occ@[
            la.cs()]@.contains(i as usize) by {
                assert(pre.slots@[i].lits.live().contains(la)) by {
                    if idsg.contains(i as usize) {
                        let w2 = choose|w2: int| 0 <= w2 < idsg.len() && idsg[w2] == i as usize;
                        assert(idsg[w2] as int == i);
                    }
                }
                assert(pre.slots@[i].lits.full().contains(la));
                assert(pre.occ@[la.cs()]@.contains(i as usize));
                assert(la.cs() != cc) by {
                    if la.cs() == cc {
                        crate::lit::lemma_code_injective(la, l);
                        assert(la == l);
                        assert(idsg.contains(i as usize));
                        let w2 = choose|w2: int| 0 <= w2 < idsg.len() && idsg[w2] == i as usize;
                        assert(idsg[w2] as int == i);
                        assert(fin.slots@[i].lits.live() == pre.slots@[i].lits.live().remove(l));
                    }
                }
            }
            assert(fin.units_wf()) by {
                assert forall|k2: int|
                    0 <= k2 < fin.units@.len() implies (#[trigger] fin.units@[k2])
                        < fin.slots@.len() && fin.slots@[fin.units@[k2] as int].active
                        && fin.slots@[fin.units@[k2] as int].lits.width() == 1 by {
                    let y = fin.units@[k2];
                    assert(fin.units@.contains(y));
                    if pre.units@.contains(y) {
                        let w2 = choose|w2: int| 0 <= w2 < pre.units@.len() && pre.units@[w2] == y;
                        assert(pre.slots@[y as int].lits.width() == 1);
                        assert(!idsg.contains(y)) by {
                            if idsg.contains(y) {
                                let w3 = choose|w3: int|
                                    0 <= w3 < idsg.len() && idsg[w3] == y;
                                assert(pre.slots@[idsg[w3] as int].lits.width() >= 2);
                            }
                        }
                        assert(fin.slots@[y as int].lits == pre.slots@[y as int].lits);
                    } else {
                        assert(idsg.contains(y) && pre.slots@[y as int].lits.width() == 2);
                        let w2 = choose|w2: int| 0 <= w2 < idsg.len() && idsg[w2] == y;
                        assert(fin.slots@[y as int].lits.width() == 1);
                        assert(fin.slots@[y as int].active == pre.slots@[y as int].active);
                    }
                }
                assert forall|i: int|
                    0 <= i < fin.slots@.len() && (#[trigger] fin.slots@[i]).active && fin.slots@[
                i].lits.width() == 1 implies fin.units@.contains(i as usize) by {
                    if idsg.contains(i as usize) {
                        let w2 = choose|w2: int| 0 <= w2 < idsg.len() && idsg[w2] == i as usize;
                        assert(idsg[w2] as int == i);
                        assert(pre.slots@[i].lits.width() == 2);
                    } else {
                        assert(fin.slots@[i].lits == pre.slots@[i].lits);
                        assert(pre.units@.contains(i as usize));
                    }
                }
            }
        }
        (infos, Ok(()))
    }

    /// Takes the sole literal of an active unit clause, retiring the
    /// clause; a missing or already inactive id is a no-op.
    pub fn pop_unit(&mut self, id: usize) -> (r: Option<Lit>)
        requires
            old(self).wf(),
            id < old(self).slots@.len() && old(self).slots@[id as int].active ==> old(
                self,
            ).slots@[id as int].lits.width() == 1,
        ensures
            final(self).wf(),
            final(self).n_lit == old(self).n_lit,
            final(self).slots@.len() == old(self).slots@.len(),
            match r {
                Some(l) => old(self).model().dom().contains(id as int) && old(self).model()[id as int] == set![l] && final(self).model() == old(self).model().remove(id as int)
                    && l.var < old(self).n_lit && final(self).n_active < old(self).n_active,
                None => *final(self) == *old(self) && !(id < old(self).slots@.len() && old(
                    self,
                ).slots@[id as int].active),
            },
    {
        let ghost pre = *self;
        if id >= self.slots.len() {
            return None;
        }
        if !self.slots[id].active {
            return None;
        }
        let lit = {
            let slot = slot_at(&mut self.slots, id);
            let ls = slot.lits.iter();
            slot.active = false;
            ls[0]
        };
        proof {
            pre.slots@[id as int].lits.lemma_width_one();
            assert(pre.model().dom().contains(id as int));
            assert(pre.model()[id as int] == set![lit]);
            assert(pre.slots@[id as int].lits.live().contains(lit)) by {
                assert(pre.slots@[id as int].lits.live_seq().contains(lit));
            }
            assert(pre.slots@[id as int].lits.full().contains(lit));
            assert(lit.var < pre.n_lit);
            lemma_active_count_update(
                pre.slots@,
                id as int,
                ClauseSlot { lits: pre.slots@[id as int].lits, active: false },
            );
            lemma_active_count_zero(pre.slots@);
        }
        self.n_active = self.n_active - 1;
        remove_id(&mut self.units, id);
        let c = lit.code();
        let ghost mid = *self;
        proof {
            assert(pre.occ_entry_wf(lit.cs()));
            assert(self.occ@[lit.cs()]@ == pre.occ@[lit.cs()]@);
        }
        {
            let e = occ_at(&mut self.occ, c);
            remove_id(e, id);
        }
        proof {
            let fin = *self;
            crate::lit::lemma_code_roundtrip(lit);
            assert(fin.model() =~= pre.model().remove(id as int));
            assert(fin.lits_ok()) by {
                assert forall|i: int, la: Lit|
                    0 <= i < fin.slots@.len() && #[trigger] fin.slots@[i].lits.full().contains(
                    la) implies la.var < fin.n_lit by {
                    assert(fin.slots@[i].lits == pre.slots@[i].lits);
                    assert(pre.slots@[i].lits.full().contains(la));
                }
                assert forall|i: int|
                    0 <= i < fin.slots@.len() implies (#[trigger] fin.slots@[i]).lits.wf() by {
                    assert(fin.slots@[i].lits == pre.slots@[i].lits);
                }
            }
            assert forall|c2: int| 0 <= c2 < fin.occ@.len() implies #[trigger] fin.occ_entry_wf(
                c2,
            ) by {
                assert(pre.occ_entry_wf(c2));
                if c2 == lit.cs() {
                    assert forall|k2: int| 0 <= k2 < fin.occ@[c2]@.len() implies (
                    #[trigger] fin.occ@[c2]@[k2]) < fin.slots@.len()
                        && fin.slots@[fin.occ@[c2]@[k2] as int].active
                        && fin.slots@[fin.occ@[c2]@[k2] as int].lits.live().contains(
                        lit_of_code(c2)) by {
                        let y = fin.occ@[c2]@[k2];
                        assert(fin.occ@[c2]@.contains(y));
                        assert(mid.occ@[c2]@.contains(y) && y != id);
                        assert(pre.occ@[c2]@.contains(y));
                        let w2 = choose|w2: int|
                            0 <= w2 < pre.occ@[c2]@.len() && pre.occ@[c2]@[w2] == y;
                        assert(fin.slots@[y as int].lits == pre.slots@[y as int].lits);
                    }
                } else {
                    assert(fin.occ@[c2]@ == pre.occ@[c2]@);
                    assert forall|k2: int| 0 <= k2 < fin.occ@[c2]@.len() implies (
                    #[trigger] fin.occ@[c2]@[k2]) < fin.slots@.len()
                        && fin.slots@[fin.occ@[c2]@[k2] as int].active
                        && fin.slots@[fin.occ@[c2]@[k2] as int].lits.live().contains(
                        lit_of_code(c2)) by {
                        let y = fin.occ@[c2]@[k2];
                        assert(pre.occ@[c2]@[k2] == y);
                        assert(pre.slots@[y as int].lits.live().contains(lit_of_code(c2)));
                        assert(y != id) by {
                            if y == id {
                                assert(pre.slots@[id as int].lits.live().contains(
                                    lit_of_code(c2),
                                ));
                                assert(lit_of_code(c2) == lit);
                                crate::lit::lemma_code_roundtrip(lit);
                                assert(c2 == lit.cs());
                            }
                        }
                        assert(fin.slots@[y as int].lits == pre.slots@[y as int].lits);
                    }
                }
            }
            assert forall|i: int, la: Lit|
                0 <= i < fin.slots@.len() && fin.slots@[i].active
                    && #[trigger] fin.slots@[i].lits.live().contains(la) implies fin.occ@[
            la.cs()]@.contains(i as usize) by {
                assert(i != id as int);
                assert(fin.slots@[i].lits == pre.slots@[i].lits);
                assert(pre.slots@[i].lits.live().contains(la));
                assert(pre.slots@[i].lits.full().contains(la));
                assert(pre.occ@[la.cs()]@.contains(i as usize));
                if la.cs() == lit.cs() {
                    assert(fin.occ@[la.cs()]@.contains(i as usize)) by {
                        assert(i as usize != id);
                    }
                }
            }
            assert(fin.units_wf()) by {
                assert forall|k2: int|
                    0 <= k2 < fin.units@.len() implies (#[trigger] fin.units@[k2])
                        < fin.slots@.len() && fin.slots@[fin.units@[k2] as int].active
                        && fin.slots@[fin.units@[k2] as int].lits.width() == 1 by {
                    let y = fin.units@[k2];
                    assert(fin.units@.contains(y));
                    assert(pre.units@.contains(y) && y != id);
                    let w2 = choose|w2: int| 0 <= w2 < pre.units@.len() && pre.units@[w2] == y;
                    assert(fin.slots@[y as int].lits == pre.slots@[y as int].lits);
                }
                assert forall|i: int|
                    0 <= i < fin.slots@.len() && (#[trigger] fin.slots@[i]).active && fin.slots@[
                i].lits.width() == 1 implies fin.units@.contains(i as usize) by {
                    assert(i != id as int);
                    assert(fin.slots@[i].lits == pre.slots@[i].lits);
                    assert(pre.units@.contains(i as usize));
                    assert(i as usize != id);
                }
            }
        }
        Some(lit)
    }

    /// An id from the unit worklist, if any is waiting.
    pub fn peek_unit(&self) -> (r: Option<usize>)
        requires
            self.wf(),
        ensures
            match r {
                Some(id) => self.model().dom().contains(id as int) && self.slots@[id as int].lits.width() == 1,
                None => forall|i: int|
                    0 <= i < self.slots@.len() && (#[trigger] self.slots@[i]).active ==> self
                        .slots@[i].lits.width() != 1,
            },
    {
        if self.units.len() > 0 {
            let id = self.units[self.units.len() - 1];
            proof {
                assert(self.units@[self.units@.len() - 1] == id);
            }
            Some(id)
        } else {
            proof {
                assert forall|i: int|
                    0 <= i < self.slots@.len() && (#[trigger] self.slots@[i]).active implies self
                    .slots@[i].lits.width() != 1 by {
                    if self.slots@[i].lits.width() == 1 {
                        assert(self.units@.contains(i as usize));
                    }
                }
            }
            None
        }
    }
}

} // verus!
