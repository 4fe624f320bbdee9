//! The graph-augmented formula engine: the same clause database as the
//! plain variant, plus a directed implication graph recorded during
//! propagation and consulted by conflict analysis.
//!
//! Graph nodes carry literal codes; an edge from the node of a literal
//! just made true to a literal left in a shrunk clause records that the
//! propagation contributed to shrinking that clause. The graph lives in
//! petgraph's `DiGraph`, behind trusted wrappers whose contracts speak of
//! two named projections: the node weights in node-index order and the
//! directed index pairs of the edges in edge-index order. The 32-bit
//! index type of the graph caps the node table, which keeps node and
//! edge creation below petgraph's index limits.

use vstd::prelude::*;

use petgraph::graph::DiGraph;

use crate::clause::{Clause, Clauses};
use crate::clause_db::{active_count, ClauseDb};
use crate::lit::{lit_of_code, Lit};
use crate::model::{
    conflicts, lit_set_of, neg_shrunk, propagate_seq, propagated, sat_removed, shrink_conflicts,
    units_chain,
};
use crate::Strategy;

verus! {

/// Declares petgraph's graph type so that values of it can be carried in
/// fields and signatures; its contents are reached only through the named
/// projections below.
#[verifier::external_type_specification]
#[verifier::external_body]
#[verifier::reject_recursive_types(N)]
#[verifier::reject_recursive_types(E)]
#[verifier::reject_recursive_types(Ty)]
#[verifier::reject_recursive_types(Ix)]
pub struct ExGraph<N, E, Ty, Ix>(petgraph::graph::Graph<N, E, Ty, Ix>);

/// Declares petgraph's directed-edge marker, which instantiates the graph
/// type above.
#[verifier::external_type_specification]
#[verifier::external_body]
pub struct ExDirected(petgraph::Directed);

/// The node weights of the implication graph, in node-index order.
pub uninterp spec fn graph_nodes(g: DiGraph<usize, usize>) -> Seq<usize>;

/// The directed edges of the implication graph, as pairs of node
/// indices, in edge-index order.
pub uninterp spec fn graph_edges(g: DiGraph<usize, usize>) -> Seq<(int, int)>;

/// Relies on petgraph's `DiGraph::new`: an empty graph, no nodes and no
/// edges.
#[verifier::external_body]
fn graph_new() -> (g: DiGraph<usize, usize>)
    ensures
        graph_nodes(g) == Seq::<usize>::empty(),
        graph_edges(g) == Seq::<(int, int)>::empty(),
{
    DiGraph::new()
}

/// Relies on petgraph's `Clone` for `Graph`: the node and edge lists are
/// copied as they are.
#[verifier::external_body]
fn graph_clone(g: &DiGraph<usize, usize>) -> (r: DiGraph<usize, usize>)
    ensures
        graph_nodes(r) == graph_nodes(*g),
        graph_edges(r) == graph_edges(*g),
{
    g.clone()
}

/// Relies on petgraph's `Graph::add_node`: below the 32-bit index-type
/// limit it appends the node and returns the previous node count as its
/// index.
#[verifier::external_body]
fn graph_add_node(g: &mut DiGraph<usize, usize>, w: usize) -> (i: usize)
    requires
        graph_nodes(*old(g)).len() < 0xffff_ffffusize,
    ensures
        graph_nodes(*final(g)) == graph_nodes(*old(g)).push(w),
        graph_edges(*final(g)) == graph_edges(*old(g)),
        i == graph_nodes(*old(g)).len(),
{
    g.add_node(w).index()
}

/// Relies on petgraph's `Graph::add_edge`: for valid node indices and
/// below the 32-bit index-type limit it appends the edge from `a` to
/// `b`.
#[verifier::external_body]
fn graph_add_edge(g: &mut DiGraph<usize, usize>, a: usize, b: usize)
    requires
        a < graph_nodes(*old(g)).len(),
        b < graph_nodes(*old(g)).len(),
        graph_edges(*old(g)).len() < 0xffff_ffffusize,
    ensures
        graph_nodes(*final(g)) == graph_nodes(*old(g)),
        graph_edges(*final(g)) == graph_edges(*old(g)).push((a as int, b as int)),
{
    let _ = g.add_edge(
        petgraph::graph::NodeIndex::new(a),
        petgraph::graph::NodeIndex::new(b),
        1,
    );
}

/// Relies on petgraph's `Graph::contains_edge`: whether a directed edge
/// from `a` to `b` exists. The arguments must be valid node indices: the
/// index type is 32 bits wide and a larger argument would be truncated.
#[verifier::external_body]
fn graph_has_edge(g: &DiGraph<usize, usize>, a: usize, b: usize) -> (r: bool)
    requires
        a < graph_nodes(*g).len(),
        b < graph_nodes(*g).len(),
    ensures
        r == graph_edges(*g).contains((a as int, b as int)),
{
    g.contains_edge(petgraph::graph::NodeIndex::new(a), petgraph::graph::NodeIndex::new(b))
}

/// Relies on petgraph's `Graph::neighbors_directed` with the incoming
/// direction: the sources of every edge into `n`.
#[verifier::external_body]
fn graph_incoming(g: &DiGraph<usize, usize>, n: usize) -> (r: Vec<usize>)
    requires
        n < graph_nodes(*g).len(),
    ensures
        forall|k: int|
            0 <= k < r@.len() ==> (#[trigger] r@[k]) < graph_nodes(*g).len() && graph_edges(
                *g,
            ).contains((r@[k] as int, n as int)),
        forall|u: int|
            graph_edges(*g).contains((u, n as int)) ==> exists|k: int|
                0 <= k < r@.len() && (#[trigger] r@[k]) as int == u,
{
    g.neighbors_directed(petgraph::graph::NodeIndex::new(n), petgraph::Direction::Incoming).map(
        |ni: petgraph::graph::NodeIndex| ni.index(),
    ).collect()
}

/// Relies on petgraph's `Graph::node_weight`: the weight stored at a
/// valid node index.
#[verifier::external_body]
fn graph_node_weight(g: &DiGraph<usize, usize>, i: usize) -> (w: usize)
    requires
        i < graph_nodes(*g).len(),
    ensures
        w == graph_nodes(*g)[i as int],
{
    *g.node_weight(petgraph::graph::NodeIndex::new(i)).unwrap()
}


/// Every edge of the first graph is present in the second: along a
/// search path the implication graph only grows.
pub open spec fn edges_grow(g1: DiGraph<usize, usize>, g2: DiGraph<usize, usize>) -> bool {
    forall|k: int|
        0 <= k < graph_edges(g1).len() ==> graph_edges(g2).contains(#[trigger] graph_edges(g1)[k])
}

proof fn lemma_edges_grow_from_eq(g1: DiGraph<usize, usize>, g2: DiGraph<usize, usize>)
    requires
        graph_edges(g2) == graph_edges(g1),
    ensures
        edges_grow(g1, g2),
{
    assert forall|k: int| 0 <= k < graph_edges(g1).len() implies graph_edges(g2).contains(
        #[trigger] graph_edges(g1)[k],
    ) by {
        assert(graph_edges(g2)[k] == graph_edges(g1)[k]);
    }
}

proof fn lemma_edges_grow_push(g1: DiGraph<usize, usize>, g2: DiGraph<usize, usize>, e: (int, int))
    requires
        graph_edges(g2) == graph_edges(g1).push(e),
    ensures
        edges_grow(g1, g2),
{
    assert forall|k: int| 0 <= k < graph_edges(g1).len() implies graph_edges(g2).contains(
        #[trigger] graph_edges(g1)[k],
    ) by {
        assert(graph_edges(g2)[k] == graph_edges(g1)[k]);
    }
}

proof fn lemma_edges_grow_trans(
    g1: DiGraph<usize, usize>,
    g2: DiGraph<usize, usize>,
    g3: DiGraph<usize, usize>,
)
    requires
        edges_grow(g1, g2),
        edges_grow(g2, g3),
    ensures
        edges_grow(g1, g3),
{
    assert forall|k: int| 0 <= k < graph_edges(g1).len() implies graph_edges(g3).contains(
        #[trigger] graph_edges(g1)[k],
    ) by {
        assert(graph_edges(g2).contains(graph_edges(g1)[k]));
        let j = choose|j: int|
            0 <= j < graph_edges(g2).len() && graph_edges(g2)[j] == graph_edges(g1)[k];
        assert(graph_edges(g3).contains(graph_edges(g2)[j]));
    }
}

/// How many entries of the node table point at a graph node.
pub open spec fn count_some(s: Seq<Option<usize>>) -> nat
    decreases s.len(),
{
    if s.len() == 0 {
        0
    } else {
        count_some(s.drop_last()) + if s.last() is Some {
            1nat
        } else {
            0nat
        }
    }
}

proof fn lemma_count_some_le(s: Seq<Option<usize>>)
    ensures
        count_some(s) <= s.len(),
    decreases s.len(),
{
    if s.len() > 0 {
        lemma_count_some_le(s.drop_last());
    }
}

proof fn lemma_count_some_update(s: Seq<Option<usize>>, i: int, x: usize)
    requires
        0 <= i < s.len(),
        s[i] is None,
    ensures
        count_some(s.update(i, Some(x))) == count_some(s) + 1,
    decreases s.len(),
{
    let s2 = s.update(i, Some(x));
    if i == s.len() - 1 {
        assert(s2.drop_last() =~= s.drop_last());
    } else {
        assert(s2.drop_last() =~= s.drop_last().update(i, Some(x)));
        lemma_count_some_update(s.drop_last(), i, x);
    }
}

/// A duplicate-free list of integers drawn from `[0, m)` has at most `m`
/// entries.
proof fn lemma_distinct_ints_bound(t: Seq<int>, m: int)
    requires
        m >= 0,
        forall|k: int| 0 <= k < t.len() ==> 0 <= #[trigger] t[k] < m,
        forall|k1: int, k2: int|
            0 <= k1 < k2 < t.len() ==> (#[trigger] t[k1]) != (#[trigger] t[k2]),
    ensures
        t.len() <= m,
{
    assert(t.no_duplicates()) by {
        assert forall|i: int, j: int|
            0 <= i < t.len() && 0 <= j < t.len() && i != j implies t[i] != t[j] by {
            if i < j {
                assert(t[i] != t[j]);
            } else {
                assert(t[j] != t[i]);
            }
        }
    }
    t.unique_seq_to_set();
    assert(t.to_set().subset_of(vstd::set_lib::set_int_range(0, m))) by {
        assert forall|x: int| t.to_set().contains(x) implies vstd::set_lib::set_int_range(
            0,
            m,
        ).contains(x) by {
            assert(t.contains(x));
            let k = choose|k: int| 0 <= k < t.len() && t[k] == x;
        }
    }
    vstd::set_lib::lemma_int_range(0, m);
    vstd::set_lib::lemma_len_subset(t.to_set(), vstd::set_lib::set_int_range(0, m));
}

/// A duplicate-free list of node-index pairs over `n` nodes has at most
/// `n * n` entries.
proof fn lemma_distinct_pairs_bound(es: Seq<(int, int)>, n: int)
    requires
        n >= 0,
        forall|k: int| 0 <= k < es.len() ==> 0 <= (#[trigger] es[k]).0 < n && 0 <= es[k].1 < n,
        forall|k1: int, k2: int|
            0 <= k1 < k2 < es.len() ==> (#[trigger] es[k1]) != (#[trigger] es[k2]),
    ensures
        es.len() <= n * n,
{
    let codes = Seq::new(es.len(), |k: int| es[k].0 * n + es[k].1);
    assert(n * n >= 0) by (nonlinear_arith)
        requires
            n >= 0,
    ;
    assert forall|k: int| 0 <= k < codes.len() implies 0 <= #[trigger] codes[k] < n * n by {
        let (a, b) = (es[k].0, es[k].1);
        assert(0 <= a * n + b < n * n) by (nonlinear_arith)
            requires
                0 <= a < n,
                0 <= b < n,
        ;
    }
    assert forall|k1: int, k2: int|
        0 <= k1 < k2 < codes.len() implies (#[trigger] codes[k1]) != (#[trigger] codes[k2]) by {
        if codes[k1] == codes[k2] {
            let (a, b) = (es[k1].0, es[k1].1);
            let (c, d) = (es[k2].0, es[k2].1);
            assert(a == c && b == d) by (nonlinear_arith)
                requires
                    a * n + b == c * n + d,
                    0 <= a < n,
                    0 <= b < n,
                    0 <= c < n,
                    0 <= d < n,
            ;
            assert(es[k1] == es[k2]);
        }
    }
    lemma_distinct_ints_bound(codes, n * n);
}

/// How many entries of the visited table are still false.
pub open spec fn count_unvisited(s: Seq<bool>) -> nat
    decreases s.len(),
{
    if s.len() == 0 {
        0
    } else {
        count_unvisited(s.drop_last()) + if s.last() {
            0nat
        } else {
            1nat
        }
    }
}

proof fn lemma_count_unvisited_update(s: Seq<bool>, i: int)
    requires
        0 <= i < s.len(),
        !s[i],
    ensures
        count_unvisited(s.update(i, true)) == count_unvisited(s) - 1,
    decreases s.len(),
{
    let s2 = s.update(i, true);
    if i == s.len() - 1 {
        assert(s2.drop_last() =~= s.drop_last());
    } else {
        assert(s2.drop_last() =~= s.drop_last().update(i, true));
        lemma_count_unvisited_update(s.drop_last(), i);
    }
}

/// A recorded implication edge survives any step that preserves the
/// filled node-table entries and only appends edges.
proof fn lemma_recorded_mono(pre: CnfGraph, post: CnfGraph, src: Lit, dst: Lit)
    requires
        pre.edge_recorded(src, dst),
        post.nodes@.len() == pre.nodes@.len(),
        forall|c: int|
            0 <= c < pre.nodes@.len() && (#[trigger] pre.nodes@[c]) is Some ==> post.nodes@[c]
                == pre.nodes@[c],
        edges_grow(pre.graph, post.graph),
        0 <= src.cs() < pre.nodes@.len(),
        0 <= dst.cs() < pre.nodes@.len(),
    ensures
        post.edge_recorded(src, dst),
{
    let (ns, nd) = choose|ns: usize, nd: usize|
        pre.nodes@[src.cs()] == Some(ns) && pre.nodes@[dst.cs()] == Some(nd)
            && #[trigger] graph_edges(pre.graph).contains((ns as int, nd as int));
    let j = choose|j: int|
        0 <= j < graph_edges(pre.graph).len() && graph_edges(pre.graph)[j] == (
        ns as int,
        nd as int,
        );
    assert(graph_edges(post.graph).contains(graph_edges(pre.graph)[j]));
    assert(post.nodes@[src.cs()] == Some(ns) && post.nodes@[dst.cs()] == Some(nd));
}

/// The graph-augmented formula state: the clause database, the
/// implication graph with its literal-code-to-node table, and the stack
/// of decision literals made on the current search path.
#[derive(Debug)]
pub struct CnfGraph {
    pub max_lit: usize,
    pub db: ClauseDb,
    pub graph: DiGraph<usize, usize>,
    pub nodes: Vec<Option<usize>>,
    pub guessed: Vec<Lit>,
}

impl CnfGraph {
    /// The number of declared variables.
    pub open spec fn n_lit(self) -> int {
        self.db.n_lit as int
    }

    /// The active clauses, by id, as sets of unresolved literals.
    pub open spec fn model(self) -> Map<int, Set<Lit>> {
        self.db.model()
    }

    /// The literal is still unresolved in some active clause.
    pub open spec fn occurs(self, l: Lit) -> bool {
        self.db.occurs(l)
    }

    /// How many clause ids have ever been assigned.
    pub open spec fn total(self) -> int {
        self.db.slots@.len() as int
    }

    /// The node table and the graph agree: a table entry points at a node
    /// carrying its own code, every node weight is a valid literal code,
    /// and every node is indexed under its weight.
    pub open spec fn graph_ok(self) -> bool {
        &&& self.db.n_lit <= self.max_lit
        &&& 2 * self.max_lit + 2 <= 0xffff
        &&& self.nodes@.len() == 2 * self.max_lit + 2
        &&& count_some(self.nodes@) == graph_nodes(self.graph).len()
        &&& forall|c: int|
            0 <= c < self.nodes@.len() && (#[trigger] self.nodes@[c]) is Some ==> (
            self.nodes@[c]->0 as int) < graph_nodes(self.graph).len() && graph_nodes(self.graph)[
                self.nodes@[c]->0 as int
            ] == c
        &&& forall|i: int|
            0 <= i < graph_nodes(self.graph).len() ==> (#[trigger] graph_nodes(self.graph)[i])
                < 2 * self.db.n_lit && self.nodes@[graph_nodes(self.graph)[i] as int] == Some(
                i as usize,
            )
        &&& forall|k: int|
            0 <= k < graph_edges(self.graph).len() ==> 0 <= (#[trigger] graph_edges(
                self.graph,
            )[k]).0 < graph_nodes(self.graph).len() && 0 <= graph_edges(self.graph)[k].1
                < graph_nodes(self.graph).len()
        &&& forall|k1: int, k2: int|
            0 <= k1 < k2 < graph_edges(self.graph).len() ==> (#[trigger] graph_edges(
                self.graph,
            )[k1]) != (#[trigger] graph_edges(self.graph)[k2])
    }

    /// Every recorded decision literal refers to a declared variable.
    pub open spec fn guessed_ok(self) -> bool {
        forall|k: int| 0 <= k < self.guessed@.len() ==> (#[trigger] self.guessed@[k]).var < self.db.n_lit
    }

    /// The pieces that survive a failed propagation: conflict analysis
    /// needs no more than this.
    pub open spec fn wf_core(self) -> bool {
        &&& self.db.lits_ok()
        &&& self.graph_ok()
        &&& self.guessed_ok()
    }

    pub open spec fn wf(self) -> bool {
        &&& self.db.wf()
        &&& self.graph_ok()
        &&& self.guessed_ok()
    }

    /// An empty formula over `n_lit` variables, with a node table sized
    /// for literal codes up to the largest variable identifier.
    pub fn new(n_lit: usize, max_lit: usize) -> (r: CnfGraph)
        requires
            n_lit <= max_lit,
            n_lit <= usize::MAX / 2,
            2 * max_lit + 2 <= 0xffff,
        ensures
            r.wf(),
            r.n_lit() == n_lit,
            r.max_lit == max_lit,
            r.total() == 0,
            r.model() =~= Map::<int, Set<Lit>>::empty(),
            r.guessed@.len() == 0,
            graph_nodes(r.graph) == Seq::<usize>::empty(),
            graph_edges(r.graph) == Seq::<(int, int)>::empty(),
            r.nodes@.len() == 2 * max_lit + 2,
            forall|c: int| 0 <= c < r.nodes@.len() ==> (#[trigger] r.nodes@[c]) is None,
    {
        let db = ClauseDb::new(n_lit);
        let graph = graph_new();
        let mut nodes: Vec<Option<usize>> = Vec::new();
        let mut c: usize = 0;
        while c < 2 * max_lit + 2
            invariant
                nodes@.len() == c,
                c <= 2 * max_lit + 2,
                forall|j: int| 0 <= j < c ==> (#[trigger] nodes@[j]) is None,
                count_some(nodes@) == 0,
            decreases 2 * max_lit + 2 - c,
        {
            let ghost table_pre = nodes@;
            nodes.push(None);
            proof {
                assert(nodes@.drop_last() =~= table_pre);
            }
            c += 1;
        }
        CnfGraph { max_lit, db, graph, nodes, guessed: Vec::new() }
    }

    /// Builds the formula from parsed clauses: the declared variable
    /// count is the number of distinct variables, the node table is sized
    /// by the largest variable identifier.
    pub fn from_clauses(value: &Clauses) -> (r: CnfGraph)
        requires
            value.1 <= usize::MAX / 2,
            value.1 <= value.2,
            2 * value.2 + 2 <= 0xffff,
            forall|i: int, j: int|
                0 <= i < value.0@.len() && 0 <= j < value.0@[i].0@.len() ==> (
                #[trigger] value.0@[i].0@[j]).var < value.1,
        ensures
            r.wf(),
            r.n_lit() == value.1,
            r.total() == value.0@.len(),
            r.guessed@.len() == 0,
            r.model().dom() =~= Set::new(|i: int| 0 <= i < value.0@.len()),
            forall|i: int|
                0 <= i < value.0@.len() ==> r.model()[i] == lit_set_of(
                    (#[trigger] value.0@[i]).0@,
                ),
    {
        let mut cnf = CnfGraph::new(value.1, value.2);
        let n = value.0.len();
        let mut k: usize = 0;
        while k < n
            invariant
                k <= value.0@.len(),
                n == value.0@.len(),
                cnf.wf(),
                cnf.n_lit() == value.1,
                cnf.total() == k,
                cnf.guessed@.len() == 0,
                value.1 <= usize::MAX / 2,
                forall|i: int, j: int|
                    0 <= i < value.0@.len() && 0 <= j < value.0@[i].0@.len() ==> (
                    #[trigger] value.0@[i].0@[j]).var < value.1,
                cnf.model().dom() =~= Set::new(|i: int| 0 <= i < k),
                forall|i: int|
                    0 <= i < k ==> cnf.model()[i] == lit_set_of((#[trigger] value.0@[i]).0@),
            decreases value.0@.len() - k,
        {
            let ghost pre = cnf;
            cnf.add_clause(&value.0[k]);
            proof {
                assert(cnf.model().dom() =~= Set::new(|i: int| 0 <= i < k + 1));
                assert forall|i: int| 0 <= i < k + 1 implies cnf.model()[i] == lit_set_of(
                    (#[trigger] value.0@[i]).0@,
                ) by {
                    if i < k {
                        assert(pre.model()[i] == lit_set_of(value.0@[i].0@));
                    }
                }
            }
            k += 1;
        }
        cnf
    }

    /// How many clauses are still active.
    pub fn num_clause(&self) -> (r: usize)
        requires
            self.wf(),
        ensures
            r == active_count(self.db.slots@),
            (r == 0) <==> (self.model().dom() =~= Set::<int>::empty()),
    {
        self.db.num_active()
    }

    /// Registers a new clause, deduplicating its literals; a one-literal
    /// clause joins the unit worklist.
    pub fn add_clause(&mut self, clause: &Clause)
        requires
            old(self).wf(),
            old(self).total() < usize::MAX,
            forall|j: int|
                0 <= j < clause.0@.len() ==> (#[trigger] clause.0@[j]).var < old(self).n_lit(),
        ensures
            final(self).wf(),
            final(self).n_lit() == old(self).n_lit(),
            final(self).max_lit == old(self).max_lit,
            final(self).guessed@ == old(self).guessed@,
            final(self).total() == old(self).total() + 1,
            final(self).model() == old(self).model().insert(
                old(self).total(),
                lit_set_of(clause.0@),
            ),
            final(self).graph == old(self).graph,
            final(self).nodes@ == old(self).nodes@,
    {
        self.db.add_clause(&clause.0);
    }

    /// Creates a graph node carrying the literal's code, unless one
    /// exists already.
    fn ensure_node(&mut self, l: Lit)
        requires
            old(self).graph_ok(),
            l.var < old(self).db.n_lit,
        ensures
            final(self).graph_ok(),
            final(self).db == old(self).db,
            final(self).guessed@ == old(self).guessed@,
            final(self).max_lit == old(self).max_lit,
            final(self).nodes@.len() == old(self).nodes@.len(),
            graph_edges(final(self).graph) == graph_edges(old(self).graph),
            graph_nodes(final(self).graph).len() >= graph_nodes(old(self).graph).len(),
            forall|c: int|
                0 <= c < old(self).nodes@.len() && (#[trigger] old(self).nodes@[c]) is Some
                    ==> final(self).nodes@[c] == old(self).nodes@[c],
            final(self).nodes@[l.cs()] is Some,
    {
        let c = l.code();
        let present = match self.nodes[c] {
            Some(_) => true,
            None => false,
        };
        if !present {
            proof {
                lemma_count_some_le(self.nodes@);
            }
            let i = graph_add_node(&mut self.graph, c);
            let ghost table_pre = self.nodes@;
            self.nodes.set(c, Some(i));
            proof {
                lemma_count_some_update(table_pre, c as int, i);
                let fin = *self;
                let pre = *old(self);
                assert forall|c2: int|
                    0 <= c2 < fin.nodes@.len() && (#[trigger] fin.nodes@[c2]) is Some
                        implies (fin.nodes@[c2]->0 as int) < graph_nodes(fin.graph).len()
                        && graph_nodes(fin.graph)[fin.nodes@[c2]->0 as int] == c2 by {
                    if c2 == c as int {
                        assert(graph_nodes(fin.graph)[i as int] == c as usize);
                    } else {
                        assert(pre.nodes@[c2] is Some);
                    }
                }
                assert forall|j: int|
                    0 <= j < graph_nodes(fin.graph).len() implies (#[trigger] graph_nodes(
                    fin.graph)[j]) < 2 * fin.db.n_lit && fin.nodes@[graph_nodes(
                    fin.graph)[j] as int] == Some(j as usize) by {
                    if j < graph_nodes(pre.graph).len() {
                        assert(graph_nodes(pre.graph)[j] < 2 * pre.db.n_lit);
                        assert(pre.nodes@[graph_nodes(pre.graph)[j] as int] == Some(
                            j as usize,
                        ));
                        assert(graph_nodes(pre.graph)[j] as int != c as int);
                    } else {
                        assert(graph_nodes(fin.graph)[j] == c as usize);
                    }
                }
                assert forall|k: int|
                    0 <= k < graph_edges(fin.graph).len() implies 0 <= (#[trigger] graph_edges(
                    fin.graph)[k]).0 < graph_nodes(fin.graph).len() && 0 <= graph_edges(
                    fin.graph)[k].1 < graph_nodes(fin.graph).len() by {
                    assert(graph_edges(fin.graph)[k] == graph_edges(pre.graph)[k]);
                }
            }
        }
    }

    /// The implication edge from the node of `src` to the node of `dst`
    /// is recorded in the graph.
    pub open spec fn edge_recorded(self, src: Lit, dst: Lit) -> bool {
        exists|ns: usize, nd: usize|
            self.nodes@[src.cs()] == Some(ns) && self.nodes@[dst.cs()] == Some(nd)
                && #[trigger] graph_edges(self.graph).contains((ns as int, nd as int))
    }

    /// Removes every clause containing `lit`: each is satisfied once
    /// `lit` holds.
    pub fn remove_positive(&mut self, lit: Lit)
        requires
            old(self).wf(),
            lit.var < old(self).n_lit(),
        ensures
            final(self).wf(),
            final(self).n_lit() == old(self).n_lit(),
            final(self).max_lit == old(self).max_lit,
            final(self).guessed@ == old(self).guessed@,
            final(self).total() == old(self).total(),
            final(self).model() == sat_removed(old(self).model(), lit),
            final(self).db.n_active <= old(self).db.n_active,
            final(self).graph == old(self).graph,
            final(self).nodes@ == old(self).nodes@,
    {
        self.db.remove_sat(lit);
    }

    /// Rules `lit` out of every clause that still holds it, recording an
    /// implication edge from the node of `lit`'s complement (the literal
    /// just made true) to every literal left in each shrunk clause. A
    /// clause left empty is a conflict, reported by id; the clauses after
    /// it in the occurrence entry are then left untouched.
    pub fn remove_negation(&mut self, lit: Lit) -> (r: Result<(), usize>)
        requires
            old(self).wf(),
            lit.var < old(self).n_lit(),
            old(self).nodes@[lit.spec_negate().cs()] is Some,
        ensures
            final(self).n_lit() == old(self).n_lit(),
            final(self).max_lit == old(self).max_lit,
            final(self).guessed@ == old(self).guessed@,
            final(self).total() == old(self).total(),
            final(self).wf_core(),
            final(self).db.n_active == old(self).db.n_active,
            edges_grow(old(self).graph, final(self).graph),
            final(self).nodes@.len() == old(self).nodes@.len(),
            forall|c: int|
                0 <= c < old(self).nodes@.len() && (#[trigger] old(self).nodes@[c]) is Some
                    ==> final(self).nodes@[c] == old(self).nodes@[c],
            match r {
                Ok(()) => final(self).db.wf() && final(self).model() == neg_shrunk(
                    old(self).model(),
                    lit,
                ) && !shrink_conflicts(old(self).model(), lit) && (forall|i: int, a: Lit|
                    old(self).model().dom().contains(i) && old(self).model()[i].contains(lit)
                        && #[trigger] old(self).model()[i].contains(a) && a != lit ==> final(self).edge_recorded(lit.spec_negate(), a)),
                Err(cid) => cid < old(self).total() && old(self).model().dom().contains(cid as int)
                    && old(self).model()[cid as int] == set![lit] && final(self).db.slots@[
                    cid as int
                ].active && final(self).db.slots@[cid as int].lits.width() == 0 && final(self).db.slots@[cid as int].lits.full() == old(self).db.slots@[
                    cid as int
                ].lits.full(),
            },
    {
        let (shrunk, res) = self.db.shrink_all(lit);
        let ghost db_after = self.db;
        let nl = lit.negate();
        let ghost nlc = nl.cs();
        let from_opt = self.nodes[nl.code()];
        proof {
            lemma_edges_grow_from_eq(old(self).graph, self.graph);
        }
        match from_opt {
            None => {
                proof {
                    assert(false);
                }
                res
            },
            Some(from) => {
                let mut k: usize = 0;
                while k < shrunk.len()
                    invariant
                        self.db == db_after,
                        self.guessed@ == old(self).guessed@,
                        self.max_lit == old(self).max_lit,
                        self.graph_ok(),
                        self.nodes@.len() == old(self).nodes@.len(),
                        forall|c2: int|
                            0 <= c2 < old(self).nodes@.len() && (#[trigger] old(self).nodes@[c2]) is Some ==> self.nodes@[c2] == old(self).nodes@[c2],
                        edges_grow(old(self).graph, self.graph),
                        self.nodes@[nlc] == Some(from),
                        0 <= nlc < self.nodes@.len(),
                        k <= shrunk@.len(),
                        forall|k2: int, a: Lit|
                            0 <= k2 < k && #[trigger] shrunk@[k2].rest@.contains(a) ==> self
                                .edge_recorded(nl, a),
                    decreases shrunk@.len() - k,
                {
                    let rest = &shrunk[k].rest;
                    let mut j: usize = 0;
                    while j < rest.len()
                        invariant
                            self.db == db_after,
                            self.guessed@ == old(self).guessed@,
                            self.max_lit == old(self).max_lit,
                            self.graph_ok(),
                            self.nodes@.len() == old(self).nodes@.len(),
                            forall|c2: int|
                                0 <= c2 < old(self).nodes@.len() && (#[trigger] old(self).nodes@[c2]) is Some ==> self.nodes@[c2] == old(self).nodes@[c2],
                            edges_grow(old(self).graph, self.graph),
                            self.nodes@[nlc] == Some(from),
                            0 <= nlc < self.nodes@.len(),
                            k < shrunk@.len(),
                            rest@ == shrunk@[k as int].rest@,
                            j <= rest@.len(),
                            forall|k2: int, a: Lit|
                                0 <= k2 < k && #[trigger] shrunk@[k2].rest@.contains(a) ==> self
                                    .edge_recorded(nl, a),
                            forall|j2: int|
                                0 <= j2 < j ==> self.edge_recorded(nl, #[trigger] rest@[j2]),
                        decreases rest@.len() - j,
                    {
                        let l2 = rest[j];
                        let ghost mid = *self;
                        self.ensure_node(l2);
                        proof {
                            lemma_edges_grow_from_eq(mid.graph, self.graph);
                            lemma_edges_grow_trans(old(self).graph, mid.graph, self.graph);
                            assert forall|k2: int, a: Lit|
                                0 <= k2 < k && #[trigger] shrunk@[k2].rest@.contains(
                            a) implies self.edge_recorded(nl, a) by {
                                let j3 = choose|j3: int|
                                    0 <= j3 < shrunk@[k2].rest@.len() && shrunk@[k2].rest@[j3]
                                        == a;
                                assert(a.var < old(self).n_lit());
                                lemma_recorded_mono(mid, *self, nl, a);
                            }
                            assert forall|j2: int| 0 <= j2 < j implies self.edge_recorded(
                                nl,
                                #[trigger] rest@[j2],
                            ) by {
                                assert(rest@[j2].var < old(self).n_lit());
                                lemma_recorded_mono(mid, *self, nl, rest@[j2]);
                            }
                        }
                        let to = match self.nodes[l2.code()] {
                            Some(to) => to,
                            None => {
                                proof {
                                    assert(false);
                                }
                                from
                            },
                        };
                        if !graph_has_edge(&self.graph, from, to) {
                            let ghost gmid = *self;
                            proof {
                                lemma_distinct_pairs_bound(
                                    graph_edges(self.graph),
                                    graph_nodes(self.graph).len() as int,
                                );
                                lemma_count_some_le(self.nodes@);
                                assert(graph_nodes(self.graph).len() * graph_nodes(
                                    self.graph,
                                ).len() < 0xffff_ffff) by (nonlinear_arith)
                                    requires
                                        graph_nodes(self.graph).len() <= 0xffff,
                                ;
                            }
                            graph_add_edge(&mut self.graph, from, to);
                            proof {
                                lemma_edges_grow_push(
                                    gmid.graph,
                                    self.graph,
                                    (from as int, to as int),
                                );
                                lemma_edges_grow_trans(old(self).graph, gmid.graph, self.graph);
                                assert(self.graph_ok()) by {
                                    assert(graph_nodes(self.graph) == graph_nodes(gmid.graph));
                                    assert forall|k3: int|
                                        0 <= k3 < graph_edges(self.graph).len() implies 0 <= (
                                    #[trigger] graph_edges(self.graph)[k3]).0 < graph_nodes(
                                        self.graph,
                                    ).len() && 0 <= graph_edges(self.graph)[k3].1 < graph_nodes(
                                        self.graph,
                                    ).len() by {
                                        if k3 < graph_edges(gmid.graph).len() {
                                            assert(graph_edges(self.graph)[k3] == graph_edges(
                                                gmid.graph,
                                            )[k3]);
                                        }
                                    }
                                    assert forall|k3: int, k4: int|
                                        0 <= k3 < k4 < graph_edges(self.graph).len() implies (
                                    #[trigger] graph_edges(self.graph)[k3]) != (
                                    #[trigger] graph_edges(self.graph)[k4]) by {
                                        if k4 == graph_edges(self.graph).len() - 1 {
                                            assert(graph_edges(self.graph)[k3] == graph_edges(
                                                gmid.graph,
                                            )[k3]);
                                            assert(!graph_edges(gmid.graph).contains(
                                                (from as int, to as int),
                                            ));
                                        }
                                    }
                                }
                                assert forall|k2: int, a: Lit|
                                    0 <= k2 < k && #[trigger] shrunk@[k2].rest@.contains(
                                a) implies self.edge_recorded(nl, a) by {
                                    let j3 = choose|j3: int|
                                        0 <= j3 < shrunk@[k2].rest@.len() && shrunk@[k2].rest@[j3] == a;
                                    assert(a.var < old(self).n_lit());
                                    lemma_recorded_mono(gmid, *self, nl, a);
                                }
                                assert forall|j2: int| 0 <= j2 < j implies self.edge_recorded(
                                    nl,
                                    #[trigger] rest@[j2],
                                ) by {
                                    assert(rest@[j2].var < old(self).n_lit());
                                    lemma_recorded_mono(gmid, *self, nl, rest@[j2]);
                                }
                                assert(graph_edges(self.graph).contains(
                                    (from as int, to as int),
                                )) by {
                                    assert(graph_edges(self.graph)[graph_edges(
                                        self.graph,
                                    ).len() - 1] == (from as int, to as int));
                                }
                                assert(self.edge_recorded(nl, rest@[j as int]));
                            }
                        } else {
                            proof {
                                assert(self.edge_recorded(nl, rest@[j as int]));
                            }
                        }
                        j += 1;
                    }
                    proof {
                        assert forall|k2: int, a: Lit|
                            0 <= k2 < k + 1 && #[trigger] shrunk@[k2].rest@.contains(
                        a) implies self.edge_recorded(nl, a) by {
                            if k2 == k as int {
                                let j2 = choose|j2: int|
                                    0 <= j2 < rest@.len() && rest@[j2] == a;
                                assert(self.edge_recorded(nl, rest@[j2]));
                            }
                        }
                    }
                    k += 1;
                }
                proof {
                    if res is Ok {
                        assert forall|i: int, a: Lit|
                            old(self).model().dom().contains(i) && old(self).model()[i].contains(
                            lit) && #[trigger] old(self).model()[i].contains(a) && a
                            != lit implies self.edge_recorded(nl, a) by {
                            assert(crate::clause_db::shrunk_covers(shrunk@, i));
                            let k2 = choose|k2: int|
                                0 <= k2 < shrunk@.len() && (#[trigger] shrunk@[k2]).id as int
                                    == i;
                            assert(shrunk@[k2].rest@.contains(a));
                        }
                    }
                }
                res
            },
        }
    }
}


impl CnfGraph {
    /// Propagates `lit` as true: creates the graph nodes for the literal
    /// and its complement, removes the satisfied clauses, and rules the
    /// complement out everywhere else, drawing an implication edge from
    /// the node of `lit` to every literal left in each shrunk clause.
    /// Fails with the id of a clause that held exactly the complement of
    /// `lit`.
    pub fn propagation(&mut self, lit: Lit) -> (r: Result<(), usize>)
        requires
            old(self).wf(),
            lit.var < old(self).n_lit(),
        ensures
            final(self).n_lit() == old(self).n_lit(),
            final(self).max_lit == old(self).max_lit,
            final(self).guessed@ == old(self).guessed@,
            final(self).total() == old(self).total(),
            final(self).wf_core(),
            final(self).db.n_active <= old(self).db.n_active,
            edges_grow(old(self).graph, final(self).graph),
            final(self).nodes@[lit.cs()] is Some,
            final(self).nodes@[lit.spec_negate().cs()] is Some,
            match r {
                Ok(()) => final(self).wf() && final(self).model() == propagated(
                    old(self).model(),
                    lit,
                ) && !conflicts(old(self).model(), lit) && (forall|i: int, a: Lit|
                    old(self).model().dom().contains(i) && !old(self).model()[i].contains(lit)
                        && old(self).model()[i].contains(lit.spec_negate())
                        && #[trigger] old(self).model()[i].contains(a) && a != lit.spec_negate()
                        ==> final(self).edge_recorded(lit, a)),
                Err(cid) => cid < old(self).total() && conflicts(old(self).model(), lit)
                    && old(self).model().dom().contains(cid as int) && old(self).model()[cid as int] == set![lit.spec_negate()],
            },
    {
        self.ensure_node(lit);
        let nl = lit.negate();
        self.ensure_node(nl);
        let ghost staged = *self;
        self.remove_positive(lit);
        let ghost mid = *self;
        proof {
            crate::model::lemma_conflicts_split(old(self).model(), lit);
            assert(mid.nodes@[lit.cs()] is Some);
            assert(mid.nodes@[nl.cs()] is Some);
        }
        let res = self.remove_negation(nl);
        proof {
            lemma_edges_grow_from_eq(old(self).graph, mid.graph);
            lemma_edges_grow_trans(old(self).graph, mid.graph, self.graph);
            assert(self.nodes@[lit.cs()] is Some && self.nodes@[nl.cs()] is Some);
            if res is Ok {
                assert forall|i: int, a: Lit|
                    old(self).model().dom().contains(i) && !old(self).model()[i].contains(lit)
                        && old(self).model()[i].contains(nl) && #[trigger] old(self).model()[
                    i].contains(a) && a != nl implies self.edge_recorded(lit, a) by {
                    assert(mid.model().dom().contains(i));
                    assert(mid.model()[i] == old(self).model()[i]);
                    assert(mid.model()[i].contains(a));
                    assert(self.edge_recorded(nl.spec_negate(), a));
                    assert(nl.spec_negate() == lit);
                }
            }
        }
        res
    }

    /// Consumes an active unit clause: retires it and propagates its
    /// sole literal as true. An inactive or unknown id is a no-op.
    pub fn unit_propagation(&mut self, clause_id: usize) -> (r: Result<Option<Lit>, usize>)
        requires
            old(self).wf(),
            old(self).model().dom().contains(clause_id as int) ==> old(self).db.slots@[clause_id as int].lits.width() == 1,
        ensures
            final(self).n_lit() == old(self).n_lit(),
            final(self).max_lit == old(self).max_lit,
            final(self).guessed@ == old(self).guessed@,
            final(self).total() == old(self).total(),
            final(self).wf_core(),
            match r {
                Ok(ol) => match ol {
                    Some(l) => old(self).model().dom().contains(clause_id as int) && old(self).model()[clause_id as int] == set![l] && l.var < old(self).n_lit() && final(self).wf() && final(self).model() == propagated(old(self).model(), l) && !conflicts(old(self).model(), l) && final(self).db.n_active < old(self).db.n_active,
                    None => *final(self) == *old(self) && !old(self).model().dom().contains(clause_id as int),
                },
                Err(cid) => cid < old(self).total() && exists|l: Lit|
                    old(self).model().dom().contains(clause_id as int) && old(self).model()[clause_id as int] == set![l] && #[trigger] conflicts(old(self).model(), l) && old(self).model().dom().contains(cid as int) && old(self).model()[cid as int]
                        == set![l.spec_negate()],
            },
    {
        match self.db.pop_unit(clause_id) {
            None => Ok(None),
            Some(l) => {
                proof {
                    assert(set![l].contains(l));
                    crate::model::lemma_propagate_drop_unit(old(self).model(), clause_id as int, l);
                }
                match self.propagation(l) {
                    Ok(()) => Ok(Some(l)),
                    Err(cid) => {
                        proof {
                            assert(conflicts(old(self).model(), l));
                        }
                        Err(cid)
                    },
                }
            },
        }
    }

    /// Pops ids from the unit worklist and propagates each in turn until
    /// no unit clause remains, returning the literals forced this way in
    /// order. Fails with the conflicting clause id if a propagation step
    /// empties a clause.
    pub fn unit_propagations(&mut self) -> (r: Result<Vec<Lit>, usize>)
        requires
            old(self).wf(),
        ensures
            final(self).n_lit() == old(self).n_lit(),
            final(self).max_lit == old(self).max_lit,
            final(self).guessed@ == old(self).guessed@,
            final(self).total() == old(self).total(),
            final(self).wf_core(),
            match r {
                Ok(lits) => final(self).wf() && units_chain(old(self).model(), lits@) && final(self).model() == propagate_seq(old(self).model(), lits@) && (forall|k: int| 0 <= k < lits@.len() ==> (#[trigger] lits@[k]).var < old(self).n_lit()) && (forall|i: int| final(self).model().dom().contains(i) ==> final(self).db.slots@[i].lits.width() != 1),
                Err(cid) => cid < old(self).total() && exists|lits: Seq<Lit>, l: Lit|
                    units_chain(old(self).model(), lits) && (exists|i: int|
                        #[trigger] propagate_seq(old(self).model(), lits).dom().contains(i)
                            && propagate_seq(old(self).model(), lits)[i] == set![l])
                        && #[trigger] conflicts(propagate_seq(old(self).model(), lits), l)
                        && propagate_seq(old(self).model(), lits).dom().contains(cid as int)
                        && propagate_seq(old(self).model(), lits)[cid as int] == set![l.spec_negate()],
            },
    {
        let ghost m0 = self.model();
        let mut lits: Vec<Lit> = Vec::new();
        let mut done = false;
        while !done
            invariant
                self.wf(),
                self.n_lit() == old(self).n_lit(),
                self.max_lit == old(self).max_lit,
                self.guessed@ == old(self).guessed@,
                self.total() == old(self).total(),
                units_chain(m0, lits@),
                self.model() == propagate_seq(m0, lits@),
                m0 == old(self).model(),
                forall|k: int| 0 <= k < lits@.len() ==> (#[trigger] lits@[k]).var < self.n_lit(),
                done ==> forall|i: int|
                    self.model().dom().contains(i) ==> self.db.slots@[i].lits.width() != 1,
            decreases self.db.n_active, (if done {
                0int
            } else {
                1int
            }),
        {
            match self.db.peek_unit() {
                None => {
                    done = true;
                },
                Some(id) => {
                    let ghost mk = self.model();
                    let ghost litsk = lits@;
                    match self.unit_propagation(id) {
                        Ok(Some(l)) => {
                            lits.push(l);
                            proof {
                                assert(mk.dom().contains(id as int) && mk[id as int] == set![l]);
                                crate::model::lemma_units_chain_snoc(m0, litsk, l);
                            }
                        },
                        Ok(None) => {
                            proof {
                                assert(false);
                            }
                        },
                        Err(cid) => {
                            proof {
                                let l = choose|l: Lit|
                                    mk.dom().contains(id as int) && mk[id as int] == set![l]
                                        && #[trigger] conflicts(mk, l);
                                assert(units_chain(m0, litsk) && (exists|i: int|
                                    #[trigger] propagate_seq(m0, litsk).dom().contains(i)
                                        && propagate_seq(m0, litsk)[i] == set![l]) && conflicts(
                                    propagate_seq(m0, litsk),
                                    l,
                                ));
                            }
                            return Err(cid);
                        },
                    }
                },
            }
        }
        Ok(lits)
    }

    /// The literals that occur in only one polarity among the active
    /// clauses.
    pub fn pure_literals(&self) -> (r: Vec<Lit>)
        requires
            self.wf(),
        ensures
            forall|k: int|
                0 <= k < r@.len() ==> (#[trigger] r@[k]).var < self.n_lit() && self.occurs(r@[k])
                    && !self.occurs(r@[k].spec_negate()),
            forall|k1: int, k2: int|
                0 <= k1 < k2 < r@.len() ==> (#[trigger] r@[k1]).var != (#[trigger] r@[k2]).var,
    {
        self.db.pure_literals()
    }

    /// True when no literal occurs in any active clause.
    pub fn no_occurrences(&self) -> (r: bool)
        requires
            self.wf(),
        ensures
            r == (forall|l: Lit| !(#[trigger] self.occurs(l))),
    {
        let r = self.db.no_occurrences();
        proof {
            if r {
                assert forall|l: Lit| !(#[trigger] self.occurs(l)) by {
                    assert(!self.db.occurs(l));
                }
            } else {
                let l = choose|l: Lit| #[trigger] self.db.occurs(l);
                assert(self.occurs(l));
            }
        }
        r
    }

    /// Chooses an unresolved literal to branch on. `Direct`
    /// deterministically picks the smallest occurring literal in the
    /// code order, normalized to its positive form; `Random` draws
    /// uniformly among the occurring literals. Nothing is returned once
    /// no literal occurs.
    pub fn next_guess(&self, strategy: Strategy) -> (r: Option<Lit>)
        requires
            self.wf(),
        ensures
            match r {
                Some(l) => l.var < self.n_lit() && (self.occurs(l) || self.occurs(
                    l.spec_negate(),
                )),
                None => forall|l: Lit| !(#[trigger] self.occurs(l)),
            },
            strategy is Direct && r is Some ==> !r->Some_0.neg && (forall|y: Lit|
                #[trigger] self.occurs(y) ==> 2 * r->Some_0.var <= y.cs()),
    {
        match strategy {
            Strategy::Direct => self.db.first_occurring(),
            Strategy::Random => {
                let codes = self.db.occurring_codes();
                if codes.len() == 0 {
                    None
                } else {
                    let idx = crate::rng::random_below(codes.len());
                    let c = codes[idx];
                    let l = Lit { var: c / 2, neg: c % 2 == 1 };
                    proof {
                        assert(l == lit_of_code(c as int));
                        assert(self.occurs(l));
                        assert(l.var < self.n_lit()) by {
                            let i = choose|i: int|
                                #[trigger] self.model().dom().contains(i) && self.model()[i].contains(l);
                            assert(self.db.slots@[i].lits.full().contains(l));
                        }
                    }
                    Some(l)
                }
            },
        }
    }

    /// Records a decision literal on the decision stack.
    pub fn make_guess(&mut self, lit: Lit)
        requires
            old(self).wf_core(),
            lit.var < old(self).n_lit(),
        ensures
            final(self).guessed@ == old(self).guessed@.push(lit),
            final(self).db == old(self).db,
            final(self).graph == old(self).graph,
            final(self).nodes@ == old(self).nodes@,
            final(self).max_lit == old(self).max_lit,
            final(self).wf_core(),
            old(self).db.wf() ==> final(self).wf(),
    {
        self.guessed.push(lit);
    }

    /// An independent copy of the whole formula state.
    pub fn snapshot(&self) -> (r: CnfGraph)
        requires
            self.wf(),
        ensures
            r.wf(),
            r.n_lit() == self.n_lit(),
            r.max_lit == self.max_lit,
            r.total() == self.total(),
            r.model() == self.model(),
            r.guessed@ == self.guessed@,
            graph_nodes(r.graph) == graph_nodes(self.graph),
            graph_edges(r.graph) == graph_edges(self.graph),
            r.nodes@ == self.nodes@,
    {
        let db = self.db.snapshot();
        let graph = graph_clone(&self.graph);
        let mut nodes: Vec<Option<usize>> = Vec::new();
        let mut c: usize = 0;
        let n = self.nodes.len();
        while c < n
            invariant
                c <= self.nodes@.len(),
                n == self.nodes@.len(),
                nodes@ == self.nodes@.take(c as int),
            decreases self.nodes@.len() - c,
        {
            nodes.push(self.nodes[c]);
            proof {
                assert(self.nodes@.take(c + 1int) =~= self.nodes@.take(c as int).push(
                    self.nodes@[c as int],
                ));
            }
            c += 1;
        }
        proof {
            assert(self.nodes@.take(self.nodes@.len() as int) =~= self.nodes@);
        }
        let mut guessed: Vec<Lit> = Vec::new();
        let mut k: usize = 0;
        let gn = self.guessed.len();
        while k < gn
            invariant
                k <= self.guessed@.len(),
                gn == self.guessed@.len(),
                guessed@ == self.guessed@.take(k as int),
            decreases self.guessed@.len() - k,
        {
            guessed.push(self.guessed[k]);
            proof {
                assert(self.guessed@.take(k + 1int) =~= self.guessed@.take(k as int).push(
                    self.guessed@[k as int],
                ));
            }
            k += 1;
        }
        proof {
            assert(self.guessed@.take(self.guessed@.len() as int) =~= self.guessed@);
        }
        CnfGraph { max_lit: self.max_lit, db, graph, nodes, guessed }
    }
}


impl CnfGraph {
    /// The literal joined the learned cut through the implication graph:
    /// its node has an incoming edge from a node whose literal is a
    /// decision other than the first one.
    pub open spec fn cut_traced(self, x: Lit) -> bool {
        exists|n: usize, u: int|
            self.nodes@[x.cs()] == Some(n) && 0 <= u < graph_nodes(self.graph).len()
                && #[trigger] graph_edges(self.graph).contains((u, n as int))
                && self.guessed@.contains(lit_of_code(graph_nodes(self.graph)[u] as int))
                && lit_of_code(graph_nodes(self.graph)[u] as int) != self.guessed@[0]
    }

    /// The complement of a literal the conflict clause once held must
    /// join the learned cut: it is not the first decision, and its node
    /// has a predecessor among the later decisions.
    pub open spec fn seed_must_join(self, cid: int, y: Lit) -> bool {
        &&& self.db.slots@[cid].lits.full().contains(y)
        &&& y.spec_negate() != self.guessed@[0]
        &&& self.cut_traced(y.spec_negate())
    }

    /// True when the literal is a decision other than the first one.
    fn is_special(&self, x: Lit, root: Lit) -> (r: bool)
        ensures
            r == (self.guessed@.contains(x) && x != root),
    {
        if x == root {
            false
        } else {
            crate::clause_db::contains_lit(&self.guessed, x)
        }
    }

    /// Derives a learned clause from a conflicting clause by walking the
    /// implication graph backwards: starting from the complements of the
    /// clause's literals, a frontier literal whose predecessors include a
    /// later decision joins the cut; otherwise its predecessors join the
    /// frontier. The learned clause is the negation of the cut: its first
    /// literal is the negated first decision, every further literal was
    /// traced to a predecessor among the later decisions, and no literal
    /// repeats. A conflict with no decisions on the path yields no
    /// learnable clause.
    pub fn learn_from_conflict(&self, clause_id: usize) -> (r: Option<Clause>)
        requires
            self.wf_core(),
            clause_id < self.total(),
        ensures
            r is Some <==> self.guessed@.len() > 0,
            match r {
                Some(c) => c.0@.len() >= 1 && c.0@[0] == self.guessed@[0].spec_negate() && (
                forall|k: int| 0 <= k < c.0@.len() ==> (#[trigger] c.0@[k]).var < self.n_lit())
                    && (forall|k1: int, k2: int|
                    0 <= k1 < k2 < c.0@.len() ==> (#[trigger] c.0@[k1]) != (#[trigger] c.0@[k2]))
                    && (forall|k: int|
                    1 <= k < c.0@.len() ==> self.cut_traced((#[trigger] c.0@[k]).spec_negate()))
                    && (forall|y: Lit|
                    #[trigger] self.seed_must_join(clause_id as int, y) ==> c.0@.contains(y)),
                None => self.guessed@.len() == 0,
            },
    {
        if self.guessed.len() == 0 {
            return None;
        }
        let root = self.guessed[0];
        proof {
            assert(root.var < self.db.n_lit);
        }
        let all = self.db.clause_all_lits(clause_id);
        let mut queue: Vec<Lit> = Vec::new();
        let mut k: usize = 0;
        while k < all.len()
            invariant
                k <= all@.len(),
                forall|q: int| 0 <= q < queue@.len() ==> (#[trigger] queue@[q]).var < self.db.n_lit,
                forall|q2: int|
                    0 <= q2 < k ==> ((#[trigger] all@[q2]).spec_negate() == root
                        || queue@.contains(all@[q2].spec_negate())),
            decreases all@.len() - k,
        {
            proof {
                assert(all@[k as int].var < self.db.n_lit);
            }
            let ghost q_pre0 = queue@;
            let nl = all[k].negate();
            if nl != root {
                queue.push(nl);
                proof {
                    crate::clause_db::lemma_push_contains(q_pre0, nl);
                }
            }
            proof {
                assert forall|q2: int|
                    0 <= q2 < k + 1 implies ((#[trigger] all@[q2]).spec_negate() == root
                        || queue@.contains(all@[q2].spec_negate())) by {
                    if q2 < k && all@[q2].spec_negate() != root {
                        assert(q_pre0.contains(all@[q2].spec_negate()));
                    }
                }
            }
            k += 1;
        }
        let mut learned: Vec<Lit> = Vec::new();
        learned.push(root);
        let mut visited: Vec<bool> = Vec::new();
        let mut c0: usize = 0;
        let nn = self.nodes.len();
        while c0 < nn
            invariant
                c0 <= nn,
                nn == self.nodes@.len(),
                visited@.len() == c0,
                forall|j2: int| 0 <= j2 < c0 ==> !(#[trigger] visited@[j2]),
            decreases nn - c0,
        {
            visited.push(false);
            c0 += 1;
        }
        proof {
            assert forall|y: Lit| #[trigger] self.seed_must_join(clause_id as int, y) implies
                learned@.contains(y.spec_negate()) || (!visited@[y.spec_negate().cs()]
                && queue@.contains(y.spec_negate())) by {
                assert(self.db.slots@[clause_id as int].lits.full().contains(y));
                assert(all@.contains(y));
                let q2 = choose|q2: int| 0 <= q2 < all@.len() && all@[q2] == y;
                assert(y.var < self.db.n_lit);
                assert(queue@.contains(y.spec_negate()));
            }
        }
        while queue.len() > 0
            invariant
                visited@.len() == self.nodes@.len(),
                forall|q: int| 0 <= q < queue@.len() ==> (#[trigger] queue@[q]).var < self.db.n_lit,
                forall|q: int|
                    0 <= q < learned@.len() ==> (#[trigger] learned@[q]).var < self.db.n_lit,
                learned@.len() >= 1,
                learned@[0] == root,
                root == self.guessed@[0],
                forall|q1: int, q2: int|
                    0 <= q1 < q2 < learned@.len() ==> (#[trigger] learned@[q1]) != (
                    #[trigger] learned@[q2]),
                forall|q: int| 1 <= q < learned@.len() ==> self.cut_traced(#[trigger] learned@[q]),
                forall|y: Lit|
                    #[trigger] self.seed_must_join(clause_id as int, y) ==> learned@.contains(
                        y.spec_negate(),
                    ) || (!visited@[y.spec_negate().cs()] && queue@.contains(y.spec_negate())),
            decreases count_unvisited(visited@), queue@.len(),
        {
            let ghost q_pre = queue@;
            let ghost learned_pre = learned@;
            let ghost visited_pre = visited@;
            let lit = match queue.pop() {
                Some(l) => l,
                None => {
                    proof {
                        assert(false);
                    }
                    root
                },
            };
            let c = lit.code();
            if !visited[c] {
                proof {
                    lemma_count_unvisited_update(visited@, c as int);
                }
                visited.set(c, true);
                let already = crate::clause_db::contains_lit(&learned, lit);
                if !already {
                    match self.nodes[c] {
                        None => {
                            proof {
                                assert(!self.cut_traced(lit)) by {
                                    if self.cut_traced(lit) {
                                        let (n2, u2) = choose|n2: usize, u2: int|
                                            self.nodes@[lit.cs()] == Some(n2) && 0 <= u2
                                                < graph_nodes(self.graph).len()
                                                && #[trigger] graph_edges(self.graph).contains(
                                                (u2, n2 as int),
                                            ) && self.guessed@.contains(
                                                lit_of_code(graph_nodes(self.graph)[u2] as int),
                                            ) && lit_of_code(graph_nodes(self.graph)[u2] as int)
                                                != self.guessed@[0];
                                    }
                                }
                            }
                        },
                        Some(nid) => {
                            let parents = graph_incoming(&self.graph, nid);
                            let mut plits: Vec<Lit> = Vec::new();
                            let mut any_special = false;
                            let mut j: usize = 0;
                            while j < parents.len()
                                invariant
                                    j <= parents@.len(),
                                    forall|q: int|
                                        0 <= q < parents@.len() ==> (#[trigger] parents@[q])
                                            < graph_nodes(self.graph).len(),
                                    forall|q: int|
                                        0 <= q < plits@.len() ==> (#[trigger] plits@[q]).var
                                            < self.db.n_lit,
                                    any_special ==> self.cut_traced(lit),
                                    !any_special ==> forall|k2: int|
                                        0 <= k2 < j ==> !(self.guessed@.contains(
                                            lit_of_code(
                                                graph_nodes(self.graph)[(
                                                #[trigger] parents@[k2]) as int] as int,
                                            ),
                                        ) && lit_of_code(
                                            graph_nodes(self.graph)[parents@[k2] as int] as int,
                                        ) != root),
                                decreases parents@.len() - j,
                            {
                                let w = graph_node_weight(&self.graph, parents[j]);
                                let pl = Lit { var: w / 2, neg: w % 2 == 1 };
                                proof {
                                    assert(w < 2 * self.db.n_lit);
                                    assert(pl == lit_of_code(
                                        graph_nodes(self.graph)[parents@[j as int] as int] as int,
                                    ));
                                }
                                if self.is_special(pl, root) {
                                    proof {
                                        assert(graph_edges(self.graph).contains(
                                            (parents@[j as int] as int, nid as int),
                                        ));
                                        assert(self.nodes@[lit.cs()] == Some(nid));
                                        assert(self.cut_traced(lit));
                                    }
                                    any_special = true;
                                }
                                plits.push(pl);
                                j += 1;
                            }
                            if any_special {
                                proof {
                                    assert(learned@ == learned_pre);
                                }
                                learned.push(lit);
                                proof {
                                    assert(learned@[learned@.len() - 1] == lit);
                                    assert(learned@.contains(lit));
                                    assert forall|q1: int, q2: int|
                                        0 <= q1 < q2 < learned@.len() implies (
                                    #[trigger] learned@[q1]) != (#[trigger] learned@[q2]) by {
                                        if q2 == learned@.len() - 1 {
                                            assert(learned_pre.contains(learned_pre[q1]));
                                        }
                                    }
                                }
                            } else {
                                proof {
                                    assert(!self.cut_traced(lit)) by {
                                        if self.cut_traced(lit) {
                                            let (n2, u2) = choose|n2: usize, u2: int|
                                                self.nodes@[lit.cs()] == Some(n2) && 0 <= u2
                                                    < graph_nodes(self.graph).len()
                                                    && #[trigger] graph_edges(
                                                    self.graph,
                                                ).contains((u2, n2 as int))
                                                    && self.guessed@.contains(
                                                    lit_of_code(
                                                        graph_nodes(self.graph)[u2] as int,
                                                    ),
                                                ) && lit_of_code(
                                                    graph_nodes(self.graph)[u2] as int,
                                                ) != self.guessed@[0];
                                            assert(n2 == nid);
                                            let pk = choose|pk: int|
                                                0 <= pk < parents@.len() && (
                                                #[trigger] parents@[pk]) as int == u2;
                                        }
                                    }
                                }
                                let mut j2: usize = 0;
                                while j2 < plits.len()
                                    invariant
                                        j2 <= plits@.len(),
                                        forall|q: int|
                                            0 <= q < plits@.len() ==> (#[trigger] plits@[q]).var
                                                < self.db.n_lit,
                                        forall|q: int|
                                            0 <= q < queue@.len() ==> (#[trigger] queue@[q]).var
                                                < self.db.n_lit,
                                        queue@.len() >= q_pre.len() - 1,
                                        forall|t: int|
                                            0 <= t < q_pre.len() - 1 ==> #[trigger] queue@[t]
                                                == q_pre[t],
                                    decreases plits@.len() - j2,
                                {
                                    queue.push(plits[j2]);
                                    j2 += 1;
                                }
                            }
                        },
                    }
                } else {
                    proof {
                        assert(learned@.contains(lit));
                    }
                }
            }
            proof {
                crate::clause_db::lemma_push_contains(learned_pre, lit);
                assert(queue@.len() >= q_pre.len() - 1);
                assert(forall|t: int|
                    0 <= t < q_pre.len() - 1 ==> #[trigger] queue@[t] == q_pre[t]);
                assert forall|y: Lit|
                    #[trigger] self.seed_must_join(clause_id as int, y) implies learned@.contains(
                    y.spec_negate()) || (!visited@[y.spec_negate().cs()] && queue@.contains(
                    y.spec_negate())) by {
                    let x = y.spec_negate();
                    assert(self.db.slots@[clause_id as int].lits.full().contains(y));
                    assert(y.var < self.db.n_lit);
                    if x == lit {
                        assert(x.spec_negate() == y);
                        assert(learned@.contains(x));
                    } else {
                        if learned_pre.contains(x) {
                            assert(learned@.contains(x));
                        } else {
                            assert(!visited_pre[x.cs()] && q_pre.contains(x));
                            crate::lit::lemma_code_injective(x, lit);
                            assert(x.cs() != lit.cs());
                            assert(!visited@[x.cs()]);
                            let jx = choose|jx: int| 0 <= jx < q_pre.len() && q_pre[jx] == x;
                            assert(jx < q_pre.len() - 1) by {
                                if jx == q_pre.len() - 1 {
                                    assert(q_pre[jx] == lit);
                                }
                            }
                            assert(queue@[jx] == x);
                            assert(queue@.contains(x));
                        }
                    }
                }
            }
        }
        let mut out: Vec<Lit> = Vec::new();
        let mut q: usize = 0;
        while q < learned.len()
            invariant
                q <= learned@.len(),
                out@.len() == q,
                forall|q2: int|
                    0 <= q2 < q ==> (#[trigger] out@[q2]) == learned@[q2].spec_negate(),
                forall|q2: int|
                    0 <= q2 < learned@.len() ==> (#[trigger] learned@[q2]).var < self.db.n_lit,
                learned@.len() >= 1,
                learned@[0] == root,
                root == self.guessed@[0],
                forall|q1: int, q2: int|
                    0 <= q1 < q2 < learned@.len() ==> (#[trigger] learned@[q1]) != (
                    #[trigger] learned@[q2]),
                forall|q2: int|
                    1 <= q2 < learned@.len() ==> self.cut_traced(#[trigger] learned@[q2]),
            decreases learned@.len() - q,
        {
            out.push(learned[q].negate());
            q += 1;
        }
        proof {
            assert(out@[0] == root.spec_negate());
            assert forall|k2: int| 0 <= k2 < out@.len() implies (#[trigger] out@[k2]).var
                < self.n_lit() by {
                assert(out@[k2] == learned@[k2].spec_negate());
            }
            assert forall|k1: int, k2: int| 0 <= k1 < k2 < out@.len() implies (
            #[trigger] out@[k1]) != (#[trigger] out@[k2]) by {
                if out@[k1] == out@[k2] {
                    assert(learned@[k1] == learned@[k2]);
                }
            }
            assert forall|k2: int| 1 <= k2 < out@.len() implies self.cut_traced(
                (#[trigger] out@[k2]).spec_negate(),
            ) by {
                assert(out@[k2].spec_negate() == learned@[k2]);
            }
            assert forall|y: Lit|
                #[trigger] self.seed_must_join(clause_id as int, y) implies out@.contains(y) by {
                assert(learned@.contains(y.spec_negate()));
                let idx = choose|idx: int|
                    0 <= idx < learned@.len() && learned@[idx] == y.spec_negate();
                assert(out@[idx] == learned@[idx].spec_negate());
                assert(out@[idx] == y);
                assert(out@.contains(y));
            }
        }
        Some(Clause(out))
    }
}

} // verus!
