// Exercises the two formula engines directly: propagation, unit
// propagation, and the implication graph plumbing.

use sat_engine::{cfcl, Clauses, Cnf, CnfGraph, FakeHashSet, Lit, SatError, Strategy};

fn lit(x: i32) -> Lit {
    Lit::from_dimacs(x).unwrap()
}

fn load(v: &Vec<Vec<i32>>) -> Clauses {
    Clauses::from_ints(v).unwrap()
}

#[test]
fn cnf_do_propagation() {
    let clauses = vec![vec![1, -2, -3], vec![-1, 2, -3], vec![-1, -2, 3]];
    let clauses = load(&clauses);
    let mut cnf = Cnf::from_clauses(&clauses);
    cnf.propagation(lit(1)).unwrap();
    println!("{:?}", cnf);
    cnf.propagation(lit(2)).unwrap();
    println!("{:?}", cnf);
    cnf.unit_propagation(2).unwrap();
    println!("{:?}", cnf);
    assert_eq!(cnf.num_clause(), 0);
}

#[test]
fn cnf_do_unit_propagation() {
    let clauses = vec![
        vec![1, -2, -3],
        vec![-1, 2, -3],
        vec![-1, -2, 3],
        vec![1],
        vec![2],
    ];
    let clauses = load(&clauses);
    let mut cnf = Cnf::from_clauses(&clauses);
    println!("{:?}", cnf);
    let lits = cnf.unit_propagations();
    println!("{:?}", cnf);
    println!("{:?}", lits);
    let lits = lits.unwrap();
    // units 1 and 2 force 3; everything is propagated
    assert_eq!(lits.len(), 3);
    assert_eq!(cnf.num_clause(), 0);
}

#[test]
fn cnf_graph_do_propagation() {
    let clauses = vec![vec![1, -2, -3], vec![-1, 2, -3], vec![-1, -2, 3]];
    let clauses = load(&clauses);
    let mut cnf = CnfGraph::from_clauses(&clauses);
    cnf.propagation(lit(1)).unwrap();
    println!("{:?}", cnf.graph);
    cnf.propagation(lit(2)).unwrap();
    println!("{:?}", cnf.graph);
    cnf.unit_propagation(2).unwrap();
    println!("{:?}", cnf.graph);
    assert_eq!(cnf.num_clause(), 0);
}

#[test]
fn cnf_graph_do_unit_propagation() {
    let clauses = vec![
        vec![1, -2, -3],
        vec![-1, 2, -3],
        vec![-1, -2, 3],
        vec![1],
        vec![2],
    ];
    let clauses = load(&clauses);
    let mut cnf = CnfGraph::from_clauses(&clauses);
    println!("{:?}", cnf);
    let lits = cnf.unit_propagations();
    println!("{:?}", cnf);
    println!("{:?}", lits);
    assert_eq!(lits.unwrap().len(), 3);
}

#[test]
fn test_graph() {
    let mut graph = petgraph::graph::DiGraph::<Lit, usize>::new();
    let node1 = graph.add_node(lit(1));
    let node2 = graph.add_node(lit(2));
    let node3 = graph.add_node(lit(3));
    graph.add_edge(node1, node2, 1);
    graph.add_edge(node3, node2, 1);

    let parents = graph.neighbors_directed(node2, petgraph::Direction::Incoming);
    let mut seen = 0;
    for parent in parents {
        println!("parent: {:?}", parent);
        seen += 1;
    }
    assert_eq!(seen, 2);
}

#[test]
fn rejects_zero_literal() {
    assert_eq!(Lit::from_dimacs(0), Err(SatError::InvalidLiteral));
    let raw = vec![vec![1, -2], vec![0]];
    assert!(matches!(Clauses::from_ints(&raw), Err(SatError::InvalidLiteral)));
}

#[test]
fn literal_model() {
    let l = lit(-4);
    assert_eq!(l.index(), 3);
    assert!(l.is_negative());
    assert!(!l.is_positive());
    assert_eq!(l.code(), 7);
    assert_eq!(l.negate(), lit(4));
    assert_eq!(l.negate().negate(), l);
}

#[test]
fn loader_counts_variables() {
    let raw = vec![vec![1, -3], vec![3, 3, -1]];
    let cs = Clauses::from_ints(&raw).unwrap();
    // distinct variables 1 and 3; the largest identifier is 3
    assert_eq!(cs.1, 2);
    assert_eq!(cs.2, 3);
}

#[test]
fn propagation_is_idempotent() {
    let raw = vec![vec![1, -2, -3], vec![-1, 2, -3], vec![-1, -2, 3], vec![2, 3]];
    let mut once = Cnf::from_clauses(&load(&raw));
    let mut twice = Cnf::from_clauses(&load(&raw));
    once.propagation(lit(1)).unwrap();
    twice.propagation(lit(1)).unwrap();
    twice.propagation(lit(1)).unwrap();
    assert_eq!(once.num_clause(), twice.num_clause());
    assert_eq!(
        once.next_guess(Strategy::Direct),
        twice.next_guess(Strategy::Direct)
    );
}

#[test]
fn propagating_complement_after_literal_is_noop() {
    let raw = vec![vec![1, -2, -3], vec![-1, 2, -3], vec![2, 3]];
    let mut cnf = Cnf::from_clauses(&load(&raw));
    cnf.propagation(lit(2)).unwrap();
    let before = cnf.num_clause();
    cnf.propagation(lit(-2)).unwrap();
    assert_eq!(cnf.num_clause(), before);
}

#[test]
fn random_guess_occurs_in_formula() {
    let raw = vec![vec![1]];
    let cnf = Cnf::from_clauses(&load(&raw));
    let g = cnf.next_guess(Strategy::Random).unwrap();
    assert_eq!(g.index(), 0);
}

#[test]
fn learned_clause_contains_negated_first_decision() {
    let raw = vec![vec![-1, 2], vec![-1, -2]];
    let clauses = load(&raw);
    let mut cnf = CnfGraph::from_clauses(&clauses);
    let root = lit(1);
    cnf.make_guess(root);
    cnf.propagation(root).unwrap();
    let cid = cnf.unit_propagations().unwrap_err();
    // the conflicting clause survives: still active, emptied, with its
    // original two literals recoverable for the analysis
    assert!(cnf.db.slots[cid].active);
    assert_eq!(cnf.db.slots[cid].lits.len(), 0);
    let retained = cnf.db.slots[cid].lits.all();
    assert_eq!(retained.len(), 2);
    assert!(retained.contains(&lit(-1)));
    let learned = cnf.learn_from_conflict(cid).unwrap();
    // no later decision exists, so the cut is the first decision alone
    assert_eq!(learned.inner().len(), 1);
    assert_eq!(learned.inner()[0], lit(-1));
}

#[test]
fn cfcl_surfaces_learned_clauses() {
    let clauses = vec![
        vec![-2, -3, -4, 5],
        vec![-1, -5, 6],
        vec![-5, 7],
        vec![-1, -6, -7],
        vec![-1, -2, 5],
        vec![-1, -3, 5],
        vec![-1, -4, 5],
        vec![1, 4],
        vec![-1, 2, 3, 4, 5, -6],
    ];
    let clauses = load(&clauses);
    let mut cnf = CnfGraph::from_clauses(&clauses);
    let (solution, learnt) = cfcl(&mut cnf).unwrap();
    assert!(solution.is_solved());
    // every learned clause speaks only of declared variables
    for c in &learnt {
        for l in c.inner() {
            assert!(l.index() < 7);
        }
    }
}

#[test]
fn literal_set_remembers_removals() {
    let items = vec![lit(1), lit(-2), lit(1), lit(3)];
    let mut s = FakeHashSet::from_set(&items);
    assert_eq!(s.len(), 3);
    assert!(s.contains(lit(-2)));
    s.remove(lit(-2));
    assert_eq!(s.len(), 2);
    assert!(!s.contains(lit(-2)));
    assert!(!s.is_empty());
    // iter sees only the live literals, all sees the removed one too
    assert!(!s.iter().contains(&lit(-2)));
    assert!(s.all().contains(&lit(-2)));
    s.insert(lit(-2));
    assert_eq!(s.len(), 3);
    assert!(s.contains(lit(-2)));
    let empty = FakeHashSet::new();
    assert!(empty.is_empty());
}
