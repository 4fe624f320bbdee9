// The two search drivers on concrete formulas: satisfiable instances,
// unsatisfiable instances, soundness and totality of the returned
// assignments, and agreement with brute force on small formulas.

use sat_engine::{cfcl, dpll, Clauses, Cnf, CnfGraph, PartialSolution};

fn load(v: &Vec<Vec<i32>>) -> Clauses {
    Clauses::from_ints(v).unwrap()
}

fn check_assignment(raw: &Vec<Vec<i32>>, sol: &PartialSolution) {
    for clause in raw {
        let mut sat = false;
        for &x in clause {
            let var = (x.unsigned_abs() - 1) as usize;
            let want = x > 0;
            if sol.solution[var] == Some(want) {
                sat = true;
            }
        }
        assert!(sat, "clause {:?} not satisfied", clause);
    }
}

#[test]
fn dpll_test_ok() {
    let clauses = vec![
        vec![1, -2, -3],
        vec![-1, 2, -3],
        vec![-1, -2, 3],
        vec![1],
        vec![2],
    ];
    let parsed = load(&clauses);
    let mut cnf = Cnf::from_clauses(&parsed);
    println!("{:?}", cnf);
    let solution = dpll(&mut cnf).unwrap();
    println!("{}", solution.is_solved());
    println!("{:?}", solution.true_lits());
    println!("{:?}", cnf);
    assert!(solution.is_solved());
    // variables 1, 2 and 3 are all forced true
    let mut t = solution.true_lits();
    t.sort();
    assert_eq!(t, vec![0, 1, 2]);
    check_assignment(&clauses, &solution);
}

#[test]
fn test_conflict() {
    let clauses = vec![
        vec![-2, -3, -4, 5],
        vec![-1, -5, 6],
        vec![-5, 7],
        vec![-1, -6, -7],
        vec![-1, -2, 5],
        vec![-1, -3, 5],
        vec![-1, -4, 5],
        vec![1, 4],
        vec![-1, 2, 3, 4, 5, -6],
    ];
    let parsed = load(&clauses);
    let mut cnf = Cnf::from_clauses(&parsed);
    let solution = dpll(&mut cnf).unwrap();
    println!("{}", solution.is_solved());
    println!("{:?}", solution.true_lits());
    println!("{:?}", solution.false_lits());
    assert!(solution.is_solved());
    check_assignment(&clauses, &solution);
}

#[test]
fn cfcl_test_ok() {
    let clauses = vec![
        vec![1, -2, -3],
        vec![-1, 2, -3],
        vec![-1, -2, 3],
        vec![1],
        vec![2],
    ];
    let parsed = load(&clauses);
    let mut cnf = CnfGraph::from_clauses(&parsed);
    println!("{:?}", cnf);
    let (solution, _learnt) = cfcl(&mut cnf).unwrap();
    println!("{}", solution.is_solved());
    println!("{:?}", solution.true_lits());
    assert!(solution.is_solved());
    let mut t = solution.true_lits();
    t.sort();
    assert_eq!(t, vec![0, 1, 2]);
    check_assignment(&clauses, &solution);
}

#[test]
fn test_learn() {
    let clauses = vec![
        vec![-2, -3, -4, 5],
        vec![-1, -5, 6],
        vec![-5, 7],
        vec![-1, -6, -7],
        vec![-1, -2, 5],
        vec![-1, -3, 5],
        vec![-1, -4, 5],
        vec![1, 4],
        vec![-1, 2, 3, 4, 5, -6],
    ];
    let parsed = load(&clauses);
    let mut cnf = CnfGraph::from_clauses(&parsed);
    let r = cfcl(&mut cnf);
    let (solution, _learnt) = r.unwrap();
    check_assignment(&clauses, &solution);
}

#[test]
fn unsat_two_clauses() {
    let clauses = vec![vec![1], vec![-1]];
    let parsed = load(&clauses);
    let mut cnf = Cnf::from_clauses(&parsed);
    assert!(dpll(&mut cnf).is_err());
    let parsed = load(&clauses);
    let mut graph = CnfGraph::from_clauses(&parsed);
    assert!(cfcl(&mut graph).is_err());
}

#[test]
fn empty_clause_is_unsat() {
    let clauses: Vec<Vec<i32>> = vec![vec![]];
    let parsed = load(&clauses);
    let mut cnf = Cnf::from_clauses(&parsed);
    assert!(dpll(&mut cnf).is_err());
}

#[test]
fn empty_formula_is_sat() {
    let clauses: Vec<Vec<i32>> = vec![];
    let parsed = load(&clauses);
    let mut cnf = Cnf::from_clauses(&parsed);
    let solution = dpll(&mut cnf).unwrap();
    assert!(solution.is_solved());
}

fn brute_force_sat(raw: &Vec<Vec<i32>>, n_vars: usize) -> bool {
    for mask in 0u32..(1u32 << n_vars) {
        let mut all = true;
        for clause in raw {
            let mut sat = false;
            for &x in clause {
                let var = (x.unsigned_abs() - 1) as usize;
                let val = mask & (1 << var) != 0;
                if val == (x > 0) {
                    sat = true;
                }
            }
            if !sat {
                all = false;
                break;
            }
        }
        if all {
            return true;
        }
    }
    false
}

#[test]
fn agrees_with_brute_force() {
    let cases: Vec<(Vec<Vec<i32>>, usize)> = vec![
        (vec![vec![1, 2], vec![-1, 2], vec![1, -2], vec![-1, -2]], 2),
        (vec![vec![1, 2], vec![-1, 2], vec![1, -2]], 2),
        (vec![vec![1, 2, 3], vec![-1, -2], vec![-2, -3], vec![-1, -3]], 3),
        (vec![vec![1], vec![-1, 2], vec![-2, 3], vec![-3, -1]], 3),
        (vec![vec![1, -2], vec![2, -3], vec![3, -1], vec![1, 2, 3]], 3),
        (
            vec![
                vec![1, 2],
                vec![-1, 3],
                vec![-2, 3],
                vec![-3, 4],
                vec![-4, -1],
                vec![-4, -2],
            ],
            4,
        ),
        (vec![vec![2, -2], vec![1]], 2),
    ];
    for (raw, n_vars) in cases {
        let expect = brute_force_sat(&raw, n_vars);
        let parsed = load(&raw);
        let mut cnf = Cnf::from_clauses(&parsed);
        let got = dpll(&mut cnf);
        assert_eq!(got.is_ok(), expect, "dpll differs on {:?}", raw);
        if let Ok(sol) = &got {
            check_assignment(&raw, sol);
            assert!(sol.is_solved());
        }
        let parsed = load(&raw);
        let mut graph = CnfGraph::from_clauses(&parsed);
        let got = cfcl(&mut graph);
        assert_eq!(got.is_ok(), expect, "cfcl differs on {:?}", raw);
        if let Ok((sol, _)) = &got {
            check_assignment(&raw, sol);
            assert!(sol.is_solved());
        }
    }
}

#[test]
fn assignment_tracker() {
    let mut sol = PartialSolution::new(3);
    assert!(!sol.is_solved());
    sol.assign_lit(sat_engine::Lit::from_dimacs(2).unwrap());
    sol.assign_lit(sat_engine::Lit::from_dimacs(-3).unwrap());
    assert_eq!(sol.true_lits(), vec![1]);
    assert_eq!(sol.false_lits(), vec![2]);
    assert!(!sol.is_solved());
    sol.assign_lit(sat_engine::Lit::from_dimacs(1).unwrap());
    assert!(sol.is_solved());
}
