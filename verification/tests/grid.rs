// The worked reference input: the 729-variable encoding of a fully
// known, valid 9-by-9 digit-placement grid. One variable per cell and
// digit, with at-least-one and pairwise at-most-one clauses per cell,
// row, column and block, plus one unit clause per known cell. The solver
// must return exactly 81 true literals, one digit per cell, consistent
// with row, column and block uniqueness.

use sat_engine::{dpll, Clauses, Cnf};

fn var(r: usize, c: usize, d: usize) -> i32 {
    (r * 81 + c * 9 + d) as i32
}

fn grid_clauses(grid: &Vec<Vec<usize>>) -> Vec<Vec<i32>> {
    let mut clauses: Vec<Vec<i32>> = Vec::new();
    // each cell holds at least one digit, and at most one
    for r in 0..9 {
        for c in 0..9 {
            clauses.push((1..=9).map(|d| var(r, c, d)).collect());
            for d1 in 1..=9 {
                for d2 in (d1 + 1)..=9 {
                    clauses.push(vec![-var(r, c, d1), -var(r, c, d2)]);
                }
            }
        }
    }
    // each digit appears in every row, column and block, at most once
    for d in 1..=9 {
        for r in 0..9 {
            clauses.push((0..9).map(|c| var(r, c, d)).collect());
            for c1 in 0..9 {
                for c2 in (c1 + 1)..9 {
                    clauses.push(vec![-var(r, c1, d), -var(r, c2, d)]);
                }
            }
        }
        for c in 0..9 {
            clauses.push((0..9).map(|r| var(r, c, d)).collect());
            for r1 in 0..9 {
                for r2 in (r1 + 1)..9 {
                    clauses.push(vec![-var(r1, c, d), -var(r2, c, d)]);
                }
            }
        }
        for b in 0..9 {
            let cells: Vec<(usize, usize)> = (0..9)
                .map(|k| ((b / 3) * 3 + k / 3, (b % 3) * 3 + k % 3))
                .collect();
            clauses.push(cells.iter().map(|&(r, c)| var(r, c, d)).collect());
            for i in 0..9 {
                for j in (i + 1)..9 {
                    let (r1, c1) = cells[i];
                    let (r2, c2) = cells[j];
                    clauses.push(vec![-var(r1, c1, d), -var(r2, c2, d)]);
                }
            }
        }
    }
    // the known cells: all 81 of them
    for r in 0..9 {
        for c in 0..9 {
            clauses.push(vec![var(r, c, grid[r][c])]);
        }
    }
    clauses
}

#[test]
fn full_grid_propagates_to_a_unique_solution() {
    let grid: Vec<Vec<usize>> = (0..9)
        .map(|r| (0..9).map(|c| (r * 3 + r / 3 + c) % 9 + 1).collect())
        .collect();
    let raw = grid_clauses(&grid);
    let parsed = Clauses::from_ints(&raw).unwrap();
    assert_eq!(parsed.1, 729);
    assert_eq!(parsed.2, 729);
    let mut cnf = Cnf::from_clauses(&parsed);
    let solution = dpll(&mut cnf).unwrap();
    assert!(solution.is_solved());
    let trues = solution.true_lits();
    assert_eq!(trues.len(), 81);
    // decode: one digit per cell, matching the given grid
    let mut seen = vec![vec![0usize; 9]; 9];
    for &v in &trues {
        let id = v + 1;
        let r = (id - 1) / 81;
        let c = ((id - 1) % 81) / 9;
        let d = (id - 1) % 9 + 1;
        assert_eq!(seen[r][c], 0, "two digits in one cell");
        seen[r][c] = d;
    }
    for r in 0..9 {
        for c in 0..9 {
            assert_eq!(seen[r][c], grid[r][c]);
        }
    }
    // row, column and block uniqueness
    for r in 0..9 {
        let mut row: Vec<usize> = (0..9).map(|c| seen[r][c]).collect();
        row.sort();
        assert_eq!(row, (1..=9).collect::<Vec<usize>>());
    }
    for c in 0..9 {
        let mut col: Vec<usize> = (0..9).map(|r| seen[r][c]).collect();
        col.sort();
        assert_eq!(col, (1..=9).collect::<Vec<usize>>());
    }
    for b in 0..9 {
        let mut blk: Vec<usize> = (0..9)
            .map(|k| seen[(b / 3) * 3 + k / 3][(b % 3) * 3 + k % 3])
            .collect();
        blk.sort();
        assert_eq!(blk, (1..=9).collect::<Vec<usize>>());
    }
}
