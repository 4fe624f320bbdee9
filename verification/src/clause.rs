//! Raw integer clauses and their literal form.
//!
//! The loader turns a list of clause lists — each clause a list of nonzero
//! signed integers, sign for polarity, magnitude for a 1-based variable
//! identifier — into literal clauses, and computes the number of distinct
//! variables referenced and the largest variable identifier.

use vstd::prelude::*;

use crate::lit::{spec_lit_of_dimacs, Lit, SatError};

verus! {

/// A clause: a list of literals.
#[derive(Debug)]
pub struct Clause(pub Vec<Lit>);

/// Parsed clauses together with the number of distinct variables
/// referenced and the largest variable magnitude.
#[derive(Debug)]
pub struct Clauses(pub Vec<Clause>, pub usize, pub usize);

/// The literal form of a raw clause.
pub open spec fn clause_lits(v: Seq<i32>) -> Seq<Lit> {
    v.map_values(|x: i32| spec_lit_of_dimacs(x as int))
}

/// The magnitude of a signed integer.
pub open spec fn mag_of(x: int) -> int {
    if x >= 0 {
        x
    } else {
        -x
    }
}

/// The magnitude `m` appears somewhere in the raw clause list.
pub open spec fn mag_in(v: Seq<Vec<i32>>, m: int) -> bool {
    exists|i: int, j: int|
        0 <= i < v.len() && 0 <= j < v[i]@.len() && mag_of((#[trigger] v[i]@[j]) as int) == m
}

/// The distinct variable magnitudes referenced by the raw clause list.
pub open spec fn mag_set(v: Seq<Vec<i32>>) -> Set<int> {
    Set::new(|m: int| mag_in(v, m))
}

/// No zero literal appears in the raw clause list.
pub open spec fn all_nonzero(v: Seq<Vec<i32>>) -> bool {
    forall|i: int, j: int|
        0 <= i < v.len() && 0 <= j < v[i]@.len() ==> (#[trigger] v[i]@[j]) != 0
}

impl Clause {
    /// The literals of the clause.
    pub fn inner(&self) -> (r: &Vec<Lit>)
        ensures
            r@ == self.0@,
    {
        &self.0
    }

    /// Parses one raw clause; fails on a zero literal.
    pub fn from_ints(v: &Vec<i32>) -> (r: Result<Clause, SatError>)
        ensures
            r is Ok <==> (forall|j: int| 0 <= j < v@.len() ==> v@[j] != 0),
            r is Ok ==> r->Ok_0.0@ == clause_lits(v@),
            r is Err ==> r == Err::<Clause, SatError>(SatError::InvalidLiteral),
    {
        let mut lits: Vec<Lit> = Vec::new();
        let mut j: usize = 0;
        while j < v.len()
            invariant
                j <= v@.len(),
                forall|k: int| 0 <= k < j ==> v@[k] != 0,
                lits@ == clause_lits(v@.take(j as int)),
            decreases v@.len() - j,
        {
            let x = v[j];
            match Lit::from_dimacs(x) {
                Ok(l) => {
                    lits.push(l);
                    proof {
                        assert(clause_lits(v@.take(j + 1int)) =~= clause_lits(
                            v@.take(j as int),
                        ).push(spec_lit_of_dimacs(x as int)));
                    }
                },
                Err(e) => {
                    return Err(e);
                },
            }
            j += 1;
        }
        proof {
            assert(v@.take(v@.len() as int) =~= v@);
        }
        Ok(Clause(lits))
    }
}

/// The magnitude of a raw literal, as a machine integer.
fn mag32(x: i32) -> (r: u32)
    ensures
        r as int == mag_of(x as int),
{
    if x >= 0 {
        x as u32
    } else {
        (-(x as i64)) as u32
    }
}

/// The magnitude `m` appears somewhere in the raw clause list.
fn mag_appears(v: &Vec<Vec<i32>>, m: u32) -> (r: bool)
    ensures
        r == mag_in(v@, m as int),
{
    let mut i: usize = 0;
    while i < v.len()
        invariant
            i <= v@.len(),
            forall|i2: int, j2: int|
                0 <= i2 < i && 0 <= j2 < v@[i2]@.len() ==> mag_of(
                    (#[trigger] v@[i2]@[j2]) as int,
                ) != m as int,
        decreases v@.len() - i,
    {
        let row = &v[i];
        let mut j: usize = 0;
        while j < row.len()
            invariant
                j <= row@.len(),
                row@ == v@[i as int]@,
                i < v@.len(),
                forall|j2: int| 0 <= j2 < j ==> mag_of(v@[i as int]@[j2] as int) != m as int,
            decreases row@.len() - j,
        {
            if mag32(row[j]) == m {
                proof {
                    assert(mag_of(v@[i as int]@[j as int] as int) == m as int);
                }
                return true;
            }
            j += 1;
        }
        i += 1;
    }
    proof {
        if mag_in(v@, m as int) {
            let (i2, j2) = choose|i2: int, j2: int|
                0 <= i2 < v@.len() && 0 <= j2 < v@[i2]@.len() && mag_of(
                    (#[trigger] v@[i2]@[j2]) as int,
                ) == m as int;
            assert(false);
        }
    }
    false
}

impl Clauses {
    /// Parses a raw clause list, computing the distinct-variable count and
    /// the largest variable magnitude along the way. The only validation
    /// is the rejection of zero literals.
    pub fn from_ints(v: &Vec<Vec<i32>>) -> (r: Result<Clauses, SatError>)
        ensures
            r is Ok <==> all_nonzero(v@),
            r is Err ==> r == Err::<Clauses, SatError>(SatError::InvalidLiteral),
            r is Ok ==> {
                let cs = r->Ok_0;
                &&& cs.0@.len() == v@.len()
                &&& forall|i: int|
                    0 <= i < v@.len() ==> (#[trigger] cs.0@[i]).0@ == clause_lits(v@[i]@)
                &&& forall|i: int, j: int|
                    0 <= i < v@.len() && 0 <= j < v@[i]@.len() ==> mag_of(
                        (#[trigger] v@[i]@[j]) as int,
                    ) <= cs.2
                &&& (cs.2 > 0 ==> mag_in(v@, cs.2 as int))
                &&& cs.1 == mag_set(v@).len()
                &&& cs.1 <= cs.2
            },
    {
        // first pass: reject zeros and find the largest magnitude
        let mut max: u32 = 0;
        let mut i: usize = 0;
        while i < v.len()
            invariant
                i <= v@.len(),
                forall|i2: int, j2: int|
                    0 <= i2 < i && 0 <= j2 < v@[i2]@.len() ==> (#[trigger] v@[i2]@[j2]) != 0
                        && mag_of(v@[i2]@[j2] as int) <= max as int,
                max as int > 0 ==> mag_in(v@, max as int),
                max as int <= 0x8000_0000,
            decreases v@.len() - i,
        {
            let row = &v[i];
            let mut j: usize = 0;
            while j < row.len()
                invariant
                    j <= row@.len(),
                    row@ == v@[i as int]@,
                    i < v@.len(),
                    forall|i2: int, j2: int|
                        0 <= i2 < i && 0 <= j2 < v@[i2]@.len() ==> (#[trigger] v@[i2]@[j2]) != 0
                            && mag_of(v@[i2]@[j2] as int) <= max as int,
                    forall|j2: int|
                        0 <= j2 < j ==> v@[i as int]@[j2] != 0 && mag_of(v@[i as int]@[j2] as int)
                            <= max as int,
                    max as int > 0 ==> mag_in(v@, max as int),
                    max as int <= 0x8000_0000,
                decreases row@.len() - j,
            {
                let x = row[j];
                if x == 0 {
                    return Err(SatError::InvalidLiteral);
                }
                let m = mag32(x);
                if m > max {
                    max = m;
                    proof {
                        assert(mag_of(v@[i as int]@[j as int] as int) == max as int);
                    }
                }
                j += 1;
            }
            i += 1;
        }
        // second pass: count the distinct magnitudes
        let mut count: usize = 0;
        let ghost mut seen: Set<int> = Set::<int>::empty();
        let mut m: u32 = 1;
        proof {
            assert(seen =~= Set::new(|x: int| 1 <= x < 1 && mag_in(v@, x)));
        }
        while m <= max
            invariant
                1 <= m as int <= max as int + 1,
                seen == Set::new(|x: int| 1 <= x < m as int && mag_in(v@, x)),
                seen.finite(),
                count == seen.len(),
                count < m,
                max as int <= 0x8000_0000,
                forall|i2: int, j2: int|
                    0 <= i2 < v@.len() && 0 <= j2 < v@[i2]@.len() ==> (#[trigger] v@[i2]@[j2]) != 0
                        && mag_of(v@[i2]@[j2] as int) <= max as int,
            decreases max as int + 1 - m,
        {
            if mag_appears(v, m) {
                proof {
                    vstd::set::axiom_set_insert_len(seen, m as int);
                    assert(!seen.contains(m as int));
                    seen = seen.insert(m as int);
                    assert(seen =~= Set::new(|x: int| 1 <= x < m as int + 1 && mag_in(v@, x)));
                }
                count = count + 1;
            } else {
                proof {
                    assert(seen =~= Set::new(|x: int| 1 <= x < m as int + 1 && mag_in(v@, x)));
                }
            }
            m = m + 1;
        }
        proof {
            assert(seen =~= mag_set(v@)) by {
                assert forall|x: int| mag_in(v@, x) implies 1 <= x < m as int by {
                    let (i2, j2) = choose|i2: int, j2: int|
                        0 <= i2 < v@.len() && 0 <= j2 < v@[i2]@.len() && mag_of(
                            (#[trigger] v@[i2]@[j2]) as int,
                        ) == x;
                    assert(v@[i2]@[j2] != 0);
                }
            }
        }
        // third pass: parse the clauses
        let mut clauses: Vec<Clause> = Vec::new();
        let mut i2: usize = 0;
        while i2 < v.len()
            invariant
                i2 <= v@.len(),
                clauses@.len() == i2,
                forall|k: int| 0 <= k < i2 ==> (#[trigger] clauses@[k]).0@ == clause_lits(v@[k]@),
                all_nonzero(v@),
            decreases v@.len() - i2,
        {
            match Clause::from_ints(&v[i2]) {
                Ok(c) => {
                    clauses.push(c);
                },
                Err(_) => {
                    proof {
                        assert(false);
                    }
                },
            }
            i2 += 1;
        }
        Ok(Clauses(clauses, count, max as usize))
    }
}

} // verus!
