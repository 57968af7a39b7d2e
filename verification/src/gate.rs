//! Primitive boolean gates and their clause encodings.
//!
//! Each gate is mapped to the exact clause set enforcing full equivalence
//! between its output wire and the boolean function of its input wires; no
//! auxiliary variables are needed for these single-level gates.

use vstd::prelude::*;

use crate::logic::{clause_sat, cnf_sat, lit_seq};

verus! {

/// A primitive boolean gate over positive wire ids: inputs first, output
/// last.  Built once from a circuit cell, consumed into clauses.
pub enum Gate {
    And(u64, u64, u64),
    Nand(u64, u64, u64),
    Or(u64, u64, u64),
    Nor(u64, u64, u64),
    Not(u64, u64),
    Xor(u64, u64, u64),
    Xnor(u64, u64, u64),
}

/// A usable wire id: positive, and small enough that both polarities of
/// its literal are representable.
pub open spec fn wire_wf(w: u64) -> bool {
    1 <= w && w <= 0x7fff_ffff_ffff_ffff
}

/// The literal asserting that wire `w` carries the value `v`.
pub open spec fn lit_for(w: u64, v: bool) -> int {
    if v {
        w as int
    } else {
        -(w as int)
    }
}

/// The truth table of a gate on input values `va` and `vb` (`vb` is
/// ignored for NOT).
pub open spec fn gate_eval(g: Gate, va: bool, vb: bool) -> bool {
    match g {
        Gate::And(_, _, _) => va && vb,
        Gate::Nand(_, _, _) => !(va && vb),
        Gate::Or(_, _, _) => va || vb,
        Gate::Nor(_, _, _) => !(va || vb),
        Gate::Not(_, _) => !va,
        Gate::Xor(_, _, _) => va != vb,
        Gate::Xnor(_, _, _) => va == vb,
    }
}

/// The total assignment of a gate's wires for given truth values.
pub open spec fn gate_assignment(g: Gate, va: bool, vb: bool, vc: bool) -> Set<int> {
    match g {
        Gate::And(a, b, c) => set![lit_for(a, va), lit_for(b, vb), lit_for(c, vc)],
        Gate::Nand(a, b, c) => set![lit_for(a, va), lit_for(b, vb), lit_for(c, vc)],
        Gate::Or(a, b, c) => set![lit_for(a, va), lit_for(b, vb), lit_for(c, vc)],
        Gate::Nor(a, b, c) => set![lit_for(a, va), lit_for(b, vb), lit_for(c, vc)],
        Gate::Not(a, c) => set![lit_for(a, va), lit_for(c, vc)],
        Gate::Xor(a, b, c) => set![lit_for(a, va), lit_for(b, vb), lit_for(c, vc)],
        Gate::Xnor(a, b, c) => set![lit_for(a, va), lit_for(b, vb), lit_for(c, vc)],
    }
}

/// The exact clause set of each gate kind: three clauses for AND, NAND,
/// OR and NOR, two for NOT, four for XOR and XNOR.
pub open spec fn gate_clauses(g: Gate) -> Seq<Seq<int>> {
    match g {
        Gate::And(a, b, c) => seq![
            seq![-(a as int), -(b as int), c as int],
            seq![a as int, -(c as int)],
            seq![b as int, -(c as int)],
        ],
        Gate::Nand(a, b, c) => seq![
            seq![-(a as int), -(b as int), -(c as int)],
            seq![a as int, c as int],
            seq![b as int, c as int],
        ],
        Gate::Or(a, b, c) => seq![
            seq![a as int, b as int, -(c as int)],
            seq![-(a as int), c as int],
            seq![-(b as int), c as int],
        ],
        Gate::Nor(a, b, c) => seq![
            seq![a as int, b as int, c as int],
            seq![-(a as int), -(c as int)],
            seq![-(b as int), -(c as int)],
        ],
        Gate::Not(a, c) => seq![
            seq![-(a as int), -(c as int)],
            seq![a as int, c as int],
        ],
        Gate::Xor(a, b, c) => seq![
            seq![-(a as int), -(b as int), -(c as int)],
            seq![a as int, b as int, -(c as int)],
            seq![a as int, -(b as int), c as int],
            seq![-(a as int), b as int, c as int],
        ],
        Gate::Xnor(a, b, c) => seq![
            seq![-(a as int), -(b as int), c as int],
            seq![a as int, b as int, c as int],
            seq![a as int, -(b as int), -(c as int)],
            seq![-(a as int), b as int, -(c as int)],
        ],
    }
}

impl Gate {
    /// Every wire id of this gate is usable.
    pub open spec fn wires_wf(&self) -> bool {
        match *self {
            Gate::And(a, b, c) => wire_wf(a) && wire_wf(b) && wire_wf(c),
            Gate::Nand(a, b, c) => wire_wf(a) && wire_wf(b) && wire_wf(c),
            Gate::Or(a, b, c) => wire_wf(a) && wire_wf(b) && wire_wf(c),
            Gate::Nor(a, b, c) => wire_wf(a) && wire_wf(b) && wire_wf(c),
            Gate::Not(a, c) => wire_wf(a) && wire_wf(c),
            Gate::Xor(a, b, c) => wire_wf(a) && wire_wf(b) && wire_wf(c),
            Gate::Xnor(a, b, c) => wire_wf(a) && wire_wf(b) && wire_wf(c),
        }
    }

    /// This gate's wires are pairwise distinct.
    pub open spec fn wires_distinct(&self) -> bool {
        match *self {
            Gate::And(a, b, c) => a != b && a != c && b != c,
            Gate::Nand(a, b, c) => a != b && a != c && b != c,
            Gate::Or(a, b, c) => a != b && a != c && b != c,
            Gate::Nor(a, b, c) => a != b && a != c && b != c,
            Gate::Not(a, c) => a != c,
            Gate::Xor(a, b, c) => a != b && a != c && b != c,
            Gate::Xnor(a, b, c) => a != b && a != c && b != c,
        }
    }

    /// Encodes this gate as its exact clause set.  Deterministic, no side
    /// effects, no new variables.
    pub fn to_cnf_clauses(&self) -> (r: Vec<Vec<i64>>)
        requires
            self.wires_wf(),
        ensures
            r@.map_values(|c: Vec<i64>| lit_seq(c@)) == gate_clauses(*self),
    {
        match *self {
            Gate::And(a, b, c) => {
                let (x, y, z) = (a as i64, b as i64, c as i64);
                gather3(clause3(-x, -y, z), clause2(x, -z), clause2(y, -z))
            },
            Gate::Nand(a, b, c) => {
                let (x, y, z) = (a as i64, b as i64, c as i64);
                gather3(clause3(-x, -y, -z), clause2(x, z), clause2(y, z))
            },
            Gate::Or(a, b, c) => {
                let (x, y, z) = (a as i64, b as i64, c as i64);
                gather3(clause3(x, y, -z), clause2(-x, z), clause2(-y, z))
            },
            Gate::Nor(a, b, c) => {
                let (x, y, z) = (a as i64, b as i64, c as i64);
                gather3(clause3(x, y, z), clause2(-x, -z), clause2(-y, -z))
            },
            Gate::Not(a, c) => {
                let (x, z) = (a as i64, c as i64);
                gather2(clause2(-x, -z), clause2(x, z))
            },
            Gate::Xor(a, b, c) => {
                let (x, y, z) = (a as i64, b as i64, c as i64);
                gather4(clause3(-x, -y, -z), clause3(x, y, -z), clause3(x, -y, z), clause3(-x, y, z))
            },
            Gate::Xnor(a, b, c) => {
                let (x, y, z) = (a as i64, b as i64, c as i64);
                gather4(clause3(-x, -y, z), clause3(x, y, z), clause3(x, -y, -z), clause3(-x, y, -z))
            },
        }
    }
}

fn clause2(x: i64, y: i64) -> (r: Vec<i64>)
    ensures
        lit_seq(r@) == seq![x as int, y as int],
{
    let mut r: Vec<i64> = Vec::new();
    r.push(x);
    r.push(y);
    proof {
        assert(lit_seq(r@) =~= seq![x as int, y as int]);
    }
    r
}

fn clause3(x: i64, y: i64, z: i64) -> (r: Vec<i64>)
    ensures
        lit_seq(r@) == seq![x as int, y as int, z as int],
{
    let mut r: Vec<i64> = Vec::new();
    r.push(x);
    r.push(y);
    r.push(z);
    proof {
        assert(lit_seq(r@) =~= seq![x as int, y as int, z as int]);
    }
    r
}

fn gather2(c0: Vec<i64>, c1: Vec<i64>) -> (r: Vec<Vec<i64>>)
    ensures
        r@.map_values(|c: Vec<i64>| lit_seq(c@)) == seq![lit_seq(c0@), lit_seq(c1@)],
{
    let ghost v0 = c0@;
    let ghost v1 = c1@;
    let mut r: Vec<Vec<i64>> = Vec::new();
    r.push(c0);
    r.push(c1);
    proof {
        assert(r@.map_values(|c: Vec<i64>| lit_seq(c@)) =~= seq![lit_seq(v0), lit_seq(v1)]);
    }
    r
}

fn gather3(c0: Vec<i64>, c1: Vec<i64>, c2: Vec<i64>) -> (r: Vec<Vec<i64>>)
    ensures
        r@.map_values(|c: Vec<i64>| lit_seq(c@)) == seq![lit_seq(c0@), lit_seq(c1@), lit_seq(c2@)],
{
    let ghost v0 = c0@;
    let ghost v1 = c1@;
    let ghost v2 = c2@;
    let mut r: Vec<Vec<i64>> = Vec::new();
    r.push(c0);
    r.push(c1);
    r.push(c2);
    proof {
        assert(r@.map_values(|c: Vec<i64>| lit_seq(c@)) =~= seq![
            lit_seq(v0),
            lit_seq(v1),
            lit_seq(v2),
        ]);
    }
    r
}

fn gather4(c0: Vec<i64>, c1: Vec<i64>, c2: Vec<i64>, c3: Vec<i64>) -> (r: Vec<Vec<i64>>)
    ensures
        r@.map_values(|c: Vec<i64>| lit_seq(c@)) == seq![
            lit_seq(c0@),
            lit_seq(c1@),
            lit_seq(c2@),
            lit_seq(c3@),
        ],
{
    let ghost v0 = c0@;
    let ghost v1 = c1@;
    let ghost v2 = c2@;
    let ghost v3 = c3@;
    let mut r: Vec<Vec<i64>> = Vec::new();
    r.push(c0);
    r.push(c1);
    r.push(c2);
    r.push(c3);
    proof {
        assert(r@.map_values(|c: Vec<i64>| lit_seq(c@)) =~= seq![
            lit_seq(v0),
            lit_seq(v1),
            lit_seq(v2),
            lit_seq(v3),
        ]);
    }
    r
}

proof fn lemma_clause_sat_iff2(m: Set<int>, c: Seq<int>)
    requires
        c.len() == 2,
    ensures
        clause_sat(m, c) <==> (m.contains(c[0]) || m.contains(c[1])),
{
    if clause_sat(m, c) {
        let j = choose|j: int| 0 <= j < c.len() && m.contains(#[trigger] c[j]);
        assert(j == 0 || j == 1);
    }
}

proof fn lemma_clause_sat_iff3(m: Set<int>, c: Seq<int>)
    requires
        c.len() == 3,
    ensures
        clause_sat(m, c) <==> (m.contains(c[0]) || m.contains(c[1]) || m.contains(c[2])),
{
    if clause_sat(m, c) {
        let j = choose|j: int| 0 <= j < c.len() && m.contains(#[trigger] c[j]);
        assert(j == 0 || j == 1 || j == 2);
    }
}

proof fn lemma_cnf_sat_iff2(m: Set<int>, f: Seq<Seq<int>>)
    requires
        f.len() == 2,
    ensures
        cnf_sat(m, f) <==> (clause_sat(m, f[0]) && clause_sat(m, f[1])),
{
    if clause_sat(m, f[0]) && clause_sat(m, f[1]) {
        assert forall|i: int| 0 <= i < f.len() implies clause_sat(m, #[trigger] f[i]) by {
            assert(i == 0 || i == 1);
        }
    }
}

proof fn lemma_cnf_sat_iff3(m: Set<int>, f: Seq<Seq<int>>)
    requires
        f.len() == 3,
    ensures
        cnf_sat(m, f) <==> (clause_sat(m, f[0]) && clause_sat(m, f[1]) && clause_sat(m, f[2])),
{
    if clause_sat(m, f[0]) && clause_sat(m, f[1]) && clause_sat(m, f[2]) {
        assert forall|i: int| 0 <= i < f.len() implies clause_sat(m, #[trigger] f[i]) by {
            assert(i == 0 || i == 1 || i == 2);
        }
    }
}

proof fn lemma_cnf_sat_iff4(m: Set<int>, f: Seq<Seq<int>>)
    requires
        f.len() == 4,
    ensures
        cnf_sat(m, f) <==> (clause_sat(m, f[0]) && clause_sat(m, f[1]) && clause_sat(m, f[2])
            && clause_sat(m, f[3])),
{
    if clause_sat(m, f[0]) && clause_sat(m, f[1]) && clause_sat(m, f[2]) && clause_sat(m, f[3]) {
        assert forall|i: int| 0 <= i < f.len() implies clause_sat(m, #[trigger] f[i]) by {
            assert(i == 0 || i == 1 || i == 2 || i == 3);
        }
    }
}

/// A gate's encoding matches its truth table exactly: the total
/// assignment of a gate's wires satisfies its clause set precisely when
/// the output value is that gate's function of the input values.  In
/// particular, with the inputs pinned, the correct output value is forced
/// and every other output value is unsatisfiable.
pub proof fn lemma_gate_clauses_exact(g: Gate, va: bool, vb: bool, vc: bool)
    requires
        g.wires_wf(),
        g.wires_distinct(),
    ensures
        cnf_sat(gate_assignment(g, va, vb, vc), gate_clauses(g)) <==> (vc == gate_eval(g, va, vb)),
{
    let m = gate_assignment(g, va, vb, vc);
    let cs = gate_clauses(g);
    match g {
        Gate::And(_, _, _) => {
            lemma_cnf_sat_iff3(m, cs);
            lemma_clause_sat_iff3(m, cs[0]);
            lemma_clause_sat_iff2(m, cs[1]);
            lemma_clause_sat_iff2(m, cs[2]);
        },
        Gate::Nand(_, _, _) => {
            lemma_cnf_sat_iff3(m, cs);
            lemma_clause_sat_iff3(m, cs[0]);
            lemma_clause_sat_iff2(m, cs[1]);
            lemma_clause_sat_iff2(m, cs[2]);
        },
        Gate::Or(_, _, _) => {
            lemma_cnf_sat_iff3(m, cs);
            lemma_clause_sat_iff3(m, cs[0]);
            lemma_clause_sat_iff2(m, cs[1]);
            lemma_clause_sat_iff2(m, cs[2]);
        },
        Gate::Nor(_, _, _) => {
            lemma_cnf_sat_iff3(m, cs);
            lemma_clause_sat_iff3(m, cs[0]);
            lemma_clause_sat_iff2(m, cs[1]);
            lemma_clause_sat_iff2(m, cs[2]);
        },
        Gate::Not(_, _) => {
            lemma_cnf_sat_iff2(m, cs);
            lemma_clause_sat_iff2(m, cs[0]);
            lemma_clause_sat_iff2(m, cs[1]);
        },
        Gate::Xor(_, _, _) => {
            lemma_cnf_sat_iff4(m, cs);
            lemma_clause_sat_iff3(m, cs[0]);
            lemma_clause_sat_iff3(m, cs[1]);
            lemma_clause_sat_iff3(m, cs[2]);
            lemma_clause_sat_iff3(m, cs[3]);
        },
        Gate::Xnor(_, _, _) => {
            lemma_cnf_sat_iff4(m, cs);
            lemma_clause_sat_iff3(m, cs[0]);
            lemma_clause_sat_iff3(m, cs[1]);
            lemma_clause_sat_iff3(m, cs[2]);
            lemma_clause_sat_iff3(m, cs[3]);
        },
    }
}

} // verus!
