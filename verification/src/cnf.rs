//! CNF formulas, assignments, and the DPLL engine.
//!
//! `Cnf` holds the clauses, `Model` the forced-literal assignment that a
//! solve produces, and `MaybeBits` the tri-state rendering of a group of
//! wires under a model.  `Cnf::dpll` is the solver: unit propagation and
//! pure-literal elimination to a fixpoint, then backtracking search on an
//! owned copy of the remaining formula per branch.

use vstd::prelude::*;
use vstd::string::StringSliceAdditionalSpecFns;

use crate::logic::{
    lit_wf, clause_wf, cnf_wf, consistent, clause_sat, cnf_sat, occurs, is_unit, has_unit, pure_in,
    has_pure, no_pure_before, has_empty_clause, total_lits, lit_seq, remove_lit, reduce_spec, dedup_first,
    lemma_push_contains, lemma_dedup_first, lemma_take_full, lemma_cnf_sat_monotone,
    lemma_reduce_wf, lemma_reduce_occurs, lemma_reduce_total, lemma_reduce_sound,
    lemma_reduce_complete, lemma_reduce_complete_pure, lemma_unit_forces,
};

verus! {

/// The tri-state value of one wire under a model: forced true, forced
/// false, or unconstrained.
pub open spec fn bit_value(m: Set<int>, w: int) -> Option<bool> {
    if m.contains(w) {
        Some(true)
    } else if m.contains(-w) {
        Some(false)
    } else {
        None
    }
}

/// The bytes accepted in a tri-state bit string.
pub open spec fn valid_bit_byte(b: u8) -> bool {
    b == 48 || b == 49 || b == 120
}

/// The tri-state value written by one byte of a bit string:
/// `'1'` is true, `'0'` is false, `'x'` is unknown.
pub open spec fn bit_of_byte(b: u8) -> Option<bool> {
    if b == 49 {
        Some(true)
    } else if b == 48 {
        Some(false)
    } else {
        None
    }
}

fn contains_lit(c: &Vec<i64>, l: i64) -> (b: bool)
    ensures
        b == lit_seq(c@).contains(l as int),
{
    let mut j: usize = 0;
    while j < c.len()
        invariant
            j <= c.len(),
            forall|k: int| 0 <= k < j ==> c@[k] != l,
        decreases c.len() - j,
    {
        if c[j] == l {
            proof {
                assert(lit_seq(c@)[j as int] == l as int);
            }
            return true;
        }
        j += 1;
    }
    proof {
        if lit_seq(c@).contains(l as int) {
            let k = choose|k: int| 0 <= k < lit_seq(c@).len() && lit_seq(c@)[k] == l as int;
            assert(c@[k] == l);
        }
    }
    false
}

fn remove_lit_exec(c: &Vec<i64>, y: i64) -> (r: Vec<i64>)
    ensures
        lit_seq(r@) == remove_lit(lit_seq(c@), y as int),
{
    let cv = Ghost(lit_seq(c@));
    let mut out: Vec<i64> = Vec::new();
    proof {
        assert(cv@.take(0) =~= Seq::<int>::empty());
        assert(lit_seq(out@) =~= Seq::<int>::empty());
    }
    let mut j: usize = 0;
    while j < c.len()
        invariant
            j <= c.len(),
            cv@ == lit_seq(c@),
            lit_seq(out@) == remove_lit(cv@.take(j as int), y as int),
        decreases c.len() - j,
    {
        let ghost pre = lit_seq(out@);
        if c[j] != y {
            out.push(c[j]);
            proof {
                assert(lit_seq(out@) =~= pre.push(c@[j as int] as int));
            }
        }
        proof {
            let jj = j as int;
            assert(cv@.take(jj + 1).drop_last() =~= cv@.take(jj));
            assert(cv@.take(jj + 1).last() == cv@[jj]);
            assert(cv@[jj] == c@[jj] as int);
        }
        j += 1;
    }
    proof {
        lemma_take_full(cv@);
    }
    out
}

/// A tri-state bit sequence: each position is true, false, or unknown.
#[derive(Debug, Clone, PartialEq, Eq, PartialOrd, Ord)]
pub struct MaybeBits {
    pub bits: Vec<Option<bool>>,
}

impl MaybeBits {
    /// Parses a bit string over the alphabet `{0, 1, x}`; any other byte
    /// is a parse error.
    pub fn from_text(s: &str) -> (r: Result<MaybeBits, String>)
        ensures
            match r {
                Ok(mb) => {
                    &&& forall|i: int|
                        0 <= i < s.spec_bytes().len() ==> valid_bit_byte(#[trigger] s.spec_bytes()[i])
                    &&& mb.bits@.len() == s.spec_bytes().len()
                    &&& forall|i: int|
                        0 <= i < s.spec_bytes().len() ==> mb.bits@[i] == bit_of_byte(
                            #[trigger] s.spec_bytes()[i],
                        )
                },
                Err(_) => exists|i: int|
                    0 <= i < s.spec_bytes().len() && !valid_bit_byte(#[trigger] s.spec_bytes()[i]),
            },
    {
        let bytes = s.as_bytes();
        let mut out: Vec<Option<bool>> = Vec::new();
        let mut i: usize = 0;
        while i < bytes.len()
            invariant
                i <= bytes.len(),
                bytes@ == s.spec_bytes(),
                out@.len() == i,
                forall|k: int| 0 <= k < i ==> valid_bit_byte(#[trigger] bytes@[k]),
                forall|k: int| 0 <= k < i ==> out@[k] == bit_of_byte(#[trigger] bytes@[k]),
            decreases bytes.len() - i,
        {
            let b = bytes[i];
            if b == 49 {
                out.push(Some(true));
            } else if b == 48 {
                out.push(Some(false));
            } else if b == 120 {
                out.push(None);
            } else {
                return Err("bits must be '1', '0', 'x'".to_owned());
            }
            i += 1;
        }
        Ok(MaybeBits { bits: out })
    }
}

/// An assignment of truth values to wires, held as a set of forced
/// literals that never contains both polarities of one variable.
#[derive(Debug, Clone)]
pub struct Model {
    lits: Vec<i64>,
}

impl View for Model {
    type V = Set<int>;

    closed spec fn view(&self) -> Set<int> {
        lit_seq(self.lits@).to_set()
    }
}

impl Model {
    /// The representation holds well-formed literals without duplicates,
    /// and the assignment is consistent.
    pub closed spec fn wf(&self) -> bool {
        clause_wf(lit_seq(self.lits@)) && consistent(self@)
    }

    /// Whether the literal `l` is in the model.
    pub fn contains(&self, l: i64) -> (b: bool)
        ensures
            b == self@.contains(l as int),
    {
        contains_lit(&self.lits, l)
    }

    /// Adds a forced literal; inserting an already-present literal leaves
    /// the model unchanged.
    pub fn insert(&mut self, l: i64)
        requires
            old(self).wf(),
            l != 0,
            l != i64::MIN,
            !old(self)@.contains(-(l as int)),
        ensures
            final(self)@ == old(self)@.insert(l as int),
            final(self).wf(),
    {
        let already = self.contains(l);
        if !already {
            let ghost pre = lit_seq(self.lits@);
            self.lits.push(l);
            proof {
                assert(lit_seq(self.lits@) =~= pre.push(l as int));
                lemma_push_contains(pre, l as int);
                assert(self@ =~= old(self)@.insert(l as int));
                assert forall|j1: int, j2: int|
                    0 <= j1 < j2 < lit_seq(self.lits@).len() implies lit_seq(self.lits@)[j1]
                    != lit_seq(self.lits@)[j2] by {
                    if j2 == pre.len() {
                        if pre[j1] == l as int {
                            assert(pre.contains(pre[j1]));
                        }
                    }
                }
                assert forall|x: int| #[trigger] self@.contains(x) implies !self@.contains(-x) by {
                    if x == l as int {
                        assert(!old(self)@.contains(-(l as int)));
                    } else {
                        assert(old(self)@.contains(x));
                        if -x == l as int {
                            assert(old(self)@.contains(-(l as int)));
                        }
                    }
                }
            }
        } else {
            proof {
                assert(self@ =~= old(self)@.insert(l as int));
            }
        }
    }

    /// Merges another model whose literals never clash with this one.
    pub fn extend(&mut self, other: &Model)
        requires
            old(self).wf(),
            other.wf(),
            forall|l: int| #[trigger] other@.contains(l) ==> !old(self)@.contains(-l),
        ensures
            final(self)@ == old(self)@.union(other@),
            final(self).wf(),
    {
        let ghost ov = lit_seq(other.lits@);
        proof {
            assert(old(self)@.union(ov.take(0).to_set()) =~= old(self)@);
        }
        let mut j: usize = 0;
        while j < other.lits.len()
            invariant
                j <= other.lits.len(),
                ov == lit_seq(other.lits@),
                other.wf(),
                self.wf(),
                self@ == old(self)@.union(ov.take(j as int).to_set()),
                forall|l: int| #[trigger] other@.contains(l) ==> !old(self)@.contains(-l),
            decreases other.lits.len() - j,
        {
            let l = other.lits[j];
            let jj = Ghost(j as int);
            proof {
                assert(ov[jj@] == l as int);
                assert(other@.contains(l as int));
                assert(lit_wf(l as int));
                // the literal's negation is nowhere in the merged model
                assert(!self@.contains(-(l as int))) by {
                    if old(self)@.contains(-(l as int)) {
                        assert(other@.contains(l as int));
                    }
                    if ov.take(jj@).to_set().contains(-(l as int)) {
                        assert(ov.take(jj@).contains(-(l as int)));
                        let k = choose|k: int|
                            0 <= k < jj@ && ov.take(jj@)[k] == -(l as int);
                        assert(ov[k] == -(l as int));
                        assert(other@.contains(-(l as int)));
                        assert(!other@.contains(-(-(l as int))));
                        assert(other@.contains(l as int));
                    }
                }
            }
            self.insert(l);
            j += 1;
            proof {
                assert(ov.take(jj@ + 1) =~= ov.take(jj@).push(ov[jj@]));
                lemma_push_contains(ov.take(jj@), ov[jj@]);
                assert(self@ =~= old(self)@.union(ov.take(j as int).to_set()));
            }
        }
        proof {
            lemma_take_full(ov);
            assert(ov.to_set() =~= other@);
        }
    }

    /// The tri-state value of one wire: `Some(true)` when the positive
    /// literal is forced, `Some(false)` when the negative one is, `None`
    /// when the wire is unconstrained.
    pub fn get_bit(&self, bit: u64) -> (r: Option<bool>)
        requires
            bit <= i64::MAX as u64,
        ensures
            r == bit_value(self@, bit as int),
    {
        let b = bit as i64;
        proof {
            assert(b as int == bit as int);
        }
        if self.contains(b) {
            Some(true)
        } else if self.contains(-b) {
            Some(false)
        } else {
            None
        }
    }

    /// The tri-state values of an ordered group of wires.
    pub fn get_bits(&self, bits: &Vec<u64>) -> (r: MaybeBits)
        requires
            forall|i: int| 0 <= i < bits@.len() ==> #[trigger] bits@[i] <= i64::MAX as u64,
        ensures
            r.bits@.len() == bits@.len(),
            forall|i: int|
                0 <= i < bits@.len() ==> r.bits@[i] == bit_value(self@, #[trigger] bits@[i] as int),
    {
        let mut out: Vec<Option<bool>> = Vec::new();
        let mut i: usize = 0;
        while i < bits.len()
            invariant
                i <= bits.len(),
                out@.len() == i,
                forall|k: int| 0 <= k < bits@.len() ==> #[trigger] bits@[k] <= i64::MAX as u64,
                forall|k: int|
                    0 <= k < i ==> out@[k] == bit_value(self@, #[trigger] bits@[k] as int),
            decreases bits.len() - i,
        {
            let v = self.get_bit(bits[i]);
            out.push(v);
            i += 1;
        }
        MaybeBits { bits: out }
    }
}

impl Default for Model {
    /// The empty assignment: every wire unknown.
    fn default() -> (r: Self)
        ensures
            r@ == Set::<int>::empty(),
            r.wf(),
    {
        let r = Model { lits: Vec::new() };
        proof {
            assert(r@ =~= Set::<int>::empty());
        }
        r
    }
}

/// A formula in conjunctive normal form: a conjunction of clauses, each a
/// duplicate-free disjunction of literals.
#[derive(Debug, Clone)]
pub struct Cnf {
    clauses: Vec<Vec<i64>>,
}

impl View for Cnf {
    type V = Seq<Seq<int>>;

    closed spec fn view(&self) -> Seq<Seq<int>> {
        self.clauses@.map_values(|c: Vec<i64>| lit_seq(c@))
    }
}

impl Cnf {
    pub open spec fn wf(&self) -> bool {
        cnf_wf(self@)
    }

    /// Appends one clause, dropping duplicate literals; the only way a
    /// formula grows.
    pub fn add_clause(&mut self, clause: Vec<i64>)
        requires
            old(self).wf(),
            forall|j: int|
                0 <= j < clause@.len() ==> #[trigger] clause@[j] != 0 && clause@[j] != i64::MIN,
        ensures
            final(self)@ == old(self)@.push(dedup_first(lit_seq(clause@))),
            final(self).wf(),
    {
        let cv = Ghost(lit_seq(clause@));
        let mut ded: Vec<i64> = Vec::new();
        proof {
            assert(cv@.take(0) =~= Seq::<int>::empty());
            assert(lit_seq(ded@) =~= Seq::<int>::empty());
        }
        let mut j: usize = 0;
        while j < clause.len()
            invariant
                j <= clause.len(),
                cv@ == lit_seq(clause@),
                lit_seq(ded@) == dedup_first(cv@.take(j as int)),
            decreases clause.len() - j,
        {
            let ghost pre = lit_seq(ded@);
            let jj = Ghost(j as int);
            proof {
                lemma_dedup_first(cv@.take(jj@));
                assert(cv@.take(jj@ + 1).drop_last() =~= cv@.take(jj@));
                assert(cv@.take(jj@ + 1).last() == cv@[jj@]);
                assert(cv@[jj@] == clause@[jj@] as int);
            }
            let dup = contains_lit(&ded, clause[j]);
            if !dup {
                ded.push(clause[j]);
                proof {
                    assert(lit_seq(ded@) =~= pre.push(clause@[jj@] as int));
                }
            }
            j += 1;
        }
        proof {
            lemma_take_full(cv@);
        }
        let ghost pre_view = self@;
        self.clauses.push(ded);
        proof {
            assert(self@ =~= pre_view.push(lit_seq(ded@)));
            lemma_dedup_first(cv@);
            assert(clause_wf(dedup_first(cv@))) by {
                assert forall|k: int|
                    0 <= k < dedup_first(cv@).len() implies lit_wf(#[trigger] dedup_first(cv@)[k]) by {
                    assert(dedup_first(cv@).contains(dedup_first(cv@)[k]));
                    let t = choose|t: int| 0 <= t < cv@.len() && cv@[t] == dedup_first(cv@)[k];
                    assert(clause@[t] != 0 && clause@[t] != i64::MIN);
                }
            }
            assert forall|i: int| 0 <= i < self@.len() implies clause_wf(#[trigger] self@[i]) by {
                if i < pre_view.len() {
                    assert(clause_wf(pre_view[i]));
                }
            }
        }
    }

    /// `add_clause`, chaining style.
    pub fn with_clause(self, clause: Vec<i64>) -> (r: Self)
        requires
            self.wf(),
            forall|j: int|
                0 <= j < clause@.len() ==> #[trigger] clause@[j] != 0 && clause@[j] != i64::MIN,
        ensures
            r@ == self@.push(dedup_first(lit_seq(clause@))),
            r.wf(),
    {
        let mut s = self;
        s.add_clause(clause);
        s
    }

    /// Read access to the clauses, for rendering or serializing a formula.
    pub fn clause_list(&self) -> (r: &Vec<Vec<i64>>)
        ensures
            r@.len() == self@.len(),
            forall|i: int| 0 <= i < r@.len() ==> lit_seq(#[trigger] r@[i]@) == self@[i],
    {
        &self.clauses
    }

    /// The first single-literal clause, if any clause is a unit.
    pub fn find_unit(&self) -> (r: Option<i64>)
        ensures
            match r {
                Some(l) => exists|i: int|
                    0 <= i < self@.len() && (#[trigger] self@[i]).len() == 1 && self@[i][0]
                        == l as int && (forall|k: int| 0 <= k < i ==> (#[trigger] self@[k]).len() != 1),
                None => !has_unit(self@),
            },
    {
        let mut i: usize = 0;
        while i < self.clauses.len()
            invariant
                i <= self.clauses.len(),
                forall|k: int| 0 <= k < i ==> (#[trigger] self@[k]).len() != 1,
            decreases self.clauses.len() - i,
        {
            if self.clauses[i].len() == 1 {
                let l = self.clauses[i][0];
                proof {
                    assert(self@[i as int].len() == 1 && self@[i as int][0] == l as int);
                }
                return Some(l);
            }
            i += 1;
        }
        proof {
            if has_unit(self@) {
                let k = choose|k: int| 0 <= k < self@.len() && is_unit(#[trigger] self@[k]);
                assert(self@[k].len() != 1);
            }
        }
        None
    }

    fn occurs_lit(&self, x: i64) -> (b: bool)
        ensures
            b == occurs(self@, x as int),
    {
        let mut i: usize = 0;
        while i < self.clauses.len()
            invariant
                i <= self.clauses.len(),
                forall|k: int| 0 <= k < i ==> !(#[trigger] self@[k]).contains(x as int),
            decreases self.clauses.len() - i,
        {
            if contains_lit(&self.clauses[i], x) {
                proof {
                    assert(self@[i as int].contains(x as int));
                }
                return true;
            }
            i += 1;
        }
        proof {
            if occurs(self@, x as int) {
                let k = choose|k: int| 0 <= k < self@.len() && (#[trigger] self@[k]).contains(x as int);
                assert(!self@[k].contains(x as int));
            }
        }
        false
    }

    /// The first pure literal encountered when scanning clauses in order
    /// and each clause left to right; `None` exactly when no literal of
    /// the formula is pure.
    pub fn find_pure_literal(&self) -> (r: Option<i64>)
        requires
            self.wf(),
        ensures
            match r {
                Some(l) => pure_in(self@, l as int) && exists|i: int, j: int|
                    0 <= i < self@.len() && 0 <= j < self@[i].len() && self@[i][j] == l as int
                        && #[trigger] no_pure_before(self@, i, j),
                None => !has_pure(self@),
            },
    {
        let mut i: usize = 0;
        while i < self.clauses.len()
            invariant
                self.wf(),
                i <= self.clauses.len(),
                forall|k: int, j: int|
                    0 <= k < i && 0 <= j < (#[trigger] self@[k]).len() ==> !pure_in(
                        self@,
                        #[trigger] self@[k][j],
                    ),
            decreases self.clauses.len() - i,
        {
            let mut j: usize = 0;
            while j < self.clauses[i].len()
                invariant
                    self.wf(),
                    i < self.clauses.len(),
                    j <= self.clauses[i as int].len(),
                    forall|k: int, j2: int|
                        0 <= k < i && 0 <= j2 < (#[trigger] self@[k]).len() ==> !pure_in(
                            self@,
                            #[trigger] self@[k][j2],
                        ),
                    forall|j2: int|
                        0 <= j2 < j ==> !pure_in(self@, (#[trigger] self@[i as int])[j2]),
                decreases self.clauses[i as int].len() - j,
            {
                let l = self.clauses[i][j];
                proof {
                    assert(clause_wf(self@[i as int]));
                    assert(lit_wf(self@[i as int][j as int]));
                    assert(self@[i as int][j as int] == l as int);
                }
                let neg = -l;
                if !self.occurs_lit(neg) {
                    proof {
                        assert(self@[i as int].contains(l as int));
                        assert(occurs(self@, l as int));
                        assert(neg as int == -(l as int));
                        assert(no_pure_before(self@, i as int, j as int));
                    }
                    return Some(l);
                }
                j += 1;
            }
            i += 1;
        }
        proof {
            if has_pure(self@) {
                let l = choose|l: int| #[trigger] pure_in(self@, l);
                let k = choose|k: int| 0 <= k < self@.len() && (#[trigger] self@[k]).contains(l);
                let j = choose|j: int| 0 <= j < self@[k].len() && self@[k][j] == l;
                assert(!pure_in(self@, self@[k][j]));
            }
        }
        None
    }

    /// Applies a forced literal: drops every clause containing it and
    /// deletes its negation from the rest.
    pub fn reduce(&self, l: i64) -> (r: Cnf)
        requires
            self.wf(),
            l != 0,
            l != i64::MIN,
        ensures
            r@ == reduce_spec(self@, l as int),
            r.wf(),
    {
        let neg = -l;
        let fv = Ghost(self@);
        let mut out: Vec<Vec<i64>> = Vec::new();
        proof {
            assert(fv@.take(0) =~= Seq::<Seq<int>>::empty());
            assert(out@.map_values(|c: Vec<i64>| lit_seq(c@)) =~= Seq::<Seq<int>>::empty());
        }
        let mut i: usize = 0;
        while i < self.clauses.len()
            invariant
                i <= self.clauses.len(),
                fv@ == self@,
                l != 0,
                l != i64::MIN,
                neg == -l,
                out@.map_values(|c: Vec<i64>| lit_seq(c@)) == reduce_spec(
                    fv@.take(i as int),
                    l as int,
                ),
            decreases self.clauses.len() - i,
        {
            let ghost pre = out@.map_values(|c: Vec<i64>| lit_seq(c@));
            let ii = Ghost(i as int);
            proof {
                assert(fv@.take(ii@ + 1).drop_last() =~= fv@.take(ii@));
                assert(fv@.take(ii@ + 1).last() == fv@[ii@]);
                assert(fv@[ii@] == lit_seq(self.clauses@[ii@]@));
            }
            let keep = !contains_lit(&self.clauses[i], l);
            if keep {
                let rc = remove_lit_exec(&self.clauses[i], neg);
                out.push(rc);
                proof {
                    assert(out@.map_values(|c: Vec<i64>| lit_seq(c@)) =~= pre.push(lit_seq(rc@)));
                    assert(neg as int == -(l as int));
                }
            }
            i += 1;
        }
        proof {
            lemma_take_full(fv@);
        }
        let r = Cnf { clauses: out };
        proof {
            assert(r@ == reduce_spec(self@, l as int));
            lemma_reduce_wf(self@, l as int);
        }
        r
    }

    fn has_contradiction(&self) -> (b: bool)
        ensures
            b == has_empty_clause(self@),
    {
        let mut i: usize = 0;
        while i < self.clauses.len()
            invariant
                i <= self.clauses.len(),
                forall|k: int| 0 <= k < i ==> (#[trigger] self@[k]).len() != 0,
            decreases self.clauses.len() - i,
        {
            if self.clauses[i].len() == 0 {
                proof {
                    assert(self@[i as int].len() == 0);
                }
                return true;
            }
            i += 1;
        }
        proof {
            if has_empty_clause(self@) {
                let k = choose|k: int| 0 <= k < self@.len() && (#[trigger] self@[k]).len() == 0;
                assert(self@[k].len() != 0);
            }
        }
        false
    }

    /// Unit propagation to a fixpoint: while some clause has exactly one
    /// literal, force that literal, drop the clauses it satisfies, and
    /// resolve its negation away.  Every forced literal is mandatory: any
    /// satisfying assignment of the input contains all of them.  On a
    /// formula with no unit clause this changes nothing.
    pub fn propagate_units(self) -> (r: (Cnf, Model))
        requires
            self.wf(),
        ensures
            r.0.wf(),
            r.1.wf(),
            !has_unit(r.0@),
            total_lits(r.0@) <= total_lits(self@),
            forall|x: int| #[trigger] occurs(r.0@, x) ==> occurs(self@, x),
            forall|l: int| #[trigger] r.1@.contains(l) ==> occurs(self@, l) || occurs(self@, -l),
            forall|l: int| #[trigger] r.1@.contains(l) ==> !occurs(r.0@, l) && !occurs(r.0@, -l),
            forall|m: Set<int>|
                consistent(m) && r.1@.subset_of(m) && #[trigger] cnf_sat(m, r.0@) ==> cnf_sat(
                    m,
                    self@,
                ),
            forall|m: Set<int>|
                consistent(m) && #[trigger] cnf_sat(m, self@) ==> cnf_sat(m, r.0@)
                    && r.1@.subset_of(m),
            !has_unit(self@) ==> r.0@ == self@ && r.1@ == Set::<int>::empty(),
    {
        let ghost f0 = self@;
        let mut cur = self;
        let mut forced: Model = Model::default();
        loop
            invariant
                cur.wf(),
                forced.wf(),
                total_lits(cur@) <= total_lits(f0),
                forall|x: int| #[trigger] occurs(cur@, x) ==> occurs(f0, x),
                forall|l: int| #[trigger] forced@.contains(l) ==> occurs(f0, l) || occurs(f0, -l),
                forall|l: int|
                    #[trigger] forced@.contains(l) ==> !occurs(cur@, l) && !occurs(cur@, -l),
                forall|m: Set<int>|
                    consistent(m) && forced@.subset_of(m) && #[trigger] cnf_sat(m, cur@)
                        ==> cnf_sat(m, f0),
                forall|m: Set<int>|
                    consistent(m) && #[trigger] cnf_sat(m, f0) ==> cnf_sat(m, cur@)
                        && forced@.subset_of(m),
                !has_unit(f0) ==> cur@ == f0 && forced@ == Set::<int>::empty(),
            ensures
                cur.wf(),
                forced.wf(),
                !has_unit(cur@),
                total_lits(cur@) <= total_lits(f0),
                forall|x: int| #[trigger] occurs(cur@, x) ==> occurs(f0, x),
                forall|l: int| #[trigger] forced@.contains(l) ==> occurs(f0, l) || occurs(f0, -l),
                forall|l: int|
                    #[trigger] forced@.contains(l) ==> !occurs(cur@, l) && !occurs(cur@, -l),
                forall|m: Set<int>|
                    consistent(m) && forced@.subset_of(m) && #[trigger] cnf_sat(m, cur@)
                        ==> cnf_sat(m, f0),
                forall|m: Set<int>|
                    consistent(m) && #[trigger] cnf_sat(m, f0) ==> cnf_sat(m, cur@)
                        && forced@.subset_of(m),
                !has_unit(f0) ==> cur@ == f0 && forced@ == Set::<int>::empty(),
            decreases total_lits(cur@),
        {
            let found = cur.find_unit();
            match found {
                None => {
                    break;
                },
                Some(l) => {
                    let ghost pre = cur@;
                    let ghost fset_pre = forced@;
                    let ghost big_l = l as int;
                    proof {
                        let i = choose|i: int|
                            0 <= i < pre.len() && (#[trigger] pre[i]).len() == 1 && pre[i][0]
                                == big_l;
                        assert(clause_wf(pre[i]));
                        assert(lit_wf(big_l));
                        assert(pre[i].contains(big_l)) by {
                            assert(pre[i][0] == big_l);
                        }
                        assert(occurs(pre, big_l));
                        assert(has_unit(pre)) by {
                            assert(is_unit(pre[i]));
                        }
                        assert(has_unit(f0)) by {
                            if !has_unit(f0) {
                                assert(cur@ == f0);
                            }
                        }
                        assert(!forced@.contains(-big_l)) by {
                            if forced@.contains(-big_l) {
                                assert(!occurs(pre, -(-big_l)));
                            }
                        }
                    }
                    let next = cur.reduce(l);
                    proof {
                        lemma_reduce_occurs(pre, big_l);
                        lemma_reduce_total(pre, big_l);
                    }
                    forced.insert(l);
                    proof {
                        // the forced set after this step is mandatory and gone from the formula
                        assert forall|l2: int| #[trigger] forced@.contains(l2) implies !occurs(
                            next@,
                            l2,
                        ) && !occurs(next@, -l2) by {
                            if l2 == big_l {
                                if occurs(next@, big_l) {
                                    assert(big_l != big_l);
                                }
                                if occurs(next@, -big_l) {
                                    assert(-big_l != -big_l);
                                }
                            } else {
                                assert(fset_pre.contains(l2));
                                if occurs(next@, l2) {
                                    assert(occurs(pre, l2));
                                }
                                if occurs(next@, -l2) {
                                    assert(occurs(pre, -l2));
                                }
                            }
                        }
                        assert forall|m: Set<int>|
                            consistent(m) && forced@.subset_of(m) && #[trigger] cnf_sat(m, next@)
                                implies cnf_sat(m, f0) by {
                            assert(m.contains(big_l)) by {
                                assert(forced@.contains(big_l));
                            }
                            lemma_reduce_sound(pre, big_l, m);
                            assert(fset_pre.subset_of(m)) by {
                                assert forall|x: int| fset_pre.contains(x) implies m.contains(
                                    x,
                                ) by {
                                    assert(forced@.contains(x));
                                }
                            }
                        }
                        assert forall|m: Set<int>|
                            consistent(m) && #[trigger] cnf_sat(m, f0) implies cnf_sat(m, next@)
                                && forced@.subset_of(m) by {
                            assert(cnf_sat(m, pre) && fset_pre.subset_of(m));
                            let i = choose|i: int|
                                0 <= i < pre.len() && (#[trigger] pre[i]).len() == 1 && pre[i][0]
                                    == big_l;
                            lemma_unit_forces(pre, i, m);
                            lemma_reduce_complete(pre, big_l, m);
                        }
                    }
                    cur = next;
                },
            }
        }
        (cur, forced)
    }

    /// Pure-literal elimination to a fixpoint: while some literal occurs
    /// whose negation never does, force it true and drop the clauses it
    /// satisfies.  A sound simplification: it neither loses nor invents
    /// satisfying assignments of the remaining formula.
    pub fn eliminate_pure_literals(self) -> (r: (Cnf, Model))
        requires
            self.wf(),
        ensures
            r.0.wf(),
            r.1.wf(),
            !has_pure(r.0@),
            total_lits(r.0@) <= total_lits(self@),
            forall|x: int| #[trigger] occurs(r.0@, x) ==> occurs(self@, x),
            forall|l: int| #[trigger] r.1@.contains(l) ==> occurs(self@, l),
            forall|l: int| #[trigger] r.1@.contains(l) ==> !occurs(r.0@, l) && !occurs(r.0@, -l),
            forall|m: Set<int>|
                consistent(m) && r.1@.subset_of(m) && #[trigger] cnf_sat(m, r.0@) ==> cnf_sat(
                    m,
                    self@,
                ),
            forall|m: Set<int>| #[trigger] cnf_sat(m, self@) ==> cnf_sat(m, r.0@),
    {
        let ghost f0 = self@;
        let mut cur = self;
        let mut forced: Model = Model::default();
        loop
            invariant
                cur.wf(),
                forced.wf(),
                total_lits(cur@) <= total_lits(f0),
                forall|x: int| #[trigger] occurs(cur@, x) ==> occurs(f0, x),
                forall|l: int| #[trigger] forced@.contains(l) ==> occurs(f0, l),
                forall|l: int|
                    #[trigger] forced@.contains(l) ==> !occurs(cur@, l) && !occurs(cur@, -l),
                forall|m: Set<int>|
                    consistent(m) && forced@.subset_of(m) && #[trigger] cnf_sat(m, cur@)
                        ==> cnf_sat(m, f0),
                forall|m: Set<int>| #[trigger] cnf_sat(m, f0) ==> cnf_sat(m, cur@),
            ensures
                cur.wf(),
                forced.wf(),
                !has_pure(cur@),
                total_lits(cur@) <= total_lits(f0),
                forall|x: int| #[trigger] occurs(cur@, x) ==> occurs(f0, x),
                forall|l: int| #[trigger] forced@.contains(l) ==> occurs(f0, l),
                forall|l: int|
                    #[trigger] forced@.contains(l) ==> !occurs(cur@, l) && !occurs(cur@, -l),
                forall|m: Set<int>|
                    consistent(m) && forced@.subset_of(m) && #[trigger] cnf_sat(m, cur@)
                        ==> cnf_sat(m, f0),
                forall|m: Set<int>| #[trigger] cnf_sat(m, f0) ==> cnf_sat(m, cur@),
            decreases total_lits(cur@),
        {
            let found = cur.find_pure_literal();
            match found {
                None => {
                    break;
                },
                Some(l) => {
                    let ghost pre = cur@;
                    let ghost fset_pre = forced@;
                    let ghost big_l = l as int;
                    proof {
                        assert(occurs(pre, big_l) && !occurs(pre, -big_l));
                        let i = choose|i: int|
                            0 <= i < pre.len() && (#[trigger] pre[i]).contains(big_l);
                        let j = choose|j: int| 0 <= j < pre[i].len() && pre[i][j] == big_l;
                        assert(clause_wf(pre[i]));
                        assert(lit_wf(big_l));
                        assert(!forced@.contains(-big_l)) by {
                            if forced@.contains(-big_l) {
                                assert(!occurs(pre, -(-big_l)));
                            }
                        }
                    }
                    let next = cur.reduce(l);
                    proof {
                        lemma_reduce_occurs(pre, big_l);
                        lemma_reduce_total(pre, big_l);
                    }
                    forced.insert(l);
                    proof {
                        assert forall|l2: int| #[trigger] forced@.contains(l2) implies !occurs(
                            next@,
                            l2,
                        ) && !occurs(next@, -l2) by {
                            if l2 == big_l {
                                if occurs(next@, big_l) {
                                    assert(big_l != big_l);
                                }
                                if occurs(next@, -big_l) {
                                    assert(-big_l != -big_l);
                                }
                            } else {
                                assert(fset_pre.contains(l2));
                                if occurs(next@, l2) {
                                    assert(occurs(pre, l2));
                                }
                                if occurs(next@, -l2) {
                                    assert(occurs(pre, -l2));
                                }
                            }
                        }
                        assert forall|m: Set<int>|
                            consistent(m) && forced@.subset_of(m) && #[trigger] cnf_sat(m, next@)
                                implies cnf_sat(m, f0) by {
                            assert(m.contains(big_l)) by {
                                assert(forced@.contains(big_l));
                            }
                            lemma_reduce_sound(pre, big_l, m);
                            assert(fset_pre.subset_of(m)) by {
                                assert forall|x: int| fset_pre.contains(x) implies m.contains(
                                    x,
                                ) by {
                                    assert(forced@.contains(x));
                                }
                            }
                        }
                        assert forall|m: Set<int>| #[trigger] cnf_sat(m, f0) implies cnf_sat(
                            m,
                            next@,
                        ) by {
                            assert(cnf_sat(m, pre));
                            lemma_reduce_complete_pure(pre, big_l, m);
                        }
                    }
                    cur = next;
                },
            }
        }
        (cur, forced)
    }

    /// The DPLL search: simplify by unit propagation, then pure-literal
    /// elimination, and if the formula is neither solved nor contradicted,
    /// branch on the first remaining literal, each branch on its own copy.
    ///
    /// The contract is the solver's two laws.  Soundness: a returned model
    /// is consistent and satisfies at least one literal of every clause of
    /// the input, and speaks only of wires the formula mentions.
    /// Completeness: the unsatisfiable outcome is returned only when no
    /// consistent assignment whatsoever satisfies the formula.
    pub fn dpll(self) -> (r: Option<Model>)
        requires
            self.wf(),
        ensures
            match r {
                Some(m) => m.wf() && consistent(m@) && cnf_sat(m@, self@) && (forall|l: int|
                    #[trigger] m@.contains(l) ==> occurs(self@, l) || occurs(self@, -l)),
                None => forall|m: Set<int>| consistent(m) ==> !(#[trigger] cnf_sat(m, self@)),
            },
        decreases total_lits(self@),
    {
        let ghost f0 = self@;
        let (f1, mut assignments) = self.propagate_units();
        let ghost f1v = f1@;
        let ghost uv = assignments@;
        let (f2, pures) = f1.eliminate_pure_literals();
        let ghost f2v = f2@;
        let ghost pv = pures@;
        proof {
            assert forall|l: int| #[trigger] pv.contains(l) implies !uv.contains(-l) by {
                assert(occurs(f1v, l));
                if uv.contains(-l) {
                    assert(!occurs(f1v, -(-l)));
                }
            }
        }
        assignments.extend(&pures);
        let ghost av = assignments@;
        proof {
            // every accumulated literal concerns a wire of the input formula
            assert forall|a: int| #[trigger] av.contains(a) implies occurs(f0, a) || occurs(
                f0,
                -a,
            ) by {
                if pv.contains(a) {
                    assert(occurs(f1v, a));
                }
            }
            // and none of them is mentioned by the remaining formula
            assert forall|a: int| #[trigger] av.contains(a) implies !occurs(f2v, a) && !occurs(
                f2v,
                -a,
            ) by {
                if uv.contains(a) {
                    if occurs(f2v, a) {
                        assert(occurs(f1v, a));
                    }
                    if occurs(f2v, -a) {
                        assert(occurs(f1v, -a));
                    }
                }
            }
            assert(consistent(av));
            // satisfiability transfers between the input and the remainder
            assert forall|m: Set<int>|
                consistent(m) && av.subset_of(m) && #[trigger] cnf_sat(m, f2v) implies cnf_sat(
                m,
                f0,
            ) by {
                assert(pv.subset_of(m)) by {
                    assert forall|x: int| pv.contains(x) implies m.contains(x) by {
                        assert(av.contains(x));
                    }
                }
                assert(uv.subset_of(m)) by {
                    assert forall|x: int| uv.contains(x) implies m.contains(x) by {
                        assert(av.contains(x));
                    }
                }
                assert(cnf_sat(m, f1v));
            }
            assert forall|m: Set<int>|
                consistent(m) && #[trigger] cnf_sat(m, f0) implies cnf_sat(m, f2v)
                    && uv.subset_of(m) by {
                assert(cnf_sat(m, f1v));
            }
        }
        if f2.has_contradiction() {
            proof {
                assert forall|m: Set<int>| consistent(m) implies !(#[trigger] cnf_sat(m, f0)) by {
                    if cnf_sat(m, f0) {
                        assert(cnf_sat(m, f2v));
                        let i = choose|i: int|
                            0 <= i < f2v.len() && (#[trigger] f2v[i]).len() == 0;
                        assert(clause_sat(m, f2v[i]));
                        let j = choose|j: int|
                            0 <= j < f2v[i].len() && m.contains(#[trigger] f2v[i][j]);
                    }
                }
            }
            return None;
        }
        if f2.clauses.len() == 0 {
            proof {
                assert(f2v.len() == 0);
                assert(cnf_sat(av, f2v));
                assert(av.subset_of(av));
                assert(cnf_sat(av, f0));
            }
            return Some(assignments);
        }
        proof {
            assert(f2v[0].len() != 0) by {
                if f2v[0].len() == 0 {
                    assert(has_empty_clause(f2v));
                }
            }
            assert(f2v[0].len() == f2.clauses@[0]@.len());
        }
        let l = f2.clauses[0][0];
        let ghost big_l = l as int;
        proof {
            assert(f2v[0][0] == big_l);
            assert(clause_wf(f2v[0]));
            assert(lit_wf(big_l));
            assert(f2v[0].contains(big_l));
            assert(occurs(f2v, big_l));
            lemma_reduce_total(f2v, big_l);
            lemma_reduce_occurs(f2v, big_l);
        }
        let g1 = f2.reduce(l);
        let ghost g1v = g1@;
        proof {
            assert(total_lits(g1v) < total_lits(f0) + 1);
            assert(total_lits(g1v) < total_lits(f2v));
        }
        match g1.dpll() {
            Some(m) => {
                proof {
                    assert(!av.contains(-big_l)) by {
                        if av.contains(-big_l) {
                            assert(!occurs(f2v, -(-big_l)));
                        }
                    }
                }
                let mut res = assignments;
                res.insert(l);
                proof {
                    assert forall|x: int| #[trigger] m@.contains(x) implies !res@.contains(-x) by {
                        assert(occurs(g1v, x) || occurs(g1v, -x));
                        assert(-x != big_l) by {
                            if -x == big_l {
                                assert(occurs(g1v, -big_l) || occurs(g1v, big_l));
                            }
                        }
                        if av.contains(-x) {
                            assert(!occurs(f2v, -x) && !occurs(f2v, -(-x)));
                            if occurs(g1v, x) {
                                assert(occurs(f2v, x));
                            }
                            if occurs(g1v, -x) {
                                assert(occurs(f2v, -x));
                            }
                        }
                    }
                }
                res.extend(&m);
                proof {
                    let rv = res@;
                    assert(consistent(rv));
                    assert(m@.subset_of(rv));
                    lemma_cnf_sat_monotone(m@, rv, g1v);
                    assert(rv.contains(big_l)) by {
                        assert(av.insert(big_l).contains(big_l));
                    }
                    lemma_reduce_sound(f2v, big_l, rv);
                    assert(av.subset_of(rv));
                    assert(cnf_sat(rv, f0));
                    assert forall|x: int| #[trigger] rv.contains(x) implies occurs(f0, x)
                        || occurs(f0, -x) by {
                        if x == big_l {
                            assert(occurs(f2v, big_l));
                            assert(occurs(f1v, big_l));
                        } else if av.contains(x) {
                        } else {
                            assert(m@.contains(x));
                            assert(occurs(g1v, x) || occurs(g1v, -x));
                            if occurs(g1v, x) {
                                assert(occurs(f2v, x));
                                assert(occurs(f1v, x));
                            }
                            if occurs(g1v, -x) {
                                assert(occurs(f2v, -x));
                                assert(occurs(f1v, -x));
                            }
                        }
                    }
                }
                Some(res)
            },
            None => {
                let nl = -l;
                let ghost big_nl = -big_l;
                proof {
                    assert(nl as int == big_nl);
                    lemma_reduce_total(f2v, big_nl);
                    lemma_reduce_occurs(f2v, big_nl);
                }
                let g2 = f2.reduce(nl);
                let ghost g2v = g2@;
                proof {
                    assert(occurs(f2v, -big_nl));
                    assert(total_lits(g2v) < total_lits(f2v));
                    assert(total_lits(g2v) < total_lits(f0) + 1);
                }
                match g2.dpll() {
                    Some(m) => {
                        proof {
                            assert(!av.contains(-big_nl)) by {
                                if av.contains(-big_nl) {
                                    assert(!occurs(f2v, -big_nl));
                                }
                            }
                        }
                        let mut res = assignments;
                        res.insert(nl);
                        proof {
                            assert forall|x: int| #[trigger] m@.contains(x) implies !res@.contains(
                                -x,
                            ) by {
                                assert(occurs(g2v, x) || occurs(g2v, -x));
                                assert(-x != big_nl) by {
                                    if -x == big_nl {
                                        assert(occurs(g2v, -big_nl) || occurs(g2v, big_nl));
                                    }
                                }
                                if av.contains(-x) {
                                    assert(!occurs(f2v, -x) && !occurs(f2v, -(-x)));
                                    if occurs(g2v, x) {
                                        assert(occurs(f2v, x));
                                    }
                                    if occurs(g2v, -x) {
                                        assert(occurs(f2v, -x));
                                    }
                                }
                            }
                        }
                        res.extend(&m);
                        proof {
                            let rv = res@;
                            assert(consistent(rv));
                            assert(m@.subset_of(rv));
                            lemma_cnf_sat_monotone(m@, rv, g2v);
                            assert(rv.contains(big_nl)) by {
                                assert(av.insert(big_nl).contains(big_nl));
                            }
                            lemma_reduce_sound(f2v, big_nl, rv);
                            assert(av.subset_of(rv));
                            assert(cnf_sat(rv, f0));
                            assert forall|x: int| #[trigger] rv.contains(x) implies occurs(f0, x)
                                || occurs(f0, -x) by {
                                if x == big_nl {
                                    assert(occurs(f2v, big_l));
                                    assert(occurs(f1v, big_l));
                                    assert(occurs(f0, big_l));
                                } else if av.contains(x) {
                                } else {
                                    assert(m@.contains(x));
                                    assert(occurs(g2v, x) || occurs(g2v, -x));
                                    if occurs(g2v, x) {
                                        assert(occurs(f2v, x));
                                        assert(occurs(f1v, x));
                                    }
                                    if occurs(g2v, -x) {
                                        assert(occurs(f2v, -x));
                                        assert(occurs(f1v, -x));
                                    }
                                }
                            }
                        }
                        Some(res)
                    },
                    None => {
                        proof {
                            assert forall|m: Set<int>| consistent(m) implies !(#[trigger] cnf_sat(
                                m,
                                f0,
                            )) by {
                                if cnf_sat(m, f0) {
                                    assert(cnf_sat(m, f2v));
                                    if m.contains(big_l) {
                                        lemma_reduce_complete(f2v, big_l, m);
                                        assert(!cnf_sat(m, g1v));
                                    } else if m.contains(big_nl) {
                                        lemma_reduce_complete(f2v, big_nl, m);
                                        assert(!cnf_sat(m, g2v));
                                    } else {
                                        let m2 = m.insert(big_l);
                                        assert(consistent(m2)) by {
                                            assert forall|x: int| #[trigger] m2.contains(x) implies
                                                !m2.contains(-x) by {
                                                if x == big_l {
                                                    assert(!m.contains(big_nl));
                                                } else {
                                                    assert(m.contains(x));
                                                    assert(!m.contains(-x));
                                                    if -x == big_l {
                                                        assert(m.contains(big_nl));
                                                    }
                                                }
                                            }
                                        }
                                        lemma_cnf_sat_monotone(m, m2, f2v);
                                        lemma_reduce_complete(f2v, big_l, m2);
                                        assert(!cnf_sat(m2, g1v));
                                    }
                                }
                            }
                        }
                        None
                    },
                }
            },
        }
    }
}

impl Default for Cnf {
    /// The empty formula, satisfied by everything.
    fn default() -> (r: Self)
        ensures
            r@ == Seq::<Seq<int>>::empty(),
            r.wf(),
    {
        let r = Cnf { clauses: Vec::new() };
        proof {
            assert(r@ =~= Seq::<Seq<int>>::empty());
        }
        r
    }
}

} // verus!
