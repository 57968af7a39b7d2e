//! The mathematical model of CNF satisfiability.
//!
//! Literals are nonzero integers (magnitude = wire id, sign = polarity),
//! a clause is a duplicate-free sequence of literals read as a disjunction,
//! a formula is a sequence of clauses read as a conjunction, and an
//! assignment is a set of literals that never holds both polarities of one
//! variable.  The solver's contracts are stated over these definitions, and
//! the lemmas here carry satisfiability across the solver's simplification
//! steps.

use vstd::prelude::*;

verus! {

/// A well-formed literal: nonzero, and within symmetric machine range so
/// that its negation is also representable.
pub open spec fn lit_wf(l: int) -> bool {
    l != 0 && -0x7fff_ffff_ffff_ffff <= l <= 0x7fff_ffff_ffff_ffff
}

/// No element of `c` appears twice.
pub open spec fn no_dups(c: Seq<int>) -> bool {
    forall|j1: int, j2: int| 0 <= j1 < j2 < c.len() ==> c[j1] != c[j2]
}

/// A well-formed clause: well-formed literals, set semantics (no duplicates).
pub open spec fn clause_wf(c: Seq<int>) -> bool {
    (forall|j: int| 0 <= j < c.len() ==> lit_wf(#[trigger] c[j])) && no_dups(c)
}

/// A well-formed formula: every clause is well-formed.
pub open spec fn cnf_wf(f: Seq<Seq<int>>) -> bool {
    forall|i: int| 0 <= i < f.len() ==> clause_wf(#[trigger] f[i])
}

/// An assignment never holds both polarities of the same variable.
pub open spec fn consistent(m: Set<int>) -> bool {
    forall|l: int| #[trigger] m.contains(l) ==> !m.contains(-l)
}

/// The assignment `m` makes at least one literal of `c` true.
pub open spec fn clause_sat(m: Set<int>, c: Seq<int>) -> bool {
    exists|j: int| 0 <= j < c.len() && m.contains(#[trigger] c[j])
}

/// The assignment `m` satisfies every clause of `f`.
pub open spec fn cnf_sat(m: Set<int>, f: Seq<Seq<int>>) -> bool {
    forall|i: int| 0 <= i < f.len() ==> clause_sat(m, #[trigger] f[i])
}

/// The literal `x` appears somewhere in `f`.
pub open spec fn occurs(f: Seq<Seq<int>>, x: int) -> bool {
    exists|i: int| 0 <= i < f.len() && (#[trigger] f[i]).contains(x)
}

/// A unit clause forces its single literal.
pub open spec fn is_unit(c: Seq<int>) -> bool {
    c.len() == 1
}

pub open spec fn has_unit(f: Seq<Seq<int>>) -> bool {
    exists|i: int| 0 <= i < f.len() && is_unit(#[trigger] f[i])
}

/// `l` is pure in `f`: it appears, and its negation never does.
pub open spec fn pure_in(f: Seq<Seq<int>>, l: int) -> bool {
    occurs(f, l) && !occurs(f, -l)
}

pub open spec fn has_pure(f: Seq<Seq<int>>) -> bool {
    exists|l: int| #[trigger] pure_in(f, l)
}

/// No literal at a position lexicographically before `(i, j)` is pure in
/// `f`; pins down which pure literal a left-to-right scan reports first.
pub open spec fn no_pure_before(f: Seq<Seq<int>>, i: int, j: int) -> bool {
    forall|i2: int, j2: int|
        0 <= i2 < f.len() && 0 <= j2 < f[i2].len() && (i2 < i || (i2 == i && j2 < j))
            ==> !pure_in(f, #[trigger] f[i2][j2])
}

/// An empty clause is an unsatisfiable constraint.
pub open spec fn has_empty_clause(f: Seq<Seq<int>>) -> bool {
    exists|i: int| 0 <= i < f.len() && (#[trigger] f[i]).len() == 0
}

/// Total number of literal occurrences in `f`; the solver's termination
/// measure.
pub open spec fn total_lits(f: Seq<Seq<int>>) -> nat
    decreases f.len(),
{
    if f.len() == 0 {
        0
    } else {
        (total_lits(f.drop_last()) + f.last().len()) as nat
    }
}

/// The mathematical reading of a machine-level literal sequence.
pub open spec fn lit_seq(s: Seq<i64>) -> Seq<int> {
    s.map_values(|l: i64| l as int)
}

/// `c` with every occurrence of `y` deleted, order otherwise kept.
pub open spec fn remove_lit(c: Seq<int>, y: int) -> Seq<int>
    decreases c.len(),
{
    if c.len() == 0 {
        c
    } else if c.last() == y {
        remove_lit(c.drop_last(), y)
    } else {
        remove_lit(c.drop_last(), y).push(c.last())
    }
}

/// One solving step for a forced literal `l`: drop every clause containing
/// `l` (now satisfied), and delete `-l` from the clauses that remain
/// (resolution).
pub open spec fn reduce_spec(f: Seq<Seq<int>>, l: int) -> Seq<Seq<int>>
    decreases f.len(),
{
    if f.len() == 0 {
        f
    } else {
        let rest = reduce_spec(f.drop_last(), l);
        if f.last().contains(l) {
            rest
        } else {
            rest.push(remove_lit(f.last(), -l))
        }
    }
}

/// `s` with later duplicates dropped: each element kept at its first
/// appearance.
pub open spec fn dedup_first(s: Seq<int>) -> Seq<int>
    decreases s.len(),
{
    if s.len() == 0 {
        s
    } else if s.drop_last().contains(s.last()) {
        dedup_first(s.drop_last())
    } else {
        dedup_first(s.drop_last()).push(s.last())
    }
}

pub proof fn lemma_push_contains<A>(s: Seq<A>, e: A)
    ensures
        forall|x: A| #[trigger] s.push(e).contains(x) <==> (s.contains(x) || x == e),
{
    assert forall|x: A| #[trigger] s.push(e).contains(x) implies (s.contains(x) || x == e) by {
        let j = choose|j: int| 0 <= j < s.push(e).len() && s.push(e)[j] == x;
        if j < s.len() {
            assert(s[j] == x);
        }
    }
    assert forall|x: A| (s.contains(x) || x == e) implies #[trigger] s.push(e).contains(x) by {
        if x == e {
            assert(s.push(e)[s.len() as int] == x);
        } else {
            let j = choose|j: int| 0 <= j < s.len() && s[j] == x;
            assert(s.push(e)[j] == x);
        }
    }
}

pub proof fn lemma_dedup_first(s: Seq<int>)
    ensures
        forall|x: int| #[trigger] dedup_first(s).contains(x) <==> s.contains(x),
        no_dups(dedup_first(s)),
    decreases s.len(),
{
    if s.len() == 0 {
    } else {
        let d = dedup_first(s.drop_last());
        lemma_dedup_first(s.drop_last());
        lemma_push_contains(s.drop_last(), s.last());
        assert(s =~= s.drop_last().push(s.last()));
        if s.drop_last().contains(s.last()) {
            assert forall|x: int| #[trigger] dedup_first(s).contains(x) <==> s.contains(x) by {
                assert(d.contains(x) <==> s.drop_last().contains(x));
            }
        } else {
            lemma_push_contains(d, s.last());
            assert forall|j1: int, j2: int|
                0 <= j1 < j2 < d.push(s.last()).len() implies d.push(s.last())[j1] != d.push(
                s.last(),
            )[j2] by {
                if j2 < d.len() {
                    assert(d[j1] != d[j2]);
                } else {
                    if d[j1] == s.last() {
                        assert(d.contains(d[j1]));
                    }
                }
            }
        }
    }
}

pub proof fn lemma_remove_lit(c: Seq<int>, y: int)
    ensures
        forall|x: int| #[trigger] remove_lit(c, y).contains(x) <==> (c.contains(x) && x != y),
        remove_lit(c, y).len() <= c.len(),
        c.contains(y) ==> remove_lit(c, y).len() < c.len(),
        !c.contains(y) ==> remove_lit(c, y) == c,
        no_dups(c) ==> no_dups(remove_lit(c, y)),
    decreases c.len(),
{
    if c.len() == 0 {
        assert(remove_lit(c, y) =~= c);
    } else {
        let r = remove_lit(c.drop_last(), y);
        lemma_remove_lit(c.drop_last(), y);
        lemma_push_contains(c.drop_last(), c.last());
        assert(c =~= c.drop_last().push(c.last()));
        if c.last() == y {
            assert(c.contains(y)) by {
                assert(c[c.len() - 1] == y);
            }
        } else {
            lemma_push_contains(r, c.last());
            if !c.contains(y) {
                assert(remove_lit(c, y) =~= c);
            }
            if no_dups(c) {
                assert forall|j1: int, j2: int|
                    0 <= j1 < j2 < r.push(c.last()).len() implies r.push(c.last())[j1] != r.push(
                    c.last(),
                )[j2] by {
                    assert(no_dups(c.drop_last())) by {
                        assert(forall|i1: int, i2: int|
                            0 <= i1 < i2 < c.drop_last().len() ==> c[i1] == c.drop_last()[i1]
                                && c[i2] == c.drop_last()[i2]);
                    }
                    if j2 < r.len() {
                        assert(r[j1] != r[j2]);
                    } else {
                        if r[j1] == c.last() {
                            assert(r.contains(r[j1]));
                            assert(c.drop_last().contains(c.last()));
                            let k = choose|k: int|
                                0 <= k < c.drop_last().len() && c.drop_last()[k] == c.last();
                            assert(c[k] == c[c.len() - 1]);
                        }
                    }
                }
            }
        }
    }
}

pub proof fn lemma_total_lits_push(f: Seq<Seq<int>>, c: Seq<int>)
    ensures
        total_lits(f.push(c)) == total_lits(f) + c.len(),
{
    assert(f.push(c).drop_last() =~= f);
    assert(f.push(c).last() == c);
}

pub proof fn lemma_take_full<A>(s: Seq<A>)
    ensures
        s.take(s.len() as int) == s,
{
    assert(s.take(s.len() as int) =~= s);
}

pub proof fn lemma_clause_sat_monotone(m1: Set<int>, m2: Set<int>, c: Seq<int>)
    requires
        m1.subset_of(m2),
        clause_sat(m1, c),
    ensures
        clause_sat(m2, c),
{
    let j = choose|j: int| 0 <= j < c.len() && m1.contains(#[trigger] c[j]);
    assert(m2.contains(c[j]));
}

pub proof fn lemma_cnf_sat_monotone(m1: Set<int>, m2: Set<int>, f: Seq<Seq<int>>)
    requires
        m1.subset_of(m2),
        cnf_sat(m1, f),
    ensures
        cnf_sat(m2, f),
{
    assert forall|i: int| 0 <= i < f.len() implies clause_sat(m2, #[trigger] f[i]) by {
        lemma_clause_sat_monotone(m1, m2, f[i]);
    }
}

/// Splitting `occurs` at the final clause.
pub proof fn lemma_occurs_unsnoc(f: Seq<Seq<int>>)
    requires
        f.len() > 0,
    ensures
        forall|x: int| #[trigger] occurs(f, x) <==> occurs(f.drop_last(), x) || f.last().contains(
            x,
        ),
{
    assert forall|x: int| #[trigger] occurs(f, x) implies occurs(f.drop_last(), x)
        || f.last().contains(x) by {
        let i = choose|i: int| 0 <= i < f.len() && (#[trigger] f[i]).contains(x);
        if i < f.len() - 1 {
            assert(f.drop_last()[i].contains(x));
        }
    }
    assert forall|x: int| occurs(f.drop_last(), x) || f.last().contains(x) implies #[trigger] occurs(
        f,
        x,
    ) by {
        if occurs(f.drop_last(), x) {
            let i = choose|i: int|
                0 <= i < f.drop_last().len() && (#[trigger] f.drop_last()[i]).contains(x);
            assert(f[i].contains(x));
        } else {
            assert(f[f.len() - 1].contains(x));
        }
    }
}

/// Splitting `cnf_sat` at the final clause.
pub proof fn lemma_cnf_sat_unsnoc(m: Set<int>, f: Seq<Seq<int>>)
    requires
        f.len() > 0,
    ensures
        cnf_sat(m, f) <==> (cnf_sat(m, f.drop_last()) && clause_sat(m, f.last())),
{
    if cnf_sat(m, f) {
        assert forall|i: int| 0 <= i < f.drop_last().len() implies clause_sat(
            m,
            #[trigger] f.drop_last()[i],
        ) by {
            assert(clause_sat(m, f[i]));
        }
        assert(clause_sat(m, f[f.len() - 1]));
    }
    if cnf_sat(m, f.drop_last()) && clause_sat(m, f.last()) {
        assert forall|i: int| 0 <= i < f.len() implies clause_sat(m, #[trigger] f[i]) by {
            if i < f.len() - 1 {
                assert(clause_sat(m, f.drop_last()[i]));
            }
        }
    }
}

pub proof fn lemma_cnf_wf_unsnoc(f: Seq<Seq<int>>)
    requires
        f.len() > 0,
        cnf_wf(f),
    ensures
        cnf_wf(f.drop_last()),
        clause_wf(f.last()),
{
    assert forall|i: int| 0 <= i < f.drop_last().len() implies clause_wf(
        #[trigger] f.drop_last()[i],
    ) by {
        assert(clause_wf(f[i]));
    }
    assert(clause_wf(f[f.len() - 1]));
}

/// A reduced formula is still well-formed.
pub proof fn lemma_reduce_wf(f: Seq<Seq<int>>, l: int)
    requires
        cnf_wf(f),
    ensures
        cnf_wf(reduce_spec(f, l)),
    decreases f.len(),
{
    if f.len() == 0 {
    } else {
        lemma_cnf_wf_unsnoc(f);
        let rest = reduce_spec(f.drop_last(), l);
        lemma_reduce_wf(f.drop_last(), l);
        if !f.last().contains(l) {
            let rc = remove_lit(f.last(), -l);
            lemma_remove_lit(f.last(), -l);
            assert(clause_wf(rc)) by {
                assert forall|j: int| 0 <= j < rc.len() implies lit_wf(#[trigger] rc[j]) by {
                    assert(rc.contains(rc[j]));
                    let k = choose|k: int| 0 <= k < f.last().len() && f.last()[k] == rc[j];
                    assert(lit_wf(f.last()[k]));
                }
            }
            assert forall|i: int| 0 <= i < rest.push(rc).len() implies clause_wf(
                #[trigger] rest.push(rc)[i],
            ) by {
                if i < rest.len() {
                    assert(clause_wf(rest[i]));
                }
            }
        }
    }
}

/// Reduction only erases: whatever occurs afterwards occurred before, and
/// neither the forced literal nor its negation survives.
pub proof fn lemma_reduce_occurs(f: Seq<Seq<int>>, l: int)
    ensures
        forall|x: int| #[trigger] occurs(reduce_spec(f, l), x) ==> occurs(f, x) && x != l && x
            != -l,
    decreases f.len(),
{
    if f.len() == 0 {
    } else {
        let rest = reduce_spec(f.drop_last(), l);
        lemma_reduce_occurs(f.drop_last(), l);
        lemma_occurs_unsnoc(f);
        if f.last().contains(l) {
            assert forall|x: int| #[trigger] occurs(reduce_spec(f, l), x) implies occurs(f, x) && x
                != l && x != -l by {
                assert(occurs(f.drop_last(), x));
            }
        } else {
            let rc = remove_lit(f.last(), -l);
            lemma_remove_lit(f.last(), -l);
            lemma_occurs_unsnoc(rest.push(rc));
            assert(rest.push(rc).drop_last() =~= rest);
            assert forall|x: int| #[trigger] occurs(reduce_spec(f, l), x) implies occurs(f, x) && x
                != l && x != -l by {
                if occurs(rest, x) {
                    assert(occurs(f.drop_last(), x));
                } else {
                    assert(rc.contains(x));
                    assert(f.last().contains(x) && x != -l);
                    assert(x != l);
                }
            }
        }
    }
}

/// Reduction shrinks the literal count, strictly when the forced literal's
/// variable occurs at all.
pub proof fn lemma_reduce_total(f: Seq<Seq<int>>, l: int)
    ensures
        total_lits(reduce_spec(f, l)) <= total_lits(f),
        occurs(f, l) || occurs(f, -l) ==> total_lits(reduce_spec(f, l)) < total_lits(f),
    decreases f.len(),
{
    if f.len() == 0 {
    } else {
        let rest = reduce_spec(f.drop_last(), l);
        lemma_reduce_total(f.drop_last(), l);
        lemma_occurs_unsnoc(f);
        if f.last().contains(l) {
            assert(f.last().len() >= 1);
        } else {
            let rc = remove_lit(f.last(), -l);
            lemma_remove_lit(f.last(), -l);
            lemma_total_lits_push(rest, rc);
            if occurs(f, l) || occurs(f, -l) {
                if f.last().contains(-l) {
                    assert(rc.len() < f.last().len());
                } else {
                    assert(occurs(f.drop_last(), l) || occurs(f.drop_last(), -l));
                }
            }
        }
    }
}

/// Soundness of one reduction step: an assignment holding the forced
/// literal and satisfying the reduced formula satisfies the original.
pub proof fn lemma_reduce_sound(f: Seq<Seq<int>>, l: int, m: Set<int>)
    requires
        m.contains(l),
        cnf_sat(m, reduce_spec(f, l)),
    ensures
        cnf_sat(m, f),
    decreases f.len(),
{
    if f.len() == 0 {
    } else {
        let rest = reduce_spec(f.drop_last(), l);
        if f.last().contains(l) {
            lemma_reduce_sound(f.drop_last(), l, m);
            lemma_cnf_sat_unsnoc(m, f);
            assert(clause_sat(m, f.last())) by {
                let k = choose|k: int| 0 <= k < f.last().len() && f.last()[k] == l;
                assert(m.contains(f.last()[k]));
            }
        } else {
            let rc = remove_lit(f.last(), -l);
            lemma_cnf_sat_push(m, rest, rc);
            lemma_reduce_sound(f.drop_last(), l, m);
            lemma_cnf_sat_unsnoc(m, f);
            assert(clause_sat(m, f.last())) by {
                let j = choose|j: int| 0 <= j < rc.len() && m.contains(#[trigger] rc[j]);
                lemma_remove_lit(f.last(), -l);
                assert(rc.contains(rc[j]));
                let k = choose|k: int| 0 <= k < f.last().len() && f.last()[k] == rc[j];
                assert(m.contains(f.last()[k]));
            }
        }
    }
}

/// Splitting `cnf_sat` over a push.
pub proof fn lemma_cnf_sat_push(m: Set<int>, f: Seq<Seq<int>>, c: Seq<int>)
    ensures
        cnf_sat(m, f.push(c)) <==> (cnf_sat(m, f) && clause_sat(m, c)),
{
    lemma_cnf_sat_unsnoc(m, f.push(c));
    assert(f.push(c).drop_last() =~= f);
    assert(f.push(c).last() == c);
}

/// Completeness of one reduction step for a forced literal: a consistent
/// assignment holding the literal and satisfying the original formula
/// satisfies the reduced one.
pub proof fn lemma_reduce_complete(f: Seq<Seq<int>>, l: int, m: Set<int>)
    requires
        consistent(m),
        m.contains(l),
        cnf_sat(m, f),
    ensures
        cnf_sat(m, reduce_spec(f, l)),
    decreases f.len(),
{
    if f.len() == 0 {
    } else {
        let rest = reduce_spec(f.drop_last(), l);
        lemma_cnf_sat_unsnoc(m, f);
        lemma_reduce_complete(f.drop_last(), l, m);
        if !f.last().contains(l) {
            let rc = remove_lit(f.last(), -l);
            lemma_remove_lit(f.last(), -l);
            assert(clause_sat(m, rc)) by {
                let j = choose|j: int| 0 <= j < f.last().len() && m.contains(#[trigger] f.last()[j]);
                assert(f.last()[j] != -l) by {
                    assert(m.contains(l));
                }
                assert(f.last().contains(f.last()[j]));
                assert(rc.contains(f.last()[j]));
                let k = choose|k: int| 0 <= k < rc.len() && rc[k] == f.last()[j];
                assert(m.contains(rc[k]));
            }
            lemma_cnf_sat_push(m, rest, rc);
        }
    }
}

/// Completeness of one reduction step for a pure literal: when the
/// literal's negation never occurs, every satisfying assignment of the
/// original formula still satisfies the reduced one.
pub proof fn lemma_reduce_complete_pure(f: Seq<Seq<int>>, l: int, m: Set<int>)
    requires
        !occurs(f, -l),
        cnf_sat(m, f),
    ensures
        cnf_sat(m, reduce_spec(f, l)),
    decreases f.len(),
{
    if f.len() == 0 {
    } else {
        let rest = reduce_spec(f.drop_last(), l);
        lemma_occurs_unsnoc(f);
        lemma_cnf_sat_unsnoc(m, f);
        lemma_reduce_complete_pure(f.drop_last(), l, m);
        if !f.last().contains(l) {
            let rc = remove_lit(f.last(), -l);
            lemma_remove_lit(f.last(), -l);
            assert(!f.last().contains(-l));
            assert(rc == f.last());
            lemma_cnf_sat_push(m, rest, rc);
        }
    }
}

/// A unit clause forces its literal in every satisfying assignment.
pub proof fn lemma_unit_forces(f: Seq<Seq<int>>, i: int, m: Set<int>)
    requires
        0 <= i < f.len(),
        f[i].len() == 1,
        cnf_sat(m, f),
    ensures
        m.contains(f[i][0]),
{
    assert(clause_sat(m, f[i]));
    let j = choose|j: int| 0 <= j < f[i].len() && m.contains(#[trigger] f[i][j]);
    assert(j == 0);
}

/// Pure-literal elimination preserves satisfiability: the clauses dropped
/// because they contained the pure literal `l` are all satisfied once `l`
/// is set true, so a model of the reduced formula extends to a model of the
/// original one.
pub proof fn lemma_pure_elimination_preserves_sat(f: Seq<Seq<int>>, l: int, m: Set<int>)
    requires
        pure_in(f, l),
        consistent(m),
        !m.contains(-l),
        cnf_sat(m, reduce_spec(f, l)),
    ensures
        consistent(m.insert(l)),
        cnf_sat(m.insert(l), f),
{
    assert(l != 0) by {
        if l == 0 {
            assert(occurs(f, l) && !occurs(f, -l));
        }
    }
    assert(consistent(m.insert(l))) by {
        assert forall|x: int| #[trigger] m.insert(l).contains(x) implies !m.insert(l).contains(
            -x,
        ) by {
            if x == l {
                assert(!m.contains(-l));
            } else {
                assert(m.contains(x));
                assert(!m.contains(-x));
                if -x == l {
                    assert(m.contains(-l));
                }
            }
        }
    }
    lemma_cnf_sat_monotone(m, m.insert(l), reduce_spec(f, l));
    lemma_reduce_sound(f, l, m.insert(l));
}

} // verus!
