//! A SAT solver for formulas in conjunctive normal form: DPLL search with unit propagation.
//!
//! Variable `v` has the positive literal `2 * v` and the negative literal `2 * v + 1`. A
//! clause is the disjunction of its literals, a formula the conjunction of its clauses. A
//! (partial) assignment gives each variable `Some(value)` or `None` (unassigned).

use vstd::prelude::*;

verus! {

/// A variable or its negation: `2 * v` for `v`, `2 * v + 1` for its negation.
pub type Literal = usize;

/// A disjunction of literals.
pub type Clause = Vec<Literal>;

/// A partial assignment: `None` for an unassigned variable.
pub type Assignment = Vec<Option<bool>>;

/// The variable of literal `l`.
pub open spec fn lit_var(l: usize) -> int {
    l as int / 2
}

/// The value of its variable that makes literal `l` true.
pub open spec fn lit_sign(l: usize) -> bool {
    l % 2 == 0
}

/// Literal `l` is true under `a`.
pub open spec fn lit_true(a: Seq<Option<bool>>, l: usize) -> bool {
    a[lit_var(l)] == Some(lit_sign(l))
}

/// The variable of literal `l` is unassigned under `a`.
pub open spec fn lit_unassigned(a: Seq<Option<bool>>, l: usize) -> bool {
    a[lit_var(l)] is None
}

/// Clause `c` is satisfied under `a`: one of its literals is true.
pub open spec fn clause_sat(a: Seq<Option<bool>>, c: Seq<usize>) -> bool {
    exists|k: int| 0 <= k < c.len() && #[trigger] lit_true(a, c[k])
}

/// Every clause of `cs` is satisfied under `a`.
pub open spec fn formula_sat(a: Seq<Option<bool>>, cs: Seq<Seq<usize>>) -> bool {
    forall|i: int| 0 <= i < cs.len() ==> #[trigger] clause_sat(a, cs[i])
}

/// `b` keeps every value that `a` assigns, and may assign more.
pub open spec fn extends(b: Seq<Option<bool>>, a: Seq<Option<bool>>) -> bool {
    &&& b.len() == a.len()
    &&& forall|v: int| 0 <= v < a.len() && a[v] is Some ==> #[trigger] b[v] == a[v]
}

/// Some extension of `a` satisfies every clause of `cs`.
pub open spec fn satisfiable_from(cs: Seq<Seq<usize>>, a: Seq<Option<bool>>) -> bool {
    exists|b: Seq<Option<bool>>| extends(b, a) && #[trigger] formula_sat(b, cs)
}

/// The number of positions before `n` in clause `c` whose variable `a` leaves unassigned.
pub open spec fn count_unassigned(a: Seq<Option<bool>>, c: Seq<usize>, n: int) -> nat
    decreases n,
{
    if n <= 0 {
        0
    } else {
        count_unassigned(a, c, n - 1) + if lit_unassigned(a, c[n - 1]) {
            1nat
        } else {
            0nat
        }
    }
}

/// The last position before `n` in clause `c` whose variable `a` leaves unassigned, or -1.
pub open spec fn last_unassigned(a: Seq<Option<bool>>, c: Seq<usize>, n: int) -> int
    decreases n,
{
    if n <= 0 {
        -1
    } else if lit_unassigned(a, c[n - 1]) {
        n - 1
    } else {
        last_unassigned(a, c, n - 1)
    }
}

/// Clause `c` is a unit clause under `a`: not satisfied, and with exactly one position whose
/// variable is unassigned.
pub open spec fn is_unit(a: Seq<Option<bool>>, c: Seq<usize>) -> bool {
    !clause_sat(a, c) && count_unassigned(a, c, c.len() as int) == 1
}

/// The literal of a unit clause that is still open.
pub open spec fn unit_literal(a: Seq<Option<bool>>, c: Seq<usize>) -> usize {
    c[last_unassigned(a, c, c.len() as int)]
}

/// The number of unassigned variables of `a`.
pub open spec fn n_unassigned(a: Seq<Option<bool>>) -> nat
    decreases a.len(),
{
    if a.len() == 0 {
        0
    } else {
        n_unassigned(a.drop_last()) + if a.last() is None {
            1nat
        } else {
            0nat
        }
    }
}

proof fn lemma_last_unassigned(a: Seq<Option<bool>>, c: Seq<usize>, n: int)
    requires
        0 <= n <= c.len(),
    ensures
        count_unassigned(a, c, n) == 0 <==> last_unassigned(a, c, n) == -1,
        last_unassigned(a, c, n) != -1 ==> 0 <= last_unassigned(a, c, n) < n
            && lit_unassigned(a, c[last_unassigned(a, c, n)]),
        count_unassigned(a, c, n) == 0 ==> forall|q: int|
            0 <= q < n ==> !lit_unassigned(a, #[trigger] c[q]),
        count_unassigned(a, c, n) == 1 ==> forall|q: int|
            0 <= q < n && q != last_unassigned(a, c, n) ==> !lit_unassigned(a, #[trigger] c[q]),
    decreases n,
{
    if n > 0 {
        lemma_last_unassigned(a, c, n - 1);
    }
}

/// Some position of clause `c` has a variable that `a` leaves unassigned.
pub open spec fn clause_open(a: Seq<Option<bool>>, c: Seq<usize>) -> bool {
    exists|q: int| 0 <= q < c.len() && #[trigger] lit_unassigned(a, c[q])
}

/// Some clause of `cs` is falsified under `a`: not satisfied, and with every variable
/// assigned.
pub open spec fn has_conflict(cs: Seq<Seq<usize>>, a: Seq<Option<bool>>) -> bool {
    exists|i: int| 0 <= i < cs.len() && !clause_sat(a, #[trigger] cs[i]) && !clause_open(a, cs[i])
}

/// Every literal of every clause of `cs` is over a variable below `n`.
pub open spec fn vars_below(cs: Seq<Seq<usize>>, n: int) -> bool {
    forall|i: int, k: int| 0 <= i < cs.len() && 0 <= k < cs[i].len() ==> lit_var(#[trigger] cs[i][k]) < n
}

/// The assignment of `n` variables that assigns none.
pub open spec fn unassigned(n: nat) -> Seq<Option<bool>> {
    Seq::new(n, |i: int| None::<bool>)
}

/// Clause `i` of `cs` is the first unit clause under `a`.
pub open spec fn first_unit_at(cs: Seq<Seq<usize>>, a: Seq<Option<bool>>, i: int) -> bool {
    &&& 0 <= i < cs.len()
    &&& is_unit(a, cs[i])
    &&& forall|j: int| 0 <= j < i ==> !is_unit(a, #[trigger] cs[j])
}

/// The open literal of the first unit clause of `cs` under `a`, if there is one.
pub open spec fn first_unit(cs: Seq<Seq<usize>>, a: Seq<Option<bool>>) -> Option<usize> {
    if exists|i: int| #[trigger] first_unit_at(cs, a, i) {
        Some(unit_literal(a, cs[choose|i: int| #[trigger] first_unit_at(cs, a, i)]))
    } else {
        None
    }
}

/// Unit propagation from `a`: the open literal of the first unit clause is made true, until
/// no clause is a unit clause.
pub open spec fn propagate(cs: Seq<Seq<usize>>, a: Seq<Option<bool>>) -> Seq<Option<bool>>
    decreases n_unassigned(a),
{
    match first_unit(cs, a) {
        Some(l) => {
            let a2 = a.update(lit_var(l), Some(lit_sign(l)));
            if n_unassigned(a2) < n_unassigned(a) {
                propagate(cs, a2)
            } else {
                a
            }
        },
        None => a,
    }
}

/// Variable `v` is the first that `a` leaves unassigned.
pub open spec fn first_unassigned_at(a: Seq<Option<bool>>, v: int) -> bool {
    &&& 0 <= v < a.len()
    &&& a[v] is None
    &&& forall|u: int| 0 <= u < v ==> #[trigger] a[u] is Some
}

/// What DPLL search from `a` ends with: whether some extension of `a` satisfies `cs`, and
/// the assignment it leaves. After unit propagation, a falsified clause fails, a satisfied
/// formula succeeds, and otherwise the first unassigned variable is tried as `true`, then
/// as `false`; when both fail the propagated assignment is left.
pub open spec fn dpll_outcome(cs: Seq<Seq<usize>>, a: Seq<Option<bool>>) -> (bool, Seq<Option<bool>>)
    decreases n_unassigned(a),
{
    let a1 = propagate(cs, a);
    if has_conflict(cs, a1) {
        (false, a1)
    } else if formula_sat(a1, cs) {
        (true, a1)
    } else if exists|v: int| #[trigger] first_unassigned_at(a1, v) {
        let v = choose|v: int| #[trigger] first_unassigned_at(a1, v);
        let t = a1.update(v, Some(true));
        let f = a1.update(v, Some(false));
        if n_unassigned(t) < n_unassigned(a) && n_unassigned(f) < n_unassigned(a) {
            let r1 = dpll_outcome(cs, t);
            if r1.0 {
                r1
            } else {
                let r2 = dpll_outcome(cs, f);
                if r2.0 {
                    r2
                } else {
                    (false, a1)
                }
            }
        } else {
            (false, a1)
        }
    } else {
        (false, a1)
    }
}

/// The first unit clause is one clause.
proof fn lemma_first_unit(cs: Seq<Seq<usize>>, a: Seq<Option<bool>>, i: int)
    requires
        first_unit_at(cs, a, i),
    ensures
        first_unit(cs, a) == Some(unit_literal(a, cs[i])),
{
    let k = choose|k: int| #[trigger] first_unit_at(cs, a, k);
    assert(first_unit_at(cs, a, k));
    if k < i {
        assert(!is_unit(a, cs[k]));
    }
    if i < k {
        assert(!is_unit(a, cs[i]));
    }
}

/// The first unassigned variable is one variable.
proof fn lemma_first_unassigned(a: Seq<Option<bool>>, v: int)
    requires
        first_unassigned_at(a, v),
    ensures
        (choose|w: int| #[trigger] first_unassigned_at(a, w)) == v,
{
    let w = choose|w: int| #[trigger] first_unassigned_at(a, w);
    assert(first_unassigned_at(a, w));
    if w < v {
        assert(a[w] is Some);
    }
    if v < w {
        assert(a[v] is Some);
    }
}

proof fn lemma_n_unassigned_update(a: Seq<Option<bool>>, v: int, x: bool)
    requires
        0 <= v < a.len(),
        a[v] is None,
    ensures
        n_unassigned(a.update(v, Some(x))) + 1 == n_unassigned(a),
    decreases a.len(),
{
    let b = a.update(v, Some(x));
    if v < a.len() - 1 {
        assert(b.drop_last() =~= a.drop_last().update(v, Some(x)));
        lemma_n_unassigned_update(a.drop_last(), v, x);
    } else {
        assert(b.drop_last() =~= a.drop_last());
    }
}

proof fn lemma_n_unassigned_extends(b: Seq<Option<bool>>, a: Seq<Option<bool>>)
    requires
        extends(b, a),
    ensures
        n_unassigned(b) <= n_unassigned(a),
    decreases a.len(),
{
    if a.len() > 0 {
        assert(extends(b.drop_last(), a.drop_last()));
        lemma_n_unassigned_extends(b.drop_last(), a.drop_last());
    }
}

/// Unit propagation keeps the satisfiable extensions: every extension that satisfies the
/// formula makes the open literal of a unit clause true.
proof fn lemma_unit_propagation(cs: Seq<Seq<usize>>, a: Seq<Option<bool>>, i: int)
    requires
        0 <= i < cs.len(),
        is_unit(a, cs[i]),
        forall|k: int| 0 <= k < cs[i].len() ==> 0 <= lit_var(#[trigger] cs[i][k]) < a.len(),
    ensures
        satisfiable_from(cs, a) == satisfiable_from(
            cs,
            a.update(lit_var(unit_literal(a, cs[i])), Some(lit_sign(unit_literal(a, cs[i])))),
        ),
{
    let c = cs[i];
    let l = unit_literal(a, c);
    let a2 = a.update(lit_var(l), Some(lit_sign(l)));
    lemma_last_unassigned(a, c, c.len() as int);
    let p = last_unassigned(a, c, c.len() as int);
    if satisfiable_from(cs, a) {
        let b = choose|b: Seq<Option<bool>>| extends(b, a) && #[trigger] formula_sat(b, cs);
        assert(clause_sat(b, c));
        let k = choose|k: int| 0 <= k < c.len() && #[trigger] lit_true(b, c[k]);
        if k != p {
            assert(!lit_unassigned(a, c[k]));
            assert(lit_true(a, c[k]));
            assert(false);
        }
        assert(extends(b, a2));
    }
    if satisfiable_from(cs, a2) {
        let b = choose|b: Seq<Option<bool>>| extends(b, a2) && #[trigger] formula_sat(b, cs);
        assert(extends(b, a));
    }
}

/// A clause that is not satisfied and whose variables are all assigned stays unsatisfied
/// in every extension.
proof fn lemma_conflict(cs: Seq<Seq<usize>>, a: Seq<Option<bool>>, i: int)
    requires
        0 <= i < cs.len(),
        !clause_sat(a, cs[i]),
        forall|k: int|
            0 <= k < cs[i].len() ==> 0 <= lit_var(#[trigger] cs[i][k]) < a.len() && !lit_unassigned(
                a,
                cs[i][k],
            ),
    ensures
        !satisfiable_from(cs, a),
{
    if satisfiable_from(cs, a) {
        let b = choose|b: Seq<Option<bool>>| extends(b, a) && #[trigger] formula_sat(b, cs);
        assert(clause_sat(b, cs[i]));
        let k = choose|k: int| 0 <= k < cs[i].len() && #[trigger] lit_true(b, cs[i][k]);
        assert(lit_true(a, cs[i][k]));
    }
}

/// A formula in conjunctive normal form over the variables `0..num_vars`.
pub struct CNF {
    num_vars: usize,
    clauses: Vec<Clause>,
}

impl CNF {
    /// The number of variables.
    pub closed spec fn spec_num_vars(&self) -> nat {
        self.num_vars as nat
    }

    /// The clauses, each as the sequence of its literals.
    pub closed spec fn formula(&self) -> Seq<Seq<usize>> {
        self.clauses@.map_values(|c: Clause| c@)
    }

    /// Every literal of every clause is over one of the variables.
    pub open spec fn wf(&self) -> bool {
        vars_below(self.formula(), self.spec_num_vars() as int)
    }

    /// Some assignment of the variables satisfies the formula.
    pub open spec fn satisfiable(&self) -> bool {
        exists|b: Seq<Option<bool>>|
            b.len() == self.spec_num_vars() && #[trigger] formula_sat(b, self.formula())
    }

    /// The formula over `num_vars` variables with no clauses.
    pub fn new(num_vars: usize) -> (cnf: CNF)
        ensures
            cnf.spec_num_vars() == num_vars,
            cnf.formula() == Seq::<Seq<usize>>::empty(),
            cnf.wf(),
    {
        let cnf = CNF { num_vars, clauses: Vec::new() };
        assert(cnf.formula() =~= Seq::<Seq<usize>>::empty());
        cnf
    }

    /// The number of variables.
    pub fn num_vars(&self) -> (n: usize)
        ensures
            n == self.spec_num_vars(),
    {
        self.num_vars
    }

    /// Adds the clause `clause` to the formula. The formula stays well formed exactly when
    /// every literal of the clause is over one of the variables.
    pub fn add_clause(&mut self, clause: Clause)
        ensures
            final(self).spec_num_vars() == old(self).spec_num_vars(),
            final(self).formula() == old(self).formula().push(clause@),
            final(self).wf() <==> old(self).wf() && forall|k: int|
                0 <= k < clause@.len() ==> lit_var(#[trigger] clause@[k]) < old(self).spec_num_vars(),
    {
        let ghost c = clause@;
        self.clauses.push(clause);
        let ghost f = self.formula();
        assert(f =~= old(self).formula().push(c));
        assert(f[f.len() - 1] == c);
        assert forall|i: int, k: int|
            0 <= i < old(self).formula().len() && 0 <= k < old(self).formula()[i].len() implies
            #[trigger] old(self).formula()[i][k] == f[i][k] by {}
    }

    /// Whether `clause` is satisfied under `assignment`: one of its literals is true.
    pub fn is_clause_satisfied(&self, clause: &Clause, assignment: &Assignment) -> (sat: bool)
        requires
            forall|k: int| 0 <= k < clause@.len() ==> lit_var(#[trigger] clause@[k])
                < assignment@.len(),
        ensures
            sat == clause_sat(assignment@, clause@),
    {
        let n = clause.len();
        for k in 0..n
            invariant
                n == clause@.len(),
                forall|k: int| 0 <= k < clause@.len() ==> lit_var(#[trigger] clause@[k])
                    < assignment@.len(),
                forall|q: int| 0 <= q < k ==> !lit_true(assignment@, #[trigger] clause@[q]),
        {
            let lit = clause[k];
            let var = lit / 2;
            let positive = lit % 2 == 0;
            if let Some(val) = assignment[var] {
                if val == positive {
                    assert(lit_true(assignment@, clause@[k as int]));
                    return true;
                }
            }
        }
        false
    }

    /// The open literal of the first unit clause under `assignment`, if there is one: the
    /// first clause that is not satisfied and has exactly one position whose variable is
    /// unassigned.
    pub fn find_unit_clause(&self, assignment: &Assignment) -> (unit: Option<Literal>)
        requires
            vars_below(self.formula(), assignment@.len() as int),
        ensures
            unit is None ==> forall|i: int|
                0 <= i < self.formula().len() ==> !is_unit(assignment@, #[trigger] self.formula()[i]),
            unit is Some ==> exists|i: int|
                0 <= i < self.formula().len() && is_unit(assignment@, #[trigger] self.formula()[i])
                    && unit == Some(unit_literal(assignment@, self.formula()[i])) && forall|j: int|
                    0 <= j < i ==> !is_unit(assignment@, #[trigger] self.formula()[j]),
    {
        let nc = self.clauses.len();
        for ci in 0..nc
            invariant
                nc == self.clauses@.len(),
                vars_below(self.formula(), assignment@.len() as int),
                forall|j: int| 0 <= j < ci ==> !is_unit(assignment@, #[trigger] self.formula()[j]),
        {
            let clause = &self.clauses[ci];
            let ghost c = clause@;
            assert(c == self.formula()[ci as int]);
            let mut unassigned_lit: Option<Literal> = None;
            let mut count: usize = 0;
            let mut satisfied = false;
            let n = clause.len();
            let mut k: usize = 0;
            while k < n
                invariant_except_break
                    !satisfied,
                invariant
                    n == c.len(),
                    clause@ == c,
                    k <= n,
                    0 <= ci < self.formula().len(),
                    forall|j: int| 0 <= j < ci ==> !is_unit(assignment@, #[trigger] self.formula()[j]),
                    c == self.formula()[ci as int],
                    forall|q: int| 0 <= q < c.len() ==> lit_var(#[trigger] c[q]) < assignment@.len(),
                    !satisfied ==> forall|q: int| 0 <= q < k ==> !lit_true(assignment@, #[trigger] c[q]),
                    !satisfied ==> count == count_unassigned(assignment@, c, k as int),
                    !satisfied ==> count <= k,
                    !satisfied ==> (unassigned_lit is None <==> last_unassigned(assignment@, c, k as int)
                        == -1),
                    !satisfied ==> (unassigned_lit is Some ==> unassigned_lit == Some(
                        c[last_unassigned(assignment@, c, k as int)],
                    )),
                    satisfied ==> clause_sat(assignment@, c),
                ensures
                    satisfied ==> clause_sat(assignment@, c),
                    !satisfied ==> k == n,
                decreases n - k,
            {
                let lit = clause[k];
                let var = lit / 2;
                let positive = lit % 2 == 0;
                proof {
                    lemma_last_unassigned(assignment@, c, k as int);
                }
                match assignment[var] {
                    Some(val) => {
                        if val == positive {
                            assert(lit_true(assignment@, c[k as int]));
                            satisfied = true;
                            break;
                        }
                    },
                    None => {
                        unassigned_lit = Some(lit);
                        count += 1;
                    },
                }
                k += 1;
            }
            proof {
                lemma_last_unassigned(assignment@, c, n as int);
            }
            if !satisfied && count == 1 {
                assert(is_unit(assignment@, self.formula()[ci as int]));
                assert(last_unassigned(assignment@, c, n as int) != -1);
                assert(unassigned_lit == Some(unit_literal(assignment@, self.formula()[ci as int])));
                assert(forall|j: int|
                    0 <= j < ci ==> !is_unit(assignment@, #[trigger] self.formula()[j]));
                assert(0 <= ci < self.formula().len());
                return unassigned_lit;
            }
        }
        None
    }
    /// DPLL search: unit propagation, then, unless every clause is satisfied or one is
    /// falsified, the first unassigned variable is tried as `true` and then as `false`.
    /// Returns whether some extension of `assignment` satisfies the formula; if so,
    /// `assignment` becomes one that does. Otherwise it keeps the values that unit
    /// propagation gave.
    #[verifier::spinoff_prover]
    pub fn dpll(&self, assignment: &mut Assignment) -> (sat: bool)
        requires
            self.wf(),
            old(assignment)@.len() >= self.spec_num_vars(),
        ensures
            extends(final(assignment)@, old(assignment)@),
            sat == satisfiable_from(self.formula(), old(assignment)@),
            sat ==> formula_sat(final(assignment)@, self.formula()),
            (sat, final(assignment)@) == dpll_outcome(self.formula(), old(assignment)@),
        decreases n_unassigned(old(assignment)@),
    {
        let ghost a0 = assignment@;
        let ghost cs = self.formula();
        // Unit propagation
        loop
            invariant
                self.wf(),
                cs == self.formula(),
                assignment@.len() >= self.spec_num_vars(),
                extends(assignment@, a0),
                satisfiable_from(cs, assignment@) == satisfiable_from(cs, a0),
                propagate(cs, assignment@) == propagate(cs, a0),
            ensures
                propagate(cs, assignment@) == assignment@,
            decreases n_unassigned(assignment@),
        {
            match self.find_unit_clause(assignment) {
                Some(lit) => {
                    let ghost a = assignment@;
                    proof {
                        let i = choose|i: int|
                            0 <= i < cs.len() && is_unit(a, #[trigger] cs[i]) && Some(lit) == Some(
                                unit_literal(a, cs[i]),
                            ) && forall|j: int| 0 <= j < i ==> !is_unit(a, #[trigger] cs[j]);
                        lemma_last_unassigned(a, cs[i], cs[i].len() as int);
                        lemma_unit_propagation(cs, a, i);
                        lemma_n_unassigned_update(a, lit_var(lit), lit_sign(lit));
                        assert(first_unit_at(cs, a, i));
                        lemma_first_unit(cs, a, i);
                    }
                    let var = lit / 2;
                    let val = lit % 2 == 0;
                    assignment.set(var, Some(val));
                    assert(assignment@ == a.update(lit_var(lit), Some(lit_sign(lit))));
                    assert(propagate(cs, a) == propagate(cs, assignment@));
                },
                None => {
                    proof {
                        let a = assignment@;
                        if exists|i: int| #[trigger] first_unit_at(cs, a, i) {
                            let i = choose|i: int| #[trigger] first_unit_at(cs, a, i);
                            assert(is_unit(a, cs[i]));
                        }
                        assert(first_unit(cs, a) is None);
                    }
                    break;
                },
            }
        }
        let ghost a1 = assignment@;
        assert(a1 == propagate(cs, a0));
        proof {
            lemma_n_unassigned_extends(a1, a0);
        }
        // Check whether every clause is satisfied, or some clause falsified
        let mut all_satisfied = true;
        let nc = self.clauses.len();
        for ci in 0..nc
            invariant
                nc == cs.len(),
                self.wf(),
                cs == self.formula(),
                assignment@ == a1,
                a1.len() >= self.spec_num_vars(),
                extends(a1, a0),
                satisfiable_from(cs, a1) == satisfiable_from(cs, a0),
                a0 == old(assignment)@,
                all_satisfied <==> forall|j: int| 0 <= j < ci ==> #[trigger] clause_sat(a1, cs[j]),
                a1 == propagate(cs, a0),
                forall|j: int| 0 <= j < ci ==> clause_sat(a1, #[trigger] cs[j]) || clause_open(a1, cs[j]),
        {
            let clause = &self.clauses[ci];
            assert(clause@ == cs[ci as int]);
            if !self.is_clause_satisfied(clause, assignment) {
                all_satisfied = false;
                // Check whether the clause is falsified (all its variables assigned)
                let mut any_unassigned = false;
                let n = clause.len();
                for k in 0..n
                    invariant_except_break
                        !any_unassigned,
                        forall|q: int| 0 <= q < k ==> !lit_unassigned(a1, #[trigger] clause@[q]),
                    invariant
                        n == clause@.len(),
                        clause@ == cs[ci as int],
                        assignment@ == a1,
                        extends(a1, a0),
                        satisfiable_from(cs, a1) == satisfiable_from(cs, a0),
                        a0 == old(assignment)@,
                        forall|q: int| 0 <= q < clause@.len() ==> lit_var(#[trigger] clause@[q])
                            < a1.len(),
                    ensures
                        !any_unassigned ==> forall|q: int|
                            0 <= q < n ==> !lit_unassigned(a1, #[trigger] clause@[q]),
                        any_unassigned ==> clause_open(a1, clause@),
                {
                    if assignment[clause[k] / 2].is_none() {
                        assert(lit_unassigned(a1, clause@[k as int]));
                        any_unassigned = true;
                        break;
                    }
                }
                if !any_unassigned {
                    proof {
                        lemma_conflict(cs, a1, ci as int);
                        assert(!clause_open(a1, cs[ci as int]));
                        assert(has_conflict(cs, a1));
                    }
                    return false;  // Conflict
                }
            }
        }
        assert(!has_conflict(cs, a1)) by {
            if has_conflict(cs, a1) {
                let i = choose|i: int|
                    0 <= i < cs.len() && !clause_sat(a1, #[trigger] cs[i]) && !clause_open(a1, cs[i]);
                assert(clause_sat(a1, cs[i]) || clause_open(a1, cs[i]));
            }
        }
        if all_satisfied {
            assert(formula_sat(a1, cs));
            return true;
        }
        assert(!formula_sat(a1, cs));
        // Choose an unassigned variable
        let nv = self.num_vars;
        let mut var: Option<usize> = None;
        for v in 0..nv
            invariant_except_break
                var is None,
                forall|u: int| 0 <= u < v ==> a1[u] is Some,
            invariant
                nv == self.spec_num_vars(),
                nv <= a1.len(),
                self.wf(),
                !has_conflict(cs, a1),
                assignment@ == a1,
                extends(a1, a0),
                satisfiable_from(cs, a1) == satisfiable_from(cs, a0),
                a0 == old(assignment)@,
                !formula_sat(a1, cs),
                cs == self.formula(),
            ensures
                var is None ==> forall|u: int| 0 <= u < nv ==> a1[u] is Some,
                var matches Some(v) ==> v < nv && a1[v as int] is None,
                var matches Some(v) ==> first_unassigned_at(a1, v as int),
        {
            if assignment[v].is_none() {
                var = Some(v);
                break;
            }
        }
        match var {
            None => {
                proof {
                    // every clause over the variables below `nv` is decided, so the formula
                    // would be satisfied or falsified
                    let i = choose|i: int| 0 <= i < cs.len() && !#[trigger] clause_sat(a1, cs[i]);
                    assert(clause_open(a1, cs[i]));
                    let q = choose|q: int| 0 <= q < cs[i].len() && #[trigger] lit_unassigned(a1, cs[i][q]);
                    assert(lit_var(cs[i][q]) < nv);
                    assert(a1[lit_var(cs[i][q])] is Some);
                    if exists|v: int| #[trigger] first_unassigned_at(a1, v) {
                        let v = choose|v: int| #[trigger] first_unassigned_at(a1, v);
                        assert(a1[v] is Some);
                    }
                    if satisfiable_from(cs, a1) {
                        let b = choose|b: Seq<Option<bool>>|
                            extends(b, a1) && #[trigger] formula_sat(b, cs);
                        assert(b =~= a1);
                    }
                    assert(!satisfiable_from(cs, a1));
                    assert(!satisfiable_from(cs, a0));
                    assert(a0 == old(assignment)@);
                    assert(!all_satisfied);
                    assert(cs == self.formula());
                }
                return all_satisfied;
            },
            Some(v) => {
                proof {
                    lemma_first_unassigned(a1, v as int);
                    lemma_n_unassigned_update(a1, v as int, true);
                    lemma_n_unassigned_update(a1, v as int, false);
                }
                // Try assigning true
                let mut new_assignment = assignment.clone();
                assert(new_assignment@ =~= a1);
                new_assignment.set(v, Some(true));
                proof {
                    lemma_n_unassigned_update(a1, v as int, true);
                }
                if self.dpll(&mut new_assignment) {
                    *assignment = new_assignment;
                    return true;
                }
                // Try assigning false
                let mut new_assignment = assignment.clone();
                assert(new_assignment@ =~= a1);
                new_assignment.set(v, Some(false));
                proof {
                    lemma_n_unassigned_update(a1, v as int, false);
                }
                if self.dpll(&mut new_assignment) {
                    *assignment = new_assignment;
                    return true;
                }
                proof {
                    if satisfiable_from(cs, a1) {
                        let b = choose|b: Seq<Option<bool>>|
                            extends(b, a1) && #[trigger] formula_sat(b, cs);
                        let b2 = b.update(v as int, Some(true));
                        if b[v as int] == Some(false) {
                            assert(extends(b, a1.update(v as int, Some(false))));
                            assert(formula_sat(b, cs));
                            assert(satisfiable_from(cs, a1.update(v as int, Some(false))));
                        } else {
                            assert forall|i: int| 0 <= i < cs.len() implies #[trigger] clause_sat(
                                b2,
                                cs[i],
                            ) by {
                                assert(clause_sat(b, cs[i]));
                                let k = choose|k: int|
                                    0 <= k < cs[i].len() && #[trigger] lit_true(b, cs[i][k]);
                                assert(lit_true(b2, cs[i][k]));
                            }
                            assert(extends(b2, a1.update(v as int, Some(true))));
                            assert(formula_sat(b2, cs));
                            assert(satisfiable_from(cs, a1.update(v as int, Some(true))));
                        }
                    }
                    assert(!satisfiable_from(cs, a1));
                }
                false
            },
        }
    }

    /// Solves the formula from the empty assignment: a satisfying assignment (in which
    /// variables that no clause needs may stay unassigned), or `None` when there is none.
    pub fn solve(&self) -> (solution: Option<Assignment>)
        requires
            self.wf(),
        ensures
            solution is None <==> !self.satisfiable(),
            solution matches Some(a) ==> a@.len() == self.spec_num_vars() && formula_sat(
                a@,
                self.formula(),
            ),
            solution is Some <==> dpll_outcome(self.formula(), unassigned(self.spec_num_vars())).0,
            solution matches Some(a) ==> a@ == dpll_outcome(
                self.formula(),
                unassigned(self.spec_num_vars()),
            ).1,
    {
        let mut assignment: Assignment = vec![None; self.num_vars];
        let ghost empty = assignment@;
        assert(empty =~= unassigned(self.spec_num_vars()));
        if self.dpll(&mut assignment) {
            Some(assignment)
        } else {
            proof {
                if self.satisfiable() {
                    let b = choose|b: Seq<Option<bool>>|
                        b.len() == self.spec_num_vars() && #[trigger] formula_sat(b, self.formula());
                    assert(extends(b, empty));
                }
            }
            None
        }
    }
}

/// The 3-SAT formula of the benchmark over `x0..x3`:
/// `(x0 | x1 | x2) & (!x0 | x2 | x3) & (x1 | !x2 | x3) & (!x1 | !x3 | x0)`.
pub fn create_test_formula() -> (cnf: CNF)
    ensures
        cnf.wf(),
        cnf.spec_num_vars() == 4,
        cnf.formula() == seq![seq![0usize, 2, 4], seq![1usize, 4, 6], seq![2usize, 5, 6], seq![3usize, 7, 0]],
{
    let mut cnf = CNF::new(4);  // 4 variables: x0, x1, x2, x3
    // (x0 OR x1 OR x2)
    cnf.add_clause(vec![0, 2, 4]);
    // (!x0 OR x2 OR x3)
    cnf.add_clause(vec![1, 4, 6]);
    // (x1 OR !x2 OR x3)
    cnf.add_clause(vec![2, 5, 6]);
    // (!x1 OR !x3 OR x0)
    cnf.add_clause(vec![3, 7, 0]);
    assert(cnf.formula() =~= seq![seq![0usize, 2, 4], seq![1usize, 4, 6], seq![2usize, 5, 6], seq![3usize, 7, 0]]);
    cnf
}

} // verus!
