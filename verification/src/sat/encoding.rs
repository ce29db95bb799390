//! Propositional encodings of total orders over vertices `0..n`.
//!
//! For each ordered pair of vertices `(a, b)` one variable says "`a` comes
//! before `b`". The encoder records, beside the clauses it hands the solver,
//! the same clauses over pairs, so that what the solver answers can be read
//! as a statement about relations on the vertices.
use vstd::prelude::*;

use crate::sat::solver::{all_hold, clause_holds, lit_holds, model_holds, sat_add_clause, sat_clauses, sat_model, sat_new, sat_solve, sat_value, SatSolver, VAR_LIMIT};

verus! {

/// A relation on vertices: `r(a, b)` says that `a` comes before `b`.
pub type Rel = spec_fn(int, int) -> bool;

/// A clause over pairs: a list of `((a, b), p)`, each saying that
/// "`a` before `b`" has the value `p`.
pub type PairClause = Seq<((int, int), bool)>;

/// Some literal of `c` holds for the relation `r`.
pub open spec fn pair_clause_holds(r: Rel, c: PairClause) -> bool {
    exists|k: int| 0 <= k < c.len() && r((#[trigger] c[k]).0.0, c[k].0.1) == c[k].1
}

/// Every clause of `cs` holds for the relation `r`.
pub open spec fn pair_clauses_hold(r: Rel, cs: Seq<PairClause>) -> bool {
    forall|i: int| 0 <= i < cs.len() ==> #[trigger] pair_clause_holds(r, cs[i])
}

/// Adding a clause adds its condition.
pub proof fn lemma_pair_clauses_push(r: Rel, cs: Seq<PairClause>, c: PairClause)
    ensures
        pair_clauses_hold(r, cs.push(c)) == (pair_clauses_hold(r, cs) && pair_clause_holds(r, c)),
{
    if pair_clauses_hold(r, cs) && pair_clause_holds(r, c) {
        assert forall|i: int| 0 <= i < cs.push(c).len() implies #[trigger] pair_clause_holds(r, cs.push(c)[i]) by {
            if i < cs.len() {
                assert(cs.push(c)[i] == cs[i]);
            }
        }
    }
    if pair_clauses_hold(r, cs.push(c)) {
        assert(pair_clause_holds(r, cs.push(c)[cs.len() as int]));
        assert forall|i: int| 0 <= i < cs.len() implies #[trigger] pair_clause_holds(r, cs[i]) by {
            assert(pair_clause_holds(r, cs.push(c)[i]));
            assert(cs.push(c)[i] == cs[i]);
        }
    }
}

/// The number of created variables in a row.
pub open spec fn row_count(row: Seq<Option<u32>>) -> nat
    decreases row.len(),
{
    if row.len() == 0 {
        0
    } else {
        row_count(row.drop_last()) + if row.last() is Some { 1nat } else { 0nat }
    }
}

/// The number of created variables in the first `k` rows.
pub open spec fn rows_count(rows: Seq<Vec<Option<u32>>>, k: int) -> nat
    decreases k,
{
    if k <= 0 {
        0
    } else {
        rows_count(rows, k - 1) + row_count(rows[k - 1]@)
    }
}

proof fn lemma_row_count_bound(row: Seq<Option<u32>>)
    ensures
        row_count(row) <= row.len(),
    decreases row.len(),
{
    if row.len() > 0 {
        lemma_row_count_bound(row.drop_last());
    }
}

proof fn lemma_row_count_set(row: Seq<Option<u32>>, j: int, v: u32)
    requires
        0 <= j < row.len(),
        row[j] is None,
    ensures
        row_count(row.update(j, Some(v))) == row_count(row) + 1,
    decreases row.len(),
{
    let u = row.update(j, Some(v));
    if j == row.len() - 1 {
        assert(u.drop_last() =~= row.drop_last());
    } else {
        lemma_row_count_set(row.drop_last(), j, v);
        assert(u.drop_last() =~= row.drop_last().update(j, Some(v)));
    }
}

proof fn lemma_rows_count_bound(rows: Seq<Vec<Option<u32>>>, k: int, n: int)
    requires
        0 <= k <= rows.len(),
        0 <= n,
        forall|i: int| 0 <= i < rows.len() ==> (#[trigger] rows[i])@.len() == n,
    ensures
        rows_count(rows, k) <= k * n,
    decreases k,
{
    if k > 0 {
        lemma_rows_count_bound(rows, k - 1, n);
        lemma_row_count_bound(rows[k - 1]@);
        assert((k - 1) * n + n == k * n) by (nonlinear_arith);
    }
}

proof fn lemma_rows_count_update(rows: Seq<Vec<Option<u32>>>, a: int, row: Vec<Option<u32>>, k: int)
    requires
        0 <= a < rows.len(),
        0 <= k <= rows.len(),
    ensures
        k <= a ==> rows_count(rows.update(a, row), k) == rows_count(rows, k),
        k > a ==> rows_count(rows.update(a, row), k) == rows_count(rows, k) - row_count(rows[a]@) + row_count(row@),
    decreases k,
{
    if k > 0 {
        lemma_rows_count_update(rows, a, row, k - 1);
    }
}

/// The variables of the pairs of vertices `0..n`, created on first use.
pub struct OrderVars {
    /// `vars[a][b]` is the variable of the pair `(a, b)`, once created.
    pub vars: Vec<Vec<Option<u32>>>,
    /// The variable the next new pair gets.
    pub next_var: u32,
}

impl OrderVars {
    /// The number of vertices.
    pub open spec fn width(&self) -> int {
        self.vars@.len() as int
    }

    /// The pair `(a, b)` has a variable.
    pub open spec fn has(&self, a: int, b: int) -> bool {
        0 <= a < self.width() && 0 <= b < self.width() && self.vars@[a]@[b] is Some
    }

    /// The variable of the pair `(a, b)`.
    pub open spec fn var(&self, a: int, b: int) -> u32 {
        self.vars@[a]@[b].unwrap()
    }

    /// Every row has one entry per vertex; the variables are numbered
    /// `0..next_var`, one per pair that has one.
    pub open spec fn wf(&self) -> bool {
        &&& forall|a: int| 0 <= a < self.width() ==> (#[trigger] self.vars@[a])@.len() == self.width()
        &&& forall|a: int, b: int| #[trigger] self.has(a, b) ==> self.var(a, b) < self.next_var
        &&& forall|a1: int, b1: int, a2: int, b2: int| #[trigger] self.has(a1, b1) && #[trigger] self.has(a2, b2)
            && self.var(a1, b1) == self.var(a2, b2) ==> a1 == a2 && b1 == b2
        &&& self.next_var == rows_count(self.vars@, self.width())
    }

    /// `self` keeps every variable of `old`.
    pub open spec fn extends(&self, old: &OrderVars) -> bool {
        &&& self.width() == old.width()
        &&& forall|a: int, b: int| #[trigger] old.has(a, b) ==> self.has(a, b) && self.var(a, b) == old.var(a, b)
    }

    /// The variables of `n` vertices, none created yet.
    pub fn new(n: usize) -> (r: Self)
        ensures
            r.wf(),
            r.width() == n,
            r.next_var == 0,
            forall|a: int, b: int| !#[trigger] r.has(a, b),
    {
        let mut vars: Vec<Vec<Option<u32>>> = Vec::new();
        let mut i: usize = 0;
        while i < n
            invariant
                0 <= i <= n,
                vars@.len() == i,
                forall|a: int| 0 <= a < i ==> (#[trigger] vars@[a])@.len() == n,
                forall|a: int, b: int| 0 <= a < i && 0 <= b < n ==> vars@[a]@[b] is None,
                rows_count(vars@, i as int) == 0,
            decreases n - i,
        {
            let mut row: Vec<Option<u32>> = Vec::new();
            let mut j: usize = 0;
            while j < n
                invariant
                    0 <= j <= n,
                    row@.len() == j,
                    forall|b: int| 0 <= b < j ==> row@[b] is None,
                    row_count(row@) == 0,
                decreases n - j,
            {
                let ghost prev = row@;
                row.push(None);
                assert(row@.drop_last() =~= prev);
                j = j + 1;
            }
            let ghost before = vars@;
            vars.push(row);
            proof {
                assert forall|k: int| 0 <= k <= i implies rows_count(vars@, k) == rows_count(before, k) by {
                    lemma_rows_count_prefix(vars@, before, k);
                }
            }
            i = i + 1;
        }
        OrderVars { vars, next_var: 0 }
    }

    /// The variable of the pair `(a, b)`, created if it has none yet.
    pub fn get_or_create(&mut self, a: usize, b: usize) -> (v: u32)
        requires
            old(self).wf(),
            a < old(self).width(),
            b < old(self).width(),
            old(self).width() * old(self).width() < VAR_LIMIT,
        ensures
            final(self).wf(),
            final(self).extends(old(self)),
            final(self).has(a as int, b as int),
            v == final(self).var(a as int, b as int),
            v < VAR_LIMIT,
    {
        proof {
            lemma_rows_count_bound(self.vars@, self.width(), self.width());
        }
        match self.vars[a][b] {
            Some(v) => {
                assert(self.has(a as int, b as int));
                v
            },
            None => {
                let v = self.next_var;
                let ghost old_vars = self.vars@;
                let ghost n = self.width();
                proof {
                    // an absent pair means fewer than all pairs are created
                    lemma_rows_count_missing(old_vars, a as int, b as int, n);
                }
                let mut row = self.vars[a].clone();
                row.set(b, Some(v));
                self.vars.set(a, row);
                self.next_var = v + 1;
                proof {
                    lemma_row_count_set(old_vars[a as int]@, b as int, v);
                    lemma_rows_count_update(old_vars, a as int, row, n);
                    assert(self.vars@ == old_vars.update(a as int, row));
                    assert forall|a1: int, b1: int| #[trigger] self.has(a1, b1) implies self.var(a1, b1) < self.next_var by {
                        if a1 != a || b1 != b {
                            assert(old(self).has(a1, b1));
                        }
                    }
                    assert forall|a1: int, b1: int, a2: int, b2: int| #[trigger] self.has(a1, b1) && #[trigger] self.has(a2, b2)
                        && self.var(a1, b1) == self.var(a2, b2) implies a1 == a2 && b1 == b2 by {
                        if (a1 != a || b1 != b) {
                            assert(old(self).has(a1, b1));
                        }
                        if (a2 != a || b2 != b) {
                            assert(old(self).has(a2, b2));
                        }
                    }
                    assert forall|a1: int, b1: int| #[trigger] old(self).has(a1, b1) implies self.has(a1, b1) && self.var(a1, b1) == old(self).var(a1, b1) by {
                        if a1 == a {
                            assert(b1 != b);
                        }
                    }
                    assert forall|a1: int| 0 <= a1 < self.width() implies (#[trigger] self.vars@[a1])@.len() == self.width() by {
                        if a1 != a {
                            assert(self.vars@[a1] == old_vars[a1]);
                        }
                    }
                }
                v
            },
        }
    }
}

proof fn lemma_rows_count_prefix(rows: Seq<Vec<Option<u32>>>, shorter: Seq<Vec<Option<u32>>>, k: int)
    requires
        0 <= k <= shorter.len() <= rows.len(),
        forall|i: int| 0 <= i < shorter.len() ==> rows[i] == shorter[i],
    ensures
        rows_count(rows, k) == rows_count(shorter, k),
    decreases k,
{
    if k > 0 {
        lemma_rows_count_prefix(rows, shorter, k - 1);
    }
}

proof fn lemma_row_count_missing(row: Seq<Option<u32>>, j: int)
    requires
        0 <= j < row.len(),
        row[j] is None,
    ensures
        row_count(row) < row.len(),
    decreases row.len(),
{
    lemma_row_count_bound(row.drop_last());
    if j < row.len() - 1 {
        lemma_row_count_missing(row.drop_last(), j);
    }
}

proof fn lemma_rows_count_missing(rows: Seq<Vec<Option<u32>>>, a: int, b: int, n: int)
    requires
        0 <= a < n,
        rows.len() == n,
        forall|i: int| 0 <= i < rows.len() ==> (#[trigger] rows[i])@.len() == n,
        0 <= b < n,
        rows[a]@[b] is None,
    ensures
        rows_count(rows, n) < n * n,
{
    lemma_rows_count_missing_upto(rows, a, b, n, n);
}

proof fn lemma_rows_count_missing_upto(rows: Seq<Vec<Option<u32>>>, a: int, b: int, n: int, k: int)
    requires
        0 <= a < k <= n,
        rows.len() == n,
        forall|i: int| 0 <= i < rows.len() ==> (#[trigger] rows[i])@.len() == n,
        0 <= b < n,
        rows[a]@[b] is None,
    ensures
        rows_count(rows, k) < k * n,
    decreases k,
{
    if k - 1 == a {
        lemma_rows_count_bound(rows, k - 1, n);
        lemma_row_count_missing(rows[a]@, b);
    } else {
        lemma_rows_count_missing_upto(rows, a, b, n, k - 1);
        lemma_row_count_bound(rows[k - 1]@);
    }
    assert((k - 1) * n + n == k * n) by (nonlinear_arith);
}

/// `c` is the clause over variables that the clause over pairs `pc` stands for.
pub open spec fn encodes(ov: OrderVars, pc: PairClause, c: Seq<(u32, bool)>) -> bool {
    &&& c.len() == pc.len()
    &&& forall|k: int| 0 <= k < pc.len() ==> ov.has((#[trigger] pc[k]).0.0, pc[k].0.1) && c[k] == (ov.var(pc[k].0.0, pc[k].0.1), pc[k].1)
}

/// The view of a clause over pairs of vertex indices.
pub open spec fn pair_clause_view(lits: Seq<((usize, usize), bool)>) -> PairClause {
    lits.map_values(|l: ((usize, usize), bool)| ((l.0.0 as int, l.0.1 as int), l.1))
}

/// A solver fed with clauses over the pairs of vertices `0..n`.
pub struct Encoder {
    pub solver: SatSolver,
    pub vars: OrderVars,
    /// The clauses handed to the solver, over pairs.
    pub pairs: Ghost<Seq<PairClause>>,
}

impl Encoder {
    /// The number of vertices.
    pub open spec fn width(&self) -> int {
        self.vars.width()
    }

    /// The solver holds exactly the clauses of `pairs`, each over the
    /// variables of its pairs.
    pub open spec fn wf(&self) -> bool {
        &&& self.vars.wf()
        &&& self.width() * self.width() < VAR_LIMIT
        &&& sat_clauses(self.solver).len() == self.pairs@.len()
        &&& forall|i: int| 0 <= i < self.pairs@.len() ==> #[trigger] encodes(self.vars, self.pairs@[i], sat_clauses(self.solver)[i])
    }

    /// The relation the solver's assignment stands for.
    pub open spec fn model_rel(&self) -> Rel {
        |a: int, b: int| self.vars.has(a, b) && sat_model(self.solver).dom().contains(self.vars.var(a, b))
            && sat_model(self.solver)[self.vars.var(a, b)]
    }

    /// An encoder over `n` vertices, without clauses.
    pub fn new(n: usize) -> (e: Self)
        requires
            n * n < VAR_LIMIT,
        ensures
            e.wf(),
            e.width() == n,
            e.pairs@ == Seq::<PairClause>::empty(),
    {
        let solver = sat_new();
        let vars = OrderVars::new(n);
        Encoder { solver, vars, pairs: Ghost(Seq::empty()) }
    }

    /// Adds the clause over pairs `lits`.
    pub fn add(&mut self, lits: Vec<((usize, usize), bool)>)
        requires
            old(self).wf(),
            forall|k: int| 0 <= k < lits@.len() ==> (#[trigger] lits@[k]).0.0 < old(self).width() && lits@[k].0.1 < old(self).width(),
        ensures
            final(self).wf(),
            final(self).width() == old(self).width(),
            final(self).pairs@ == old(self).pairs@.push(pair_clause_view(lits@)),
    {
        let ghost pc = pair_clause_view(lits@);
        let ghost ov0 = self.vars;
        let mut c: Vec<(u32, bool)> = Vec::new();
        let mut k: usize = 0;
        while k < lits.len()
            invariant
                0 <= k <= lits@.len(),
                self.wf(),
                self.vars.extends(&ov0),
                self.width() == ov0.width(),
                self.pairs@ == old(self).pairs@,
                sat_clauses(self.solver) == sat_clauses(old(self).solver),
                pc == pair_clause_view(lits@),
                forall|m: int| 0 <= m < lits@.len() ==> (#[trigger] lits@[m]).0.0 < ov0.width() && lits@[m].0.1 < ov0.width(),
                c@.len() == k,
                forall|m: int| 0 <= m < k ==> self.vars.has((#[trigger] pc[m]).0.0, pc[m].0.1) && c@[m] == (self.vars.var(pc[m].0.0, pc[m].0.1), pc[m].1),
                forall|m: int| 0 <= m < k ==> (#[trigger] c@[m]).0 < VAR_LIMIT,
            decreases lits@.len() - k,
        {
            let ((a, b), p) = lits[k];
            let ghost before = self.vars;
            let v = self.vars.get_or_create(a, b);
            c.push((v, p));
            proof {
                assert forall|i: int| 0 <= i < self.pairs@.len() implies #[trigger] encodes(self.vars, self.pairs@[i], sat_clauses(self.solver)[i]) by {
                    assert(encodes(before, self.pairs@[i], sat_clauses(self.solver)[i]));
                    let q = self.pairs@[i];
                    assert forall|m: int| 0 <= m < q.len() implies self.vars.has((#[trigger] q[m]).0.0, q[m].0.1) by {
                        assert(before.has(q[m].0.0, q[m].0.1));
                    }
                }
                assert forall|a1: int, b1: int| #[trigger] ov0.has(a1, b1) implies self.vars.has(a1, b1) && self.vars.var(a1, b1) == ov0.var(a1, b1) by {
                    assert(before.has(a1, b1));
                }
                assert forall|m: int| 0 <= m < k + 1 implies self.vars.has((#[trigger] pc[m]).0.0, pc[m].0.1) && c@[m] == (self.vars.var(pc[m].0.0, pc[m].0.1), pc[m].1) by {
                    if m < k {
                        assert(before.has(pc[m].0.0, pc[m].0.1));
                    }
                }
            }
            k = k + 1;
        }
        sat_add_clause(&mut self.solver, &c);
        proof {
            self.pairs@ = self.pairs@.push(pc);
            assert forall|i: int| 0 <= i < self.pairs@.len() implies #[trigger] encodes(self.vars, self.pairs@[i], sat_clauses(self.solver)[i]) by {
                if i < old(self).pairs@.len() {
                    assert(self.pairs@[i] == old(self).pairs@[i]);
                } else {
                    assert(self.pairs@[i] == pc);
                }
            }
        }
    }

    /// Asks the solver whether the clauses hold for some relation; when they
    /// do, the solver's assignment gives one.
    pub fn solve(&mut self) -> (r: bool)
        requires
            old(self).wf(),
        ensures
            final(self).wf(),
            final(self).pairs@ == old(self).pairs@,
            final(self).vars == old(self).vars,
            r == exists|rel: Rel| #[trigger] pair_clauses_hold(rel, old(self).pairs@),
            r ==> pair_clauses_hold(final(self).model_rel(), old(self).pairs@),
    {
        let ghost cs = sat_clauses(self.solver);
        let r = sat_solve(&mut self.solver);
        proof {
            let pcs = self.pairs@;
            let ov = self.vars;
            if r {
                let rel = self.model_rel();
                assert forall|i: int| 0 <= i < pcs.len() implies #[trigger] pair_clause_holds(rel, pcs[i]) by {
                    assert(encodes(ov, pcs[i], cs[i]));
                    assert(model_holds(sat_model(self.solver), cs[i]));
                    let k = choose|k: int| 0 <= k < cs[i].len() && sat_model(self.solver).dom().contains(#[trigger] cs[i][k].0)
                        && sat_model(self.solver)[cs[i][k].0] == cs[i][k].1;
                    assert(ov.has(pcs[i][k].0.0, pcs[i][k].0.1));
                    assert(rel(pcs[i][k].0.0, pcs[i][k].0.1) == pcs[i][k].1);
                }
                assert(pair_clauses_hold(rel, pcs));
            } else {
                assert forall|rel: Rel| !#[trigger] pair_clauses_hold(rel, pcs) by {
                    if pair_clauses_hold(rel, pcs) {
                        let a = |v: u32| exists|p: (int, int)| #[trigger] ov.has(p.0, p.1) && ov.var(p.0, p.1) == v && rel(p.0, p.1);
                        assert forall|i: int| 0 <= i < cs.len() implies #[trigger] clause_holds(a, cs[i]) by {
                            assert(encodes(ov, pcs[i], cs[i]));
                            assert(pair_clause_holds(rel, pcs[i]));
                            let k = choose|k: int| 0 <= k < pcs[i].len() && rel((#[trigger] pcs[i][k]).0.0, pcs[i][k].0.1) == pcs[i][k].1;
                            let p = pcs[i][k].0;
                            assert(ov.has(p.0, p.1));
                            if rel(p.0, p.1) {
                                assert(a(ov.var(p.0, p.1)));
                            } else {
                                assert forall|q: (int, int)| #[trigger] ov.has(q.0, q.1) && ov.var(q.0, q.1) == ov.var(p.0, p.1) implies !rel(q.0, q.1) by {
                                    assert(q.0 == p.0 && q.1 == p.1);
                                }
                                assert(!a(ov.var(p.0, p.1)));
                            }
                            assert(lit_holds(a, cs[i][k]));
                        }
                        assert(all_hold(a, cs));
                    }
                }
            }
        }
        r
    }

    /// Whether the solver's assignment puts vertex `a` before vertex `b`.
    pub fn before(&self, a: usize, b: usize) -> (r: bool)
        requires
            self.wf(),
            a < self.width(),
            b < self.width(),
        ensures
            r == (self.model_rel())(a as int, b as int),
    {
        match self.vars.vars[a][b] {
            None => false,
            Some(v) => {
                proof {
                    assert(self.vars.has(a as int, b as int));
                    lemma_rows_count_bound(self.vars.vars@, self.width(), self.width());
                }
                match sat_value(&self.solver, v) {
                    Some(true) => true,
                    _ => false,
                }
            },
        }
    }
}

/// For distinct vertices `a < b < n`, exactly one of `r(a, b)` and
/// `r(b, a)` holds.
pub open spec fn total_on(r: Rel, n: int) -> bool {
    forall|a: int, b: int| #![trigger r(a, b), r(b, a)] 0 <= a < b < n ==> (r(a, b) || r(b, a)) && !(r(a, b) && r(b, a))
}

/// `r` is transitive on distinct vertices below `n`.
pub open spec fn transitive_on(r: Rel, n: int) -> bool {
    forall|a: int, b: int, c: int| #![trigger r(a, b), r(b, c)]
        0 <= a < n && 0 <= b < n && 0 <= c < n && a != b && b != c && a != c && r(a, b) && r(b, c) ==> r(a, c)
}

/// `r` holds of every pair of `es`.
pub open spec fn units_hold(r: Rel, es: Seq<(usize, usize)>) -> bool {
    forall|k: int| 0 <= k < es.len() ==> r((#[trigger] es[k]).0 as int, es[k].1 as int)
}

/// Adds the clause "`p` has the value `pp`".
pub fn add1(e: &mut Encoder, p: (usize, usize), pp: bool)
    requires
        old(e).wf(),
        p.0 < old(e).width() && p.1 < old(e).width(),
    ensures
        final(e).wf(),
        final(e).width() == old(e).width(),
        forall|r: Rel| #[trigger] pair_clauses_hold(r, final(e).pairs@)
            == (pair_clauses_hold(r, old(e).pairs@) && r(p.0 as int, p.1 as int) == pp),
{
    let lits = vec![(p, pp)];
    e.add(lits);
    proof {
        let c = pair_clause_view(lits@);
        assert forall|r: Rel| #[trigger] pair_clauses_hold(r, e.pairs@)
            == (pair_clauses_hold(r, old(e).pairs@) && r(p.0 as int, p.1 as int) == pp) by {
            lemma_pair_clauses_push(r, old(e).pairs@, c);
            if r(p.0 as int, p.1 as int) == pp {
                assert(r(c[0].0.0, c[0].0.1) == c[0].1);
            }
        }
    }
}

/// Adds the clause "`p` has the value `pp` or `q` has the value `qp`".
pub fn add2(e: &mut Encoder, p: (usize, usize), pp: bool, q: (usize, usize), qp: bool)
    requires
        old(e).wf(),
        p.0 < old(e).width() && p.1 < old(e).width(),
        q.0 < old(e).width() && q.1 < old(e).width(),
    ensures
        final(e).wf(),
        final(e).width() == old(e).width(),
        forall|r: Rel| #[trigger] pair_clauses_hold(r, final(e).pairs@)
            == (pair_clauses_hold(r, old(e).pairs@) && (r(p.0 as int, p.1 as int) == pp || r(q.0 as int, q.1 as int) == qp)),
{
    let lits = vec![(p, pp), (q, qp)];
    e.add(lits);
    proof {
        let c = pair_clause_view(lits@);
        assert forall|r: Rel| #[trigger] pair_clauses_hold(r, e.pairs@)
            == (pair_clauses_hold(r, old(e).pairs@) && (r(p.0 as int, p.1 as int) == pp || r(q.0 as int, q.1 as int) == qp)) by {
            lemma_pair_clauses_push(r, old(e).pairs@, c);
            if r(p.0 as int, p.1 as int) == pp {
                assert(r(c[0].0.0, c[0].0.1) == c[0].1);
            }
            if r(q.0 as int, q.1 as int) == qp {
                assert(r(c[1].0.0, c[1].0.1) == c[1].1);
            }
        }
    }
}

/// Adds the clause "`p` has the value `pp`, `q` the value `qp` or `t` the
/// value `tp`".
pub fn add3(e: &mut Encoder, p: (usize, usize), pp: bool, q: (usize, usize), qp: bool, t: (usize, usize), tp: bool)
    requires
        old(e).wf(),
        p.0 < old(e).width() && p.1 < old(e).width(),
        q.0 < old(e).width() && q.1 < old(e).width(),
        t.0 < old(e).width() && t.1 < old(e).width(),
    ensures
        final(e).wf(),
        final(e).width() == old(e).width(),
        forall|r: Rel| #[trigger] pair_clauses_hold(r, final(e).pairs@)
            == (pair_clauses_hold(r, old(e).pairs@) && (r(p.0 as int, p.1 as int) == pp || r(q.0 as int, q.1 as int) == qp
                || r(t.0 as int, t.1 as int) == tp)),
{
    let lits = vec![(p, pp), (q, qp), (t, tp)];
    e.add(lits);
    proof {
        let c = pair_clause_view(lits@);
        assert forall|r: Rel| #[trigger] pair_clauses_hold(r, e.pairs@)
            == (pair_clauses_hold(r, old(e).pairs@) && (r(p.0 as int, p.1 as int) == pp || r(q.0 as int, q.1 as int) == qp
                || r(t.0 as int, t.1 as int) == tp)) by {
            lemma_pair_clauses_push(r, old(e).pairs@, c);
            if r(p.0 as int, p.1 as int) == pp {
                assert(r(c[0].0.0, c[0].0.1) == c[0].1);
            }
            if r(q.0 as int, q.1 as int) == qp {
                assert(r(c[1].0.0, c[1].0.1) == c[1].1);
            }
            if r(t.0 as int, t.1 as int) == tp {
                assert(r(c[2].0.0, c[2].0.1) == c[2].1);
            }
        }
    }
}

/// Requires every pair of `es` to be in order.
pub fn add_units(e: &mut Encoder, es: &Vec<(usize, usize)>)
    requires
        old(e).wf(),
        forall|k: int| 0 <= k < es@.len() ==> (#[trigger] es@[k]).0 < old(e).width() && es@[k].1 < old(e).width(),
    ensures
        final(e).wf(),
        final(e).width() == old(e).width(),
        forall|r: Rel| #[trigger] pair_clauses_hold(r, final(e).pairs@) == (pair_clauses_hold(r, old(e).pairs@) && units_hold(r, es@)),
{
    let mut k: usize = 0;
    while k < es.len()
        invariant
            0 <= k <= es@.len(),
            e.wf(),
            e.width() == old(e).width(),
            forall|m: int| 0 <= m < es@.len() ==> (#[trigger] es@[m]).0 < old(e).width() && es@[m].1 < old(e).width(),
            forall|r: Rel| #[trigger] pair_clauses_hold(r, e.pairs@) == (pair_clauses_hold(r, old(e).pairs@) && units_hold(r, es@.subrange(0, k as int))),
        decreases es@.len() - k,
    {
        let ghost before = e.pairs@;
        add1(e, es[k], true);
        proof {
            assert forall|r: Rel| #[trigger] pair_clauses_hold(r, e.pairs@) == (pair_clauses_hold(r, old(e).pairs@) && units_hold(r, es@.subrange(0, k + 1))) by {
                assert(pair_clauses_hold(r, before) == (pair_clauses_hold(r, old(e).pairs@) && units_hold(r, es@.subrange(0, k as int))));
                if units_hold(r, es@.subrange(0, k + 1)) {
                    assert forall|m: int| 0 <= m < k implies r((#[trigger] es@.subrange(0, k as int)[m]).0 as int, es@.subrange(0, k as int)[m].1 as int) by {
                        assert(es@.subrange(0, k + 1)[m] == es@.subrange(0, k as int)[m]);
                    }
                    assert(es@.subrange(0, k + 1)[k as int] == es@[k as int]);
                }
                if units_hold(r, es@.subrange(0, k as int)) && r(es@[k as int].0 as int, es@[k as int].1 as int) {
                    assert forall|m: int| 0 <= m < k + 1 implies r((#[trigger] es@.subrange(0, k + 1)[m]).0 as int, es@.subrange(0, k + 1)[m].1 as int) by {
                        if m < k {
                            assert(es@.subrange(0, k + 1)[m] == es@.subrange(0, k as int)[m]);
                        }
                    }
                }
            }
        }
        k = k + 1;
    }
    assert(es@.subrange(0, es@.len() as int) =~= es@);
}

/// `total_on` for the pairs `(a1, b1)` before `(a, b)`.
pub open spec fn total_upto(r: Rel, n: int, a: int, b: int) -> bool {
    forall|a1: int, b1: int| #![trigger r(a1, b1), r(b1, a1)]
        0 <= a1 < b1 < n && (a1 < a || (a1 == a && b1 < b)) ==> (r(a1, b1) || r(b1, a1)) && !(r(a1, b1) && r(b1, a1))
}

/// `transitive_on` for the triples `(a1, b1, c1)` before `(a, b, c)`.
pub open spec fn trans_upto(r: Rel, n: int, a: int, b: int, c: int) -> bool {
    forall|a1: int, b1: int, c1: int| #![trigger r(a1, b1), r(b1, c1)]
        0 <= a1 < n && 0 <= b1 < n && 0 <= c1 < n && a1 != b1 && b1 != c1 && a1 != c1
        && (a1 < a || (a1 == a && (b1 < b || (b1 == b && c1 < c)))) && r(a1, b1) && r(b1, c1) ==> r(a1, c1)
}

/// An encoder over `n` vertices whose clauses say that a relation is a strict
/// total order that holds of every pair of `edges`.
pub fn encode_ordering(n: usize, edges: &Vec<(usize, usize)>) -> (e: Encoder)
    requires
        n * n < VAR_LIMIT,
        forall|k: int| 0 <= k < edges@.len() ==> (#[trigger] edges@[k]).0 < n && edges@[k].1 < n,
    ensures
        e.wf(),
        e.width() == n,
        forall|r: Rel| #[trigger] pair_clauses_hold(r, e.pairs@)
            == (total_on(r, n as int) && transitive_on(r, n as int) && units_hold(r, edges@)),
{
    let mut e = Encoder::new(n);
    // exactly one of before(a, b) and before(b, a)
    let mut a: usize = 0;
    while a < n
        invariant
            0 <= a <= n,
            e.wf(),
            e.width() == n,
            forall|r: Rel| #[trigger] pair_clauses_hold(r, e.pairs@) == total_upto(r, n as int, a as int, 0),
        decreases n - a,
    {
        let mut b: usize = a + 1;
        while b < n
            invariant
                0 <= a < n,
                a + 1 <= b <= n,
                e.wf(),
                e.width() == n,
                forall|r: Rel| #[trigger] pair_clauses_hold(r, e.pairs@) == total_upto(r, n as int, a as int, b as int),
            decreases n - b,
        {
            let ghost p0 = e.pairs@;
            add2(&mut e, (a, b), true, (b, a), true);
            let ghost p1 = e.pairs@;
            add2(&mut e, (a, b), false, (b, a), false);
            proof {
                assert forall|r: Rel| #[trigger] pair_clauses_hold(r, e.pairs@) == total_upto(r, n as int, a as int, b + 1) by {
                    assert(pair_clauses_hold(r, p0) == total_upto(r, n as int, a as int, b as int));
                    assert(pair_clauses_hold(r, p1) == (pair_clauses_hold(r, p0) && (r(a as int, b as int) || r(b as int, a as int))));
                    if total_upto(r, n as int, a as int, b + 1) {
                        assert(r(a as int, b as int) || r(b as int, a as int));
                    }
                }
            }
            b = b + 1;
        }
        proof {
            assert forall|r: Rel| #[trigger] pair_clauses_hold(r, e.pairs@) == total_upto(r, n as int, a + 1, 0) by {
                assert(pair_clauses_hold(r, e.pairs@) == total_upto(r, n as int, a as int, b as int));
            }
        }
        a = a + 1;
    }
    proof {
        assert forall|r: Rel| #[trigger] pair_clauses_hold(r, e.pairs@) == total_on(r, n as int) by {
            assert(pair_clauses_hold(r, e.pairs@) == total_upto(r, n as int, a as int, 0));
        }
    }
    let ghost after_total = e.pairs@;
    // transitivity: before(a, b) and before(b, c) give before(a, c)
    let mut a: usize = 0;
    while a < n
        invariant
            0 <= a <= n,
            e.wf(),
            e.width() == n,
            forall|r: Rel| #[trigger] pair_clauses_hold(r, e.pairs@) == (total_on(r, n as int) && trans_upto(r, n as int, a as int, 0, 0)),
        decreases n - a,
    {
        let mut b: usize = 0;
        while b < n
            invariant
                0 <= a < n,
                0 <= b <= n,
                e.wf(),
                e.width() == n,
                forall|r: Rel| #[trigger] pair_clauses_hold(r, e.pairs@) == (total_on(r, n as int) && trans_upto(r, n as int, a as int, b as int, 0)),
            decreases n - b,
        {
            if a != b {
                let mut c: usize = 0;
                while c < n
                    invariant
                        0 <= a < n,
                        0 <= b < n,
                        a != b,
                        0 <= c <= n,
                        e.wf(),
                        e.width() == n,
                        forall|r: Rel| #[trigger] pair_clauses_hold(r, e.pairs@) == (total_on(r, n as int) && trans_upto(r, n as int, a as int, b as int, c as int)),
                    decreases n - c,
                {
                    if c != a && c != b {
                        let ghost p0 = e.pairs@;
                        add3(&mut e, (a, b), false, (b, c), false, (a, c), true);
                        proof {
                            assert forall|r: Rel| #[trigger] pair_clauses_hold(r, e.pairs@) == (total_on(r, n as int) && trans_upto(r, n as int, a as int, b as int, c + 1)) by {
                                assert(pair_clauses_hold(r, p0) == (total_on(r, n as int) && trans_upto(r, n as int, a as int, b as int, c as int)));
                            }
                        }
                    } else {
                        proof {
                            assert forall|r: Rel| #[trigger] pair_clauses_hold(r, e.pairs@) == (total_on(r, n as int) && trans_upto(r, n as int, a as int, b as int, c + 1)) by {
                                assert(pair_clauses_hold(r, e.pairs@) == (total_on(r, n as int) && trans_upto(r, n as int, a as int, b as int, c as int)));
                            }
                        }
                    }
                    c = c + 1;
                }
                proof {
                    assert forall|r: Rel| #[trigger] pair_clauses_hold(r, e.pairs@) == (total_on(r, n as int) && trans_upto(r, n as int, a as int, b + 1, 0)) by {
                        assert(pair_clauses_hold(r, e.pairs@) == (total_on(r, n as int) && trans_upto(r, n as int, a as int, b as int, c as int)));
                    }
                }
            } else {
                proof {
                    assert forall|r: Rel| #[trigger] pair_clauses_hold(r, e.pairs@) == (total_on(r, n as int) && trans_upto(r, n as int, a as int, b + 1, 0)) by {
                        assert(pair_clauses_hold(r, e.pairs@) == (total_on(r, n as int) && trans_upto(r, n as int, a as int, b as int, 0)));
                    }
                }
            }
            b = b + 1;
        }
        proof {
            assert forall|r: Rel| #[trigger] pair_clauses_hold(r, e.pairs@) == (total_on(r, n as int) && trans_upto(r, n as int, a + 1, 0, 0)) by {
                assert(pair_clauses_hold(r, e.pairs@) == (total_on(r, n as int) && trans_upto(r, n as int, a as int, b as int, 0)));
            }
        }
        a = a + 1;
    }
    proof {
        assert forall|r: Rel| #[trigger] pair_clauses_hold(r, e.pairs@) == (total_on(r, n as int) && transitive_on(r, n as int)) by {
            assert(pair_clauses_hold(r, e.pairs@) == (total_on(r, n as int) && trans_upto(r, n as int, a as int, 0, 0)));
        }
    }
    // the required pairs
    add_units(&mut e, edges);
    e
}

} // verus!
