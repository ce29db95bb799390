//! The SAT solver the encodings are handed to: BatSat, through `rustsat`.
//!
//! A clause is a list of literals; a literal `(v, p)` holds when variable `v`
//! has the value `p`. The solver is named by two specification functions: the
//! clauses it holds, and the assignment it reports (empty until a query is
//! answered satisfiable, and again after any clause is added).
use vstd::prelude::*;

use rustsat::solvers::Solve;

verus! {

/// Variables are numbered below this bound: `rustsat::types::Lit::new`
/// refuses the others.
pub const VAR_LIMIT: u32 = 0x7FFF_FFFF;

/// A BatSat solver.
#[verifier::external_body]
pub struct SatSolver {
    inner: rustsat_batsat::BasicSolver,
}

/// The clauses added to a solver, in order.
pub uninterp spec fn sat_clauses(s: SatSolver) -> Seq<Seq<(u32, bool)>>;

/// The assignment a solver reports for its variables.
pub uninterp spec fn sat_model(s: SatSolver) -> Map<u32, bool>;

/// Literal `l` holds under assignment `a`.
pub open spec fn lit_holds(a: spec_fn(u32) -> bool, l: (u32, bool)) -> bool {
    a(l.0) == l.1
}

/// Some literal of clause `c` holds under assignment `a`.
pub open spec fn clause_holds(a: spec_fn(u32) -> bool, c: Seq<(u32, bool)>) -> bool {
    exists|k: int| 0 <= k < c.len() && #[trigger] lit_holds(a, c[k])
}

/// Every clause of `cs` holds under assignment `a`.
pub open spec fn all_hold(a: spec_fn(u32) -> bool, cs: Seq<Seq<(u32, bool)>>) -> bool {
    forall|i: int| 0 <= i < cs.len() ==> #[trigger] clause_holds(a, cs[i])
}

/// Some literal of clause `c` is given its value by the reported
/// assignment `m`.
pub open spec fn model_holds(m: Map<u32, bool>, c: Seq<(u32, bool)>) -> bool {
    exists|k: int| 0 <= k < c.len() && m.dom().contains(#[trigger] c[k].0) && m[c[k].0] == c[k].1
}

/// `rustsat_batsat::BasicSolver::default`: a solver without clauses and
/// without an assignment.
#[verifier::external_body]
pub fn sat_new() -> (s: SatSolver)
    ensures
        sat_clauses(s) =~= Seq::empty(),
        sat_model(s) =~= Map::empty(),
{
    SatSolver { inner: rustsat_batsat::BasicSolver::default() }
}

/// `Solve::add_clause` of BatSat: appends the clause, and drops the reported
/// assignment. BatSat's `add_clause_ref` always succeeds; a literal is built
/// by `Lit::new`, which panics on variables at or above [`VAR_LIMIT`].
#[verifier::external_body]
pub fn sat_add_clause(s: &mut SatSolver, lits: &Vec<(u32, bool)>)
    requires
        forall|k: int| 0 <= k < lits@.len() ==> (#[trigger] lits@[k]).0 < VAR_LIMIT,
    ensures
        sat_clauses(*final(s)) == sat_clauses(*old(s)).push(lits@),
        sat_model(*final(s)) =~= Map::empty(),
{
    let clause: rustsat::types::Clause = lits.iter().map(|&(v, p)| rustsat::types::Lit::new(v, !p)).collect();
    s.inner.add_clause(clause).unwrap();
}

/// `Solve::solve` of BatSat: `true` when the clauses are satisfiable, with an
/// assignment that satisfies every clause; `false` when no assignment does.
/// BatSat's default solver has no budget and no stop callback, so it always
/// reaches one of the two verdicts, and its `solve` never fails.
#[verifier::external_body]
pub fn sat_solve(s: &mut SatSolver) -> (r: bool)
    ensures
        sat_clauses(*final(s)) == sat_clauses(*old(s)),
        r ==> forall|i: int| 0 <= i < sat_clauses(*old(s)).len()
            ==> #[trigger] model_holds(sat_model(*final(s)), sat_clauses(*old(s))[i]),
        !r ==> forall|a: spec_fn(u32) -> bool| !#[trigger] all_hold(a, sat_clauses(*old(s))),
{
    matches!(s.inner.solve().unwrap(), rustsat::solvers::SolverResult::Sat)
}

/// `Solve::lit_val` of BatSat for the positive literal of `v`: the value
/// the reported assignment gives `v`, if it gives one.
#[verifier::external_body]
pub fn sat_value(s: &SatSolver, v: u32) -> (r: Option<bool>)
    requires
        v < VAR_LIMIT,
    ensures
        r == (if sat_model(*s).dom().contains(v) { Some(sat_model(*s)[v]) } else { None }),
{
    match s.inner.lit_val(rustsat::types::Lit::new(v, false)) {
        Ok(rustsat::types::TernaryVal::True) => Some(true),
        Ok(rustsat::types::TernaryVal::False) => Some(false),
        Ok(rustsat::types::TernaryVal::DontCare) => None,
        Err(_) => None,
    }
}

} // verus!
