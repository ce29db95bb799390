//! Snapshot Isolation: an order of read and write phases that Prefix
//! consistency accepts, in which no transaction reads while another that
//! writes a common variable is between its read and its write phase.
use vstd::prelude::*;

use crate::consistency::linearization::constrained_linearization::{get_linearization, BranchOrdering, DfsSearchOptions, LinKind, LinProblem, NogoodLearning};
use crate::consistency::linearization::prefix::{check_prefix_order, is_prefix_order, phase_views, phases_of};
use crate::consistency::linearization::serializable::{info_of, writes_label};
use crate::history::atomic::types::{AtomicView, TransactionId};
use crate::history::atomic::{writes_var, AtomicTransactionPO};
use crate::label::Label;

verus! {

/// Transactions `u` and `v` write a common variable.
pub open spec fn shares_write(av: AtomicView, u: (u64, u64), v: (u64, u64)) -> bool {
    exists|x: Seq<char>| #[trigger] writes_var(av, u, x) && writes_var(av, v, x)
}

/// No read phase comes between the read and the write phase of another
/// transaction that writes a common variable.
pub open spec fn no_concurrent_writers(av: AtomicView, sig: Seq<((u64, u64), bool)>) -> bool {
    forall|a: int, b: int, c: int|
        0 <= a < b < c < sig.len() && !(#[trigger] sig[a]).1 && !(#[trigger] sig[b]).1 && (#[trigger] sig[c]).1
        && sig[a].0 == sig[c].0 && sig[b].0 != sig[a].0 ==> !shares_write(av, sig[a].0, sig[b].0)
}

/// `sig` is an order of phases that Snapshot Isolation accepts.
pub open spec fn is_snapshot_order(av: AtomicView, vis: Set<((u64, u64), (u64, u64))>, sig: Seq<((u64, u64), bool)>) -> bool {
    is_prefix_order(av, vis, sig) && no_concurrent_writers(av, sig)
}

/// Whether transactions `u` and `v` write a common variable.
pub fn shares_write_exec<V: Label>(po: &AtomicTransactionPO<V>, u: TransactionId, v: TransactionId) -> (r: bool)
    ensures
        r == shares_write(po.av(), u@, v@),
{
    match info_of(po, u) {
        None => false,
        Some(info) => {
            let mut k: usize = 0;
            while k < info.writes.len()
                invariant
                    0 <= k <= info.writes@.len(),
                    info.view() == po.av()[u@.0 - 1][u@.1 as int],
                    crate::history::atomic::is_txn(po.av(), u@),
                    forall|m: int| 0 <= m < k ==> !writes_var(po.av(), v@, #[trigger] info.writes@[m].label()),
                decreases info.writes@.len() - k,
            {
                if writes_label(po, v, &info.writes[k]) {
                    assert(writes_var(po.av(), u@, info.writes@[k as int].label()));
                    return true;
                }
                k = k + 1;
            }
            proof {
                assert forall|x: Seq<char>| !(#[trigger] writes_var(po.av(), u@, x) && writes_var(po.av(), v@, x)) by {
                    if writes_var(po.av(), u@, x) {
                        assert(info.view().0.contains(x));
                        let m = choose|m: int| 0 <= m < info.writes@.len() && #[trigger] info.writes@[m].label() == x;
                    }
                }
            }
            false
        },
    }
}

/// Whether no read phase of `sig` comes between the phases of another
/// transaction that writes a common variable.
#[verifier::loop_isolation(false)]
fn check_no_concurrent_writers<V: Label>(po: &AtomicTransactionPO<V>, sig: &Vec<(TransactionId, bool)>) -> (r: bool)
    ensures
        r == no_concurrent_writers(po.av(), phase_views(sig@)),
{
    let ghost av = po.av();
    let ghost o = phase_views(sig@);
    let n = sig.len();
    let mut a: usize = 0;
    while a < n
        invariant
            0 <= a <= n,
            n == sig@.len(),
            o == phase_views(sig@),
            forall|a1: int, b: int, c: int|
                0 <= a1 < a && a1 < b < c < o.len() && !(#[trigger] o[a1]).1 && !(#[trigger] o[b]).1 && (#[trigger] o[c]).1
                && o[a1].0 == o[c].0 && o[b].0 != o[a1].0 ==> !shares_write(av, o[a1].0, o[b].0),
        decreases n - a,
    {
        if !sig[a].1 {
            let mut c: usize = a + 1;
            while c < n
                invariant
                    a < n,
                    a + 1 <= c <= n,
                    !o[a as int].1,
                    forall|a1: int, b: int, c1: int|
                        0 <= a1 < a && a1 < b < c1 < o.len() && !(#[trigger] o[a1]).1 && !(#[trigger] o[b]).1 && (#[trigger] o[c1]).1
                        && o[a1].0 == o[c1].0 && o[b].0 != o[a1].0 ==> !shares_write(av, o[a1].0, o[b].0),
                    forall|b: int, c1: int|
                        a < b < c1 < c && !(#[trigger] o[b]).1 && (#[trigger] o[c1]).1
                        && o[a as int].0 == o[c1].0 && o[b].0 != o[a as int].0 ==> !shares_write(av, o[a as int].0, o[b].0),
                decreases n - c,
            {
                if sig[c].1 && sig[c].0.session_id == sig[a].0.session_id && sig[c].0.session_height == sig[a].0.session_height {
                    let mut b: usize = a + 1;
                    while b < c
                        invariant
                            a < c < n,
                            a + 1 <= b <= c,
                            o[c as int].1 && o[a as int].0 == o[c as int].0,
                            forall|b1: int| a < b1 < b && !(#[trigger] o[b1]).1 && o[b1].0 != o[a as int].0
                                ==> !shares_write(av, o[a as int].0, o[b1].0),
                        decreases c - b,
                    {
                        if !sig[b].1 && !(sig[b].0.session_id == sig[a].0.session_id && sig[b].0.session_height == sig[a].0.session_height)
                            && shares_write_exec(po, sig[a].0, sig[b].0) {
                            assert(shares_write(av, o[a as int].0, o[b as int].0));
                            return false;
                        }
                        b = b + 1;
                    }
                }
                c = c + 1;
            }
        }
        a = a + 1;
    }
    true
}

/// Whether `sig` is an order of phases that Snapshot Isolation accepts.
pub fn check_snapshot_order<V: Label>(po: &AtomicTransactionPO<V>, sig: &Vec<(TransactionId, bool)>) -> (r: bool)
    ensures
        r == is_snapshot_order(po.av(), po.vis(), phase_views(sig@)),
{
    check_prefix_order(po, sig) && check_no_concurrent_writers(po, sig)
}

/// Linearization solver for Snapshot Isolation: as for Prefix consistency,
/// and a read phase is placed only when no placed read phase whose write
/// phase is pending writes a common variable.
#[derive(Debug)]
pub struct SnapshotIsolationSolver<Variable> {
    pub history: AtomicTransactionPO<Variable>,
}

impl<Variable: Label> SnapshotIsolationSolver<Variable> {
    /// A solver for a partial order.
    pub fn from(history: AtomicTransactionPO<Variable>) -> (r: Self)
        ensures
            r.history == history,
    {
        SnapshotIsolationSolver { history }
    }

    /// The search options of this level.
    pub fn search_options(&self) -> (r: DfsSearchOptions)
        ensures
            r.memoize_frontier && r.branch_ordering == BranchOrdering::HighScoreFirst,
    {
        DfsSearchOptions {
            memoize_frontier: true,
            nogood_learning: NogoodLearning::Enabled,
            enable_killer_history: true,
            prefer_allowed_first: true,
            branch_ordering: BranchOrdering::HighScoreFirst,
        }
    }

    /// An order of phases that Snapshot Isolation accepts, if the search
    /// finds one.
    pub fn get_linearization(&mut self) -> (r: Option<Vec<(TransactionId, bool)>>)
        ensures
            final(self).history == old(self).history,
            r matches Some(sig) ==> is_snapshot_order(old(self).history.av(), old(self).history.vis(), phase_views(sig@)),
    {
        let options = self.search_options();
        let p = match LinProblem::build(&self.history, LinKind::SnapshotIsolation) {
            Some(p) => p,
            None => return None,
        };
        let lin = match get_linearization(&p, options) {
            Some(lin) => lin,
            None => return None,
        };
        let sig = phases_of(&p, &lin);
        if check_snapshot_order(&self.history, &sig) {
            Some(sig)
        } else {
            None
        }
    }
}

} // verus!
