//! Prefix consistency: an order of the transactions' read and write phases
//! in which every read phase observes the latest earlier write phase of its
//! variables. The commit order is the order of the write phases.
use vstd::prelude::*;

use crate::consistency::linearization::constrained_linearization::{get_linearization, BranchOrdering, DfsSearchOptions, LinKind, LinProblem, NogoodLearning};
use crate::consistency::linearization::serializable::{info_of, reads_of, writes_label};
use crate::history::atomic::types::{AtomicView, TransactionId};
use crate::history::atomic::{is_txn, writes_var, AtomicTransactionPO};
use crate::label::Label;

verus! {

/// The views of a list of phases: a transaction and whether it is the write
/// phase.
pub open spec fn phase_views(s: Seq<(TransactionId, bool)>) -> Seq<((u64, u64), bool)> {
    s.map_values(|e: (TransactionId, bool)| (e.0@, e.1))
}

/// `sig` lists both phases of every transaction once.
pub open spec fn lists_all_phases(av: AtomicView, sig: Seq<((u64, u64), bool)>) -> bool {
    &&& sig.no_duplicates()
    &&& forall|i: int| 0 <= i < sig.len() ==> is_txn(av, #[trigger] sig[i].0)
    &&& forall|t: (u64, u64)| #[trigger] is_txn(av, t) ==> sig.contains((t, false)) && sig.contains((t, true))
}

/// No write phase comes at or before the read phase of its transaction.
pub open spec fn reads_before_writes(sig: Seq<((u64, u64), bool)>) -> bool {
    forall|i: int, j: int| 0 <= j <= i < sig.len() && (#[trigger] sig[j]).1 && !(#[trigger] sig[i]).1 ==> sig[j].0 != sig[i].0
}

/// No visibility edge leads from a transaction whose write phase comes at
/// or after the read phase of the edge's target.
pub open spec fn split_respects_vis(vis: Set<((u64, u64), (u64, u64))>, sig: Seq<((u64, u64), bool)>) -> bool {
    forall|i: int, j: int| 0 <= j <= i < sig.len() && !(#[trigger] sig[j]).1 && (#[trigger] sig[i]).1
        ==> !vis.contains((sig[i].0, sig[j].0))
}

/// A write phase at position `k` writes `x`.
pub open spec fn writes_at(av: AtomicView, sig: Seq<((u64, u64), bool)>, k: int, x: Seq<char>) -> bool {
    sig[k].1 && writes_var(av, sig[k].0, x)
}

/// The read of `x` from `w` by the read phase at position `i` observes the
/// latest write phase of `x` before it.
pub open spec fn split_read_explained(av: AtomicView, sig: Seq<((u64, u64), bool)>, i: int, x: Seq<char>, w: (u64, u64)) -> bool {
    ||| w == (0u64, 0u64) && forall|k: int| 0 <= k < i ==> !#[trigger] writes_at(av, sig, k, x)
    ||| exists|j: int| 0 <= j < i && sig[j] == (w, true) && forall|k: int| j < k < i ==> !#[trigger] writes_at(av, sig, k, x)
}

/// `sig` is an order of phases that Prefix consistency accepts.
pub open spec fn is_prefix_order(av: AtomicView, vis: Set<((u64, u64), (u64, u64))>, sig: Seq<((u64, u64), bool)>) -> bool {
    &&& lists_all_phases(av, sig)
    &&& reads_before_writes(sig)
    &&& split_respects_vis(vis, sig)
    &&& forall|i: int, x: Seq<char>, w: (u64, u64)| 0 <= i < sig.len() && !sig[i].1
        && #[trigger] reads_of(av, sig[i].0).contains((x, w)) ==> split_read_explained(av, sig, i, x, w)
}

/// The transactions of the write phases of `sig`, in order.
pub open spec fn write_projection(sig: Seq<((u64, u64), bool)>) -> Seq<(u64, u64)>
    decreases sig.len(),
{
    if sig.len() == 0 {
        Seq::empty()
    } else if sig.last().1 {
        write_projection(sig.drop_last()).push(sig.last().0)
    } else {
        write_projection(sig.drop_last())
    }
}

/// Whether `sig` is an order of phases that Prefix consistency accepts.
#[verifier::loop_isolation(false)]
pub fn check_prefix_order<V: Label>(po: &AtomicTransactionPO<V>, sig: &Vec<(TransactionId, bool)>) -> (r: bool)
    ensures
        r == is_prefix_order(po.av(), po.vis(), phase_views(sig@)),
{
    let ghost av = po.av();
    let ghost vis = po.vis();
    let ghost o = phase_views(sig@);
    let mut i: usize = 0;
    while i < sig.len()
        invariant
            0 <= i <= sig@.len(),
            o == phase_views(sig@),
            forall|k: int| 0 <= k < i ==> is_txn(av, (#[trigger] o[k]).0),
            forall|k: int, l: int| 0 <= k < l < i ==> #[trigger] o[k] != #[trigger] o[l],
        decreases sig@.len() - i,
    {
        if info_of(po, sig[i].0).is_none() {
            assert(!is_txn(av, o[i as int].0));
            return false;
        }
        let mut j: usize = 0;
        while j < i
            invariant
                0 <= j <= i < sig@.len(),
                forall|l: int| 0 <= l < j ==> o[l] != o[i as int],
            decreases i - j,
        {
            if sig[j].0.session_id == sig[i].0.session_id && sig[j].0.session_height == sig[i].0.session_height && sig[j].1 == sig[i].1 {
                assert(o[j as int] == o[i as int]);
                return false;
            }
            j = j + 1;
        }
        i = i + 1;
    }
    assert(o.no_duplicates()) by {
        assert forall|k: int, l: int| 0 <= k < o.len() && 0 <= l < o.len() && k != l implies o[k] != o[l] by {
            if k < l {
                assert(o[k] != o[l]);
            } else {
                assert(o[l] != o[k]);
            }
        }
    }
    let mut s: usize = 0;
    while s < po.history.0.len()
        invariant
            0 <= s <= po.history.0.len(),
            forall|t: (u64, u64)| #[trigger] is_txn(av, t) && t.0 <= s ==> o.contains((t, false)) && o.contains((t, true)),
        decreases po.history.0.len() - s,
    {
        let mut h: usize = 0;
        while h < po.history.0[s].len()
            invariant
                0 <= s < po.history.0.len(),
                0 <= h <= po.history.0@[s as int]@.len(),
                forall|t: (u64, u64)| #[trigger] is_txn(av, t) && (t.0 <= s || (t.0 == s + 1 && t.1 < h)) ==> o.contains((t, false)) && o.contains((t, true)),
            decreases po.history.0@[s as int]@.len() - h,
        {
            let me = TransactionId { session_id: (s + 1) as u64, session_height: h as u64 };
            let mut found_r = false;
            let mut found_w = false;
            let mut k: usize = 0;
            while k < sig.len()
                invariant
                    0 <= k <= sig@.len(),
                    found_r ==> o.contains((me@, false)),
                    found_w ==> o.contains((me@, true)),
                    !found_r ==> forall|m: int| 0 <= m < k ==> o[m] != (me@, false),
                    !found_w ==> forall|m: int| 0 <= m < k ==> o[m] != (me@, true),
                decreases sig@.len() - k,
            {
                if sig[k].0.session_id == me.session_id && sig[k].0.session_height == me.session_height {
                    if sig[k].1 {
                        assert(o[k as int] == (me@, true));
                        found_w = true;
                    } else {
                        assert(o[k as int] == (me@, false));
                        found_r = true;
                    }
                }
                k = k + 1;
            }
            if !found_r || !found_w {
                assert(is_txn(av, me@));
                if !found_r {
                    assert(!o.contains((me@, false)));
                } else {
                    assert(!o.contains((me@, true)));
                }
                return false;
            }
            proof {
                assert forall|t: (u64, u64)| #[trigger] is_txn(av, t) && (t.0 <= s || (t.0 == s + 1 && t.1 < h + 1))
                    implies o.contains((t, false)) && o.contains((t, true)) by {
                }
            }
            h = h + 1;
        }
        s = s + 1;
    }
    assert(lists_all_phases(av, o)) by {
        assert forall|t: (u64, u64)| #[trigger] is_txn(av, t) implies o.contains((t, false)) && o.contains((t, true)) by {
            assert(t.0 <= po.history.0@.len());
        }
    }
    // write phases come after read phases; visibility is followed
    let mut i: usize = 0;
    while i < sig.len()
        invariant
            0 <= i <= sig@.len(),
            forall|a: int, b: int| 0 <= b <= a < i && (#[trigger] o[b]).1 && !(#[trigger] o[a]).1 ==> o[b].0 != o[a].0,
            forall|a: int, b: int| 0 <= b <= a < i && !(#[trigger] o[b]).1 && (#[trigger] o[a]).1 ==> !vis.contains((o[a].0, o[b].0)),
        decreases sig@.len() - i,
    {
        let mut j: usize = 0;
        while j <= i
            invariant
                0 <= i < sig@.len(),
                0 <= j <= i + 1,
                forall|a: int, b: int| 0 <= b <= a < i && (#[trigger] o[b]).1 && !(#[trigger] o[a]).1 ==> o[b].0 != o[a].0,
                forall|a: int, b: int| 0 <= b <= a < i && !(#[trigger] o[b]).1 && (#[trigger] o[a]).1 ==> !vis.contains((o[a].0, o[b].0)),
                forall|b: int| 0 <= b < j && (#[trigger] o[b]).1 && !o[i as int].1 ==> o[b].0 != o[i as int].0,
                forall|b: int| 0 <= b < j && !(#[trigger] o[b]).1 && o[i as int].1 ==> !vis.contains((o[i as int].0, o[b].0)),
            decreases i + 1 - j,
        {
            if sig[j].1 && !sig[i].1 && sig[j].0.session_id == sig[i].0.session_id && sig[j].0.session_height == sig[i].0.session_height {
                assert(o[j as int].0 == o[i as int].0);
                return false;
            }
            if !sig[j].1 && sig[i].1 && po.visibility_relation.has_edge(&sig[i].0, &sig[j].0) {
                assert(vis.contains((o[i as int].0, o[j as int].0)));
                return false;
            }
            j = j + 1;
        }
        i = i + 1;
    }
    // every read is explained
    let mut i: usize = 0;
    while i < sig.len()
        invariant
            0 <= i <= sig@.len(),
            lists_all_phases(av, o),
            forall|a: int, x: Seq<char>, w: (u64, u64)| 0 <= a < i && !o[a].1 && #[trigger] reads_of(av, o[a].0).contains((x, w))
                ==> split_read_explained(av, o, a, x, w),
        decreases sig@.len() - i,
    {
        if !sig[i].1 {
            let t = sig[i].0;
            let info = match info_of(po, t) {
                Some(info) => info,
                None => {
                    assert(is_txn(av, o[i as int].0));
                    return false;
                },
            };
            let mut q: usize = 0;
            while q < info.reads.len()
                invariant
                    0 <= i < sig@.len(),
                    !o[i as int].1,
                    0 <= q <= info.reads@.len(),
                    info.view() == av[t@.0 - 1][t@.1 as int],
                    t@ == o[i as int].0,
                    forall|m: int| 0 <= m < q ==> split_read_explained(av, o, i as int, #[trigger] info.reads@[m].0.label(), info.reads@[m].1@),
                decreases info.reads@.len() - q,
            {
                let x = &info.reads[q].0;
                let w = info.reads[q].1;
                let ok = if w.session_id == 0 && w.session_height == 0 {
                    let mut clear = true;
                    let mut k: usize = 0;
                    while k < i
                        invariant
                            0 <= k <= i,
                            clear ==> forall|m: int| 0 <= m < k ==> !#[trigger] writes_at(av, o, m, x.label()),
                            !clear ==> exists|m: int| 0 <= m < i && #[trigger] writes_at(av, o, m, x.label()),
                        decreases i - k,
                    {
                        if clear && sig[k].1 && writes_label(po, sig[k].0, x) {
                            assert(writes_at(av, o, k as int, x.label()));
                            clear = false;
                        }
                        k = k + 1;
                    }
                    proof {
                        if !clear {
                            assert(!split_read_explained(av, o, i as int, x.label(), w@)) by {
                                if exists|j: int| 0 <= j < i && o[j] == (w@, true) && forall|k: int| j < k < i ==> !#[trigger] writes_at(av, o, k, x.label()) {
                                    let j = choose|j: int| 0 <= j < i && o[j] == (w@, true) && forall|k: int| j < k < i ==> !#[trigger] writes_at(av, o, k, x.label());
                                    assert(is_txn(av, o[j].0));
                                }
                            }
                        }
                    }
                    clear
                } else {
                    let mut pos: usize = i;
                    let mut k: usize = 0;
                    while k < i
                        invariant
                            0 <= k <= i,
                            pos == i || (pos < k && o[pos as int] == (w@, true)),
                            pos == i ==> forall|m: int| 0 <= m < k ==> o[m] != (w@, true),
                        decreases i - k,
                    {
                        if pos == i && sig[k].1 && sig[k].0.session_id == w.session_id && sig[k].0.session_height == w.session_height {
                            pos = k;
                        }
                        k = k + 1;
                    }
                    if pos == i {
                        false
                    } else {
                        let mut clear = true;
                        let mut k: usize = pos + 1;
                        while k < i
                            invariant
                                pos < i,
                                pos + 1 <= k <= i,
                                clear ==> forall|m: int| pos < m < k ==> !#[trigger] writes_at(av, o, m, x.label()),
                                !clear ==> exists|m: int| pos < m < i && #[trigger] writes_at(av, o, m, x.label()),
                            decreases i - k,
                        {
                            if clear && sig[k].1 && writes_label(po, sig[k].0, x) {
                                assert(writes_at(av, o, k as int, x.label()));
                                clear = false;
                            }
                            k = k + 1;
                        }
                        proof {
                            if !clear {
                                assert(!split_read_explained(av, o, i as int, x.label(), w@)) by {
                                    if exists|j: int| 0 <= j < i && o[j] == (w@, true) && forall|k: int| j < k < i ==> !#[trigger] writes_at(av, o, k, x.label()) {
                                        let j = choose|j: int| 0 <= j < i && o[j] == (w@, true) && forall|k: int| j < k < i ==> !#[trigger] writes_at(av, o, k, x.label());
                                        assert(o[j] == o[pos as int]);
                                        assert(j == pos as int);
                                    }
                                }
                            }
                        }
                        clear
                    }
                };
                if !ok {
                    proof {
                        assert(info.view().1.contains((x.label(), w@)));
                        assert(reads_of(av, o[i as int].0).contains((x.label(), w@)));
                    }
                    return false;
                }
                q = q + 1;
            }
            proof {
                assert forall|x: Seq<char>, w: (u64, u64)| #[trigger] reads_of(av, o[i as int].0).contains((x, w))
                    implies split_read_explained(av, o, i as int, x, w) by {
                    assert(info.view().1.contains((x, w)));
                    let m = choose|m: int| 0 <= m < info.reads@.len() && #[trigger] info.reads@[m].0.label() == x && info.reads@[m].1@ == w;
                    assert(split_read_explained(av, o, i as int, info.reads@[m].0.label(), info.reads@[m].1@));
                }
            }
        }
        i = i + 1;
    }
    true
}

/// The transactions of the write phases, in order.
pub fn project_writes(sig: &Vec<(TransactionId, bool)>) -> (r: Vec<TransactionId>)
    ensures
        crate::graph::digraph::tid_views(r@) == write_projection(phase_views(sig@)),
{
    let mut r: Vec<TransactionId> = Vec::new();
    let mut i: usize = 0;
    while i < sig.len()
        invariant
            0 <= i <= sig@.len(),
            crate::graph::digraph::tid_views(r@) == write_projection(phase_views(sig@).subrange(0, i as int)),
        decreases sig@.len() - i,
    {
        let ghost sub = phase_views(sig@).subrange(0, i + 1);
        assert(sub.drop_last() =~= phase_views(sig@).subrange(0, i as int));
        assert(sub.last() == (sig@[i as int].0@, sig@[i as int].1));
        if sig[i].1 {
            let ghost r0 = r@;
            r.push(sig[i].0);
            assert(crate::graph::digraph::tid_views(r@) =~= crate::graph::digraph::tid_views(r0).push(sig@[i as int].0@));
        }
        i = i + 1;
    }
    assert(phase_views(sig@).subrange(0, sig@.len() as int) =~= phase_views(sig@));
    r
}

/// The phases of split vertices: vertex `v` is the write phase (when odd)
/// or the read phase (when even) of transaction `v / 2`; vertices past the
/// transactions are dropped.
pub open spec fn phases_spec(tids: Seq<TransactionId>, lin: Seq<usize>) -> Seq<((u64, u64), bool)>
    decreases lin.len(),
{
    if lin.len() == 0 {
        Seq::empty()
    } else {
        let prev = phases_spec(tids, lin.drop_last());
        let v = lin.last();
        if v / 2 < tids.len() {
            prev.push((tids[(v / 2) as int]@, v % 2 == 1))
        } else {
            prev
        }
    }
}

/// The order of phases that the search found, as transactions and phases.
pub fn phases_of(p: &LinProblem, lin: &Vec<usize>) -> (r: Vec<(TransactionId, bool)>)
    requires
        p.wf(),
    ensures
        phase_views(r@) == phases_spec(p.tids@, lin@),
{
    let mut sig: Vec<(TransactionId, bool)> = Vec::new();
    let mut i: usize = 0;
    while i < lin.len()
        invariant
            0 <= i <= lin@.len(),
            p.wf(),
            phase_views(sig@) == phases_spec(p.tids@, lin@.subrange(0, i as int)),
        decreases lin@.len() - i,
    {
        let v = lin[i];
        let t = v / 2;
        let ghost s0 = sig@;
        assert(lin@.subrange(0, i + 1).drop_last() =~= lin@.subrange(0, i as int));
        if t < p.tids.len() {
            sig.push((p.tids[t], v % 2 == 1));
            assert(phase_views(sig@) =~= phase_views(s0).push((p.tids@[t as int]@, v % 2 == 1)));
        }
        i = i + 1;
    }
    assert(lin@.subrange(0, lin@.len() as int) =~= lin@);
    sig
}

/// Linearization solver for Prefix consistency: searches the orders of read
/// and write phases that follow visibility, placing a write phase of a
/// variable only once every transaction that reads it from the variable's
/// latest writer has placed its read phase.
#[derive(Debug)]
pub struct PrefixConsistencySolver<Variable> {
    pub history: AtomicTransactionPO<Variable>,
}

impl<Variable: Label> PrefixConsistencySolver<Variable> {
    /// A solver for a partial order.
    pub fn from(history: AtomicTransactionPO<Variable>) -> (r: Self)
        ensures
            r.history == history,
    {
        PrefixConsistencySolver { history }
    }

    /// The search options of this level.
    pub fn search_options(&self) -> (r: DfsSearchOptions)
        ensures
            r.memoize_frontier && r.branch_ordering == BranchOrdering::HighScoreFirst,
    {
        DfsSearchOptions {
            memoize_frontier: true,
            nogood_learning: NogoodLearning::Enabled,
            enable_killer_history: true,
            prefer_allowed_first: true,
            branch_ordering: BranchOrdering::HighScoreFirst,
        }
    }

    /// An order of phases that Prefix consistency accepts, if the search
    /// finds one.
    pub fn get_linearization(&mut self) -> (r: Option<Vec<(TransactionId, bool)>>)
        ensures
            final(self).history == old(self).history,
            r matches Some(sig) ==> is_prefix_order(old(self).history.av(), old(self).history.vis(), phase_views(sig@)),
    {
        let options = self.search_options();
        let p = match LinProblem::build(&self.history, LinKind::Prefix) {
            Some(p) => p,
            None => return None,
        };
        let lin = match get_linearization(&p, options) {
            Some(lin) => lin,
            None => return None,
        };
        let sig = phases_of(&p, &lin);
        if check_prefix_order(&self.history, &sig) {
            Some(sig)
        } else {
            None
        }
    }
}

} // verus!
