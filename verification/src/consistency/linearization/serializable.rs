//! Serializability: a total order of the transactions in which every read
//! observes the latest earlier write of its variable.
use vstd::prelude::*;

use crate::consistency::linearization::constrained_linearization::{get_linearization, DfsSearchOptions, BranchOrdering, LinKind, LinProblem, NogoodLearning};
use crate::graph::digraph::tid_views;
use crate::history::atomic::types::{AtomicTransactionInfo, AtomicView, TransactionId};
use crate::history::atomic::{is_txn, writes_var, AtomicTransactionPO};
use crate::label::Label;

verus! {

/// The reads of transaction `t`: each variable it reads from another
/// transaction, with that transaction.
pub open spec fn reads_of(av: AtomicView, t: (u64, u64)) -> Set<(Seq<char>, (u64, u64))> {
    av[t.0 - 1][t.1 as int].1
}

/// `ord` lists every transaction once.
pub open spec fn lists_all_txns(av: AtomicView, ord: Seq<(u64, u64)>) -> bool {
    &&& ord.no_duplicates()
    &&& forall|i: int| 0 <= i < ord.len() ==> is_txn(av, #[trigger] ord[i])
    &&& forall|t: (u64, u64)| #[trigger] is_txn(av, t) ==> ord.contains(t)
}

/// No visibility edge leads from a transaction of `ord` to an earlier one
/// or to itself.
pub open spec fn respects_vis(vis: Set<((u64, u64), (u64, u64))>, ord: Seq<(u64, u64)>) -> bool {
    forall|i: int, j: int| 0 <= j <= i < ord.len() ==> !vis.contains((#[trigger] ord[i], #[trigger] ord[j]))
}

/// The read of `x` from `w` by the transaction at position `i` of `ord`
/// observes the latest write of `x` before it: `w` is the root and nothing
/// earlier writes `x`, or `w` is earlier and nothing between writes `x`.
pub open spec fn read_explained(av: AtomicView, ord: Seq<(u64, u64)>, i: int, x: Seq<char>, w: (u64, u64)) -> bool {
    ||| w == (0u64, 0u64) && forall|k: int| 0 <= k < i ==> !writes_var(av, #[trigger] ord[k], x)
    ||| exists|j: int| 0 <= j < i && ord[j] == w && forall|k: int| j < k < i ==> !writes_var(av, #[trigger] ord[k], x)
}

/// `ord` is a serialization: it lists every transaction once, follows
/// visibility, and explains every read.
pub open spec fn is_serialization(av: AtomicView, vis: Set<((u64, u64), (u64, u64))>, ord: Seq<(u64, u64)>) -> bool {
    &&& lists_all_txns(av, ord)
    &&& respects_vis(vis, ord)
    &&& forall|i: int, x: Seq<char>, w: (u64, u64)| 0 <= i < ord.len() && #[trigger] reads_of(av, ord[i]).contains((x, w))
        ==> read_explained(av, ord, i, x, w)
}

/// The information of transaction `t`, if it is one.
pub fn info_of<V: Label>(po: &AtomicTransactionPO<V>, t: TransactionId) -> (r: Option<&AtomicTransactionInfo<V>>)
    ensures
        r is Some <==> is_txn(po.av(), t@),
        r matches Some(info) ==> info.view() == po.av()[t@.0 - 1][t@.1 as int],
{
    if t.session_id == 0 {
        return None;
    }
    let s = t.session_id - 1;
    if s >= po.history.0.len() as u64 {
        return None;
    }
    let su = s as usize;
    if t.session_height >= po.history.0[su].len() as u64 {
        return None;
    }
    Some(&po.history.0[su][t.session_height as usize])
}

/// Whether transaction `t` writes the variable named like `x`.
pub fn writes_label<V: Label>(po: &AtomicTransactionPO<V>, t: TransactionId, x: &V) -> (r: bool)
    ensures
        r == writes_var(po.av(), t@, x.label()),
{
    match info_of(po, t) {
        None => false,
        Some(info) => {
            let mut k: usize = 0;
            while k < info.writes.len()
                invariant
                    0 <= k <= info.writes@.len(),
                    is_txn(po.av(), t@),
                    info.view() == po.av()[t@.0 - 1][t@.1 as int],
                    forall|m: int| 0 <= m < k ==> #[trigger] info.writes@[m].label() != x.label(),
                decreases info.writes@.len() - k,
            {
                if info.writes[k].same_label(x) {
                    assert(info.view().0.contains(x.label()));
                    return true;
                }
                k = k + 1;
            }
            false
        },
    }
}

/// Whether `ord` is a serialization of the partial order.
#[verifier::loop_isolation(false)]
pub fn check_serialization<V: Label>(po: &AtomicTransactionPO<V>, ord: &Vec<TransactionId>) -> (r: bool)
    ensures
        r == is_serialization(po.av(), po.vis(), tid_views(ord@)),
{
    let ghost av = po.av();
    let ghost vis = po.vis();
    let ghost o = tid_views(ord@);
    // every element is a transaction, listed once
    let mut i: usize = 0;
    while i < ord.len()
        invariant
            0 <= i <= ord@.len(),
            o == tid_views(ord@),
            forall|k: int| 0 <= k < i ==> is_txn(av, #[trigger] o[k]),
            forall|k: int, l: int| 0 <= k < l < i ==> #[trigger] o[k] != #[trigger] o[l],
        decreases ord@.len() - i,
    {
        if info_of(po, ord[i]).is_none() {
            assert(!is_txn(av, o[i as int]));
            return false;
        }
        let mut j: usize = 0;
        while j < i
            invariant
                0 <= j <= i < ord@.len(),
                forall|l: int| 0 <= l < j ==> o[l] != o[i as int],
            decreases i - j,
        {
            if ord[j].session_id == ord[i].session_id && ord[j].session_height == ord[i].session_height {
                assert(o[j as int] == o[i as int]);
                return false;
            }
            j = j + 1;
        }
        i = i + 1;
    }
    assert(o.no_duplicates()) by {
        assert forall|k: int, l: int| 0 <= k < o.len() && 0 <= l < o.len() && k != l implies o[k] != o[l] by {
            if k < l {
                assert(o[k] != o[l]);
            } else {
                assert(o[l] != o[k]);
            }
        }
    }
    // every transaction is listed
    let mut s: usize = 0;
    while s < po.history.0.len()
        invariant
            0 <= s <= po.history.0.len(),
            forall|t: (u64, u64)| #[trigger] is_txn(av, t) && t.0 <= s ==> o.contains(t),
        decreases po.history.0.len() - s,
    {
        let mut h: usize = 0;
        while h < po.history.0[s].len()
            invariant
                0 <= s < po.history.0.len(),
                0 <= h <= po.history.0@[s as int]@.len(),
                forall|t: (u64, u64)| #[trigger] is_txn(av, t) && (t.0 <= s || (t.0 == s + 1 && t.1 < h)) ==> o.contains(t),
            decreases po.history.0@[s as int]@.len() - h,
        {
            let me = TransactionId { session_id: (s + 1) as u64, session_height: h as u64 };
            let mut found = false;
            let mut k: usize = 0;
            while k < ord.len()
                invariant
                    0 <= k <= ord@.len(),
                    found ==> o.contains(me@),
                    !found ==> forall|m: int| 0 <= m < k ==> o[m] != me@,
                decreases ord@.len() - k,
            {
                if ord[k].session_id == me.session_id && ord[k].session_height == me.session_height {
                    assert(o[k as int] == me@);
                    found = true;
                }
                k = k + 1;
            }
            if !found {
                assert(is_txn(av, me@));
                assert(!o.contains(me@));
                return false;
            }
            h = h + 1;
        }
        s = s + 1;
    }
    assert(lists_all_txns(av, o)) by {
        assert forall|t: (u64, u64)| #[trigger] is_txn(av, t) implies o.contains(t) by {
            assert(t.0 <= po.history.0@.len());
        }
    }
    // visibility is followed
    let mut i: usize = 0;
    while i < ord.len()
        invariant
            0 <= i <= ord@.len(),
            forall|a: int, b: int| 0 <= b <= a < i ==> !vis.contains((#[trigger] o[a], #[trigger] o[b])),
        decreases ord@.len() - i,
    {
        let mut j: usize = 0;
        while j <= i
            invariant
                0 <= i < ord@.len(),
                0 <= j <= i + 1,
                forall|a: int, b: int| 0 <= b <= a < i ==> !vis.contains((#[trigger] o[a], #[trigger] o[b])),
                forall|b: int| 0 <= b < j ==> !vis.contains((o[i as int], #[trigger] o[b])),
            decreases i + 1 - j,
        {
            if po.visibility_relation.has_edge(&ord[i], &ord[j]) {
                assert(vis.contains((o[i as int], o[j as int])));
                return false;
            }
            j = j + 1;
        }
        i = i + 1;
    }
    // every read is explained
    let mut i: usize = 0;
    while i < ord.len()
        invariant
            0 <= i <= ord@.len(),
            lists_all_txns(av, o),
            forall|a: int, x: Seq<char>, w: (u64, u64)| 0 <= a < i && #[trigger] reads_of(av, o[a]).contains((x, w))
                ==> read_explained(av, o, a, x, w),
        decreases ord@.len() - i,
    {
        let t = ord[i];
        let info = match info_of(po, t) {
            Some(info) => info,
            None => {
                assert(is_txn(av, o[i as int]));
                return false;
            },
        };
        let mut q: usize = 0;
        while q < info.reads.len()
            invariant
                0 <= i < ord@.len(),
                0 <= q <= info.reads@.len(),
                info.view() == av[t@.0 - 1][t@.1 as int],
                t@ == o[i as int],
                forall|m: int| 0 <= m < q ==> read_explained(av, o, i as int, #[trigger] info.reads@[m].0.label(), info.reads@[m].1@),
            decreases info.reads@.len() - q,
        {
            let x = &info.reads[q].0;
            let w = info.reads[q].1;
            let ok = if w.session_id == 0 && w.session_height == 0 {
                let mut clear = true;
                let mut k: usize = 0;
                while k < i
                    invariant
                        0 <= k <= i,
                        clear ==> forall|m: int| 0 <= m < k ==> !writes_var(av, #[trigger] o[m], x.label()),
                        !clear ==> !(forall|m: int| 0 <= m < i ==> !writes_var(av, #[trigger] o[m], x.label())),
                    decreases i - k,
                {
                    if clear && writes_label(po, ord[k], x) {
                        assert(writes_var(av, o[k as int], x.label()));
                        clear = false;
                    }
                    k = k + 1;
                }
                proof {
                    if !clear {
                        assert(!read_explained(av, o, i as int, x.label(), w@)) by {
                            if exists|j: int| 0 <= j < i && o[j] == w@ && forall|k: int| j < k < i ==> !writes_var(av, #[trigger] o[k], x.label()) {
                                let j = choose|j: int| 0 <= j < i && o[j] == w@ && forall|k: int| j < k < i ==> !writes_var(av, #[trigger] o[k], x.label());
                                assert(is_txn(av, o[j]));
                            }
                        }
                    }
                }
                clear
            } else {
                // the position of the writer
                let mut pos: usize = i;
                let mut k: usize = 0;
                while k < i
                    invariant
                        0 <= k <= i,
                        pos == i || (pos < k && o[pos as int] == w@),
                        pos == i ==> forall|m: int| 0 <= m < k ==> o[m] != w@,
                    decreases i - k,
                {
                    if pos == i && ord[k].session_id == w.session_id && ord[k].session_height == w.session_height {
                        pos = k;
                    }
                    k = k + 1;
                }
                if pos == i {
                    false
                } else {
                    let mut clear = true;
                    let mut k: usize = pos + 1;
                    while k < i
                        invariant
                            pos < i,
                            pos + 1 <= k <= i,
                            clear ==> forall|m: int| pos < m < k ==> !writes_var(av, #[trigger] o[m], x.label()),
                            !clear ==> exists|m: int| pos < m < i && writes_var(av, #[trigger] o[m], x.label()),
                        decreases i - k,
                    {
                        if clear && writes_label(po, ord[k], x) {
                            assert(writes_var(av, o[k as int], x.label()));
                            clear = false;
                        }
                        k = k + 1;
                    }
                    proof {
                        if !clear {
                            assert(!read_explained(av, o, i as int, x.label(), w@)) by {
                                if exists|j: int| 0 <= j < i && o[j] == w@ && forall|k: int| j < k < i ==> !writes_var(av, #[trigger] o[k], x.label()) {
                                    let j = choose|j: int| 0 <= j < i && o[j] == w@ && forall|k: int| j < k < i ==> !writes_var(av, #[trigger] o[k], x.label());
                                    assert(o[j] == o[pos as int]);
                                    assert(j == pos as int);
                                }
                            }
                        }
                    }
                    clear
                }
            };
            if !ok {
                proof {
                    assert(info.view().1.contains((x.label(), w@)));
                    assert(reads_of(av, o[i as int]).contains((x.label(), w@)));
                }
                return false;
            }
            q = q + 1;
        }
        proof {
            assert forall|x: Seq<char>, w: (u64, u64)| #[trigger] reads_of(av, o[i as int]).contains((x, w))
                implies read_explained(av, o, i as int, x, w) by {
                assert(info.view().1.contains((x, w)));
                let m = choose|m: int| 0 <= m < info.reads@.len() && #[trigger] info.reads@[m].0.label() == x && info.reads@[m].1@ == w;
                assert(read_explained(av, o, i as int, info.reads@[m].0.label(), info.reads@[m].1@));
            }
        }
        i = i + 1;
    }
    true
}

/// Linearization solver for Serializability: searches the total orders
/// that follow visibility, placing a writer of a variable only once every
/// transaction that reads it from the variable's latest writer is placed.
#[derive(Debug)]
pub struct SerializabilitySolver<Variable> {
    pub history: AtomicTransactionPO<Variable>,
}

impl<Variable: Label> SerializabilitySolver<Variable> {
    /// A solver for a partial order.
    pub fn from(history: AtomicTransactionPO<Variable>) -> (r: Self)
        ensures
            r.history == history,
    {
        SerializabilitySolver { history }
    }

    /// The search options of this level.
    pub fn search_options(&self) -> (r: DfsSearchOptions)
        ensures
            r.memoize_frontier && r.prefer_allowed_first && r.branch_ordering == BranchOrdering::HighScoreFirst,
    {
        DfsSearchOptions {
            memoize_frontier: true,
            nogood_learning: NogoodLearning::Enabled,
            enable_killer_history: true,
            prefer_allowed_first: true,
            branch_ordering: BranchOrdering::HighScoreFirst,
        }
    }

    /// A serialization of the transactions, if the search finds one.
    pub fn get_linearization(&mut self) -> (r: Option<Vec<TransactionId>>)
        ensures
            final(self).history == old(self).history,
            r matches Some(ord) ==> is_serialization(old(self).history.av(), old(self).history.vis(), tid_views(ord@)),
    {
        let options = self.search_options();
        let p = match LinProblem::build(&self.history, LinKind::Serializable) {
            Some(p) => p,
            None => return None,
        };
        let lin = match get_linearization(&p, options) {
            Some(lin) => lin,
            None => return None,
        };
        let mut ord: Vec<TransactionId> = Vec::new();
        let mut i: usize = 0;
        while i < lin.len()
            invariant
                0 <= i <= lin@.len(),
                p.wf(),
            decreases lin@.len() - i,
        {
            let v = lin[i];
            if v < p.tids.len() {
                ord.push(p.tids[v]);
            }
            i = i + 1;
        }
        if check_serialization(&self.history, &ord) {
            Some(ord)
        } else {
            None
        }
    }
}

} // verus!
