//! Step-by-step saturation of the Causal check, and the plain values that a
//! visual trace of a check shows: the level named by its text, the edges a
//! witness orders, and histories with their variables numbered.
use vstd::prelude::*;

use crate::consistency::error::Error;
use crate::consistency::witness::Witness;
use crate::consistency::Consistency;
use crate::graph::digraph::{edge_pairs, edge_set, is_transitive, reaches, DiGraph};
use crate::history::atomic::types::{atomic_ok, atomic_view_of, AtomicTransactionHistory, TransactionId};
use crate::history::atomic::{so_rel, wr_rel, ww_edge, ww_rel, ww_rel_of, mentions_var, AtomicTransactionPO};
use crate::history::raw::types::{Event, Session, Transaction};
use crate::label::{str_equal, Label};

verus! {

broadcast use vstd::seq_lib::group_seq_properties, vstd::set_lib::group_set_lib_default, vstd::set::group_set_axioms;

/// The consistency level that a trace names by its text.
pub open spec fn level_named(level: Seq<char>) -> Option<Consistency> {
    if level == "committed-read"@ {
        Some(Consistency::CommittedRead)
    } else if level == "repeatable-read"@ {
        Some(Consistency::RepeatableRead)
    } else if level == "atomic-read"@ {
        Some(Consistency::AtomicRead)
    } else if level == "causal"@ {
        Some(Consistency::Causal)
    } else if level == "prefix"@ {
        Some(Consistency::Prefix)
    } else if level == "snapshot-isolation"@ {
        Some(Consistency::SnapshotIsolation)
    } else if level == "serializable"@ {
        Some(Consistency::Serializable)
    } else {
        None
    }
}

/// The consistency level named by `level`, if it names one.
pub fn parse_level(level: &str) -> (r: Option<Consistency>)
    ensures
        r == level_named(level@),
{
    if str_equal(level, "committed-read") {
        Some(Consistency::CommittedRead)
    } else if str_equal(level, "repeatable-read") {
        Some(Consistency::RepeatableRead)
    } else if str_equal(level, "atomic-read") {
        Some(Consistency::AtomicRead)
    } else if str_equal(level, "causal") {
        Some(Consistency::Causal)
    } else if str_equal(level, "prefix") {
        Some(Consistency::Prefix)
    } else if str_equal(level, "snapshot-isolation") {
        Some(Consistency::SnapshotIsolation)
    } else if str_equal(level, "serializable") {
        Some(Consistency::Serializable)
    } else {
        None
    }
}

/// The partial order from which the Causal check saturates: the atomic
/// history with the write-read relation made visible and visibility closed
/// transitively.
///
/// # Errors
///
/// The error of [`AtomicTransactionHistory::try_from`] where the history
/// has no atomic abstraction.
pub fn causal_step_init<V: Label>(sessions: &[Session<V, u64>]) -> (r: Result<AtomicTransactionPO<V>, Error<V, u64>>)
    ensures
        r.is_ok() <==> atomic_ok(sessions@),
        r matches Ok(po) ==> {
            let av = atomic_view_of(sessions@);
            &&& po.well_formed()
            &&& po.av() == av
            &&& so_rel(av).subset_of(po.vis())
            &&& wr_rel(av).subset_of(po.vis())
            &&& is_transitive(po.vis())
            &&& forall|a: (u64, u64), b: (u64, u64)| #[trigger] po.vis().contains((a, b)) ==> reaches(so_rel(av).union(wr_rel(av)), a, b)
        },
{
    let atomic_history = match AtomicTransactionHistory::try_from(sessions) {
        Ok(h) => h,
        Err(e) => return Err(e),
    };
    let mut po = AtomicTransactionPO::from(atomic_history);
    let wr = po.get_wr();
    po.vis_includes(&wr);
    po.vis_is_trans();
    Ok(po)
}

/// One step of the Causal saturation: the write-write edges under the
/// current visibility that are not visible yet. Where there are some, they
/// are made visible and visibility is closed transitively again; where
/// there are none, the saturation is done and visibility is unchanged.
pub fn causal_step<V: Label>(po: &mut AtomicTransactionPO<V>) -> (new_edges: Vec<(TransactionId, TransactionId)>)
    requires
        old(po).well_formed(),
    ensures
        final(po).well_formed(),
        final(po).av() == old(po).av(),
        edge_pairs(new_edges@).to_set() == ww_rel(old(po).av(), old(po).vis()).difference(old(po).vis()),
        new_edges@.len() == 0 ==> final(po).vis() == old(po).vis(),
        old(po).vis().subset_of(final(po).vis()),
        edge_pairs(new_edges@).to_set().subset_of(final(po).vis()),
        forall|a: (u64, u64), b: (u64, u64)| #[trigger] final(po).vis().contains((a, b))
            ==> reaches(old(po).vis().union(edge_pairs(new_edges@).to_set()), a, b),
        is_transitive(old(po).vis()) ==> is_transitive(final(po).vis()),
{
    let ghost av = po.av();
    let ghost vis = po.vis();
    let ww = po.causal_ww();
    let mut new_edges: Vec<(TransactionId, TransactionId)> = Vec::new();
    let mut i: usize = 0;
    while i < ww.len()
        invariant
            0 <= i <= ww@.len(),
            po.well_formed(),
            av == po.av(),
            vis == po.vis(),
            ww@.len() == po.write_read_relation@.len(),
            forall|k: int| 0 <= k < ww@.len() ==> edge_set(#[trigger] ww@[k].1.view())
                == ww_rel_of(av, vis, po.write_read_relation@[k].0.label()),
            forall|p: ((u64, u64), (u64, u64))| #[trigger] edge_pairs(new_edges@).to_set().contains(p) <==>
                !vis.contains(p) && exists|k: int| 0 <= k < i && #[trigger] edge_set(ww@[k].1.view()).contains(p),
        decreases ww@.len() - i,
    {
        let edges = ww[i].1.to_edge_list();
        let mut j: usize = 0;
        while j < edges.len()
            invariant
                0 <= i < ww@.len(),
                0 <= j <= edges@.len(),
                vis == po.vis(),
                po.well_formed(),
                edge_pairs(edges@).to_set() == edge_set(ww@[i as int].1.view()),
                forall|p: ((u64, u64), (u64, u64))| #[trigger] edge_pairs(new_edges@).to_set().contains(p) <==>
                    !vis.contains(p) && ((exists|k: int| 0 <= k < i && #[trigger] edge_set(ww@[k].1.view()).contains(p))
                        || edge_pairs(edges@).subrange(0, j as int).contains(p)),
            decreases edges@.len() - j,
        {
            let (src, dst) = edges[j];
            let visible = po.visibility_relation.has_edge(&src, &dst);
            let ghost before = new_edges@;
            if !visible {
                new_edges.push((src, dst));
            }
            proof {
                let es = edge_pairs(edges@);
                assert(es[j as int] == (src@, dst@));
                assert(es.subrange(0, j + 1) =~= es.subrange(0, j as int).push((src@, dst@)));
                assert(visible == vis.contains((src@, dst@)));
                if !visible {
                    assert(edge_pairs(new_edges@) =~= edge_pairs(before).push((src@, dst@)));
                } else {
                    assert(new_edges@ == before);
                }
                assert forall|p: ((u64, u64), (u64, u64))| #[trigger] edge_pairs(new_edges@).to_set().contains(p) <==>
                    !vis.contains(p) && ((exists|k: int| 0 <= k < i && #[trigger] edge_set(ww@[k].1.view()).contains(p))
                        || es.subrange(0, j + 1).contains(p)) by {
                    assert(edge_pairs(before).to_set().contains(p) <==>
                        !vis.contains(p) && ((exists|k: int| 0 <= k < i && #[trigger] edge_set(ww@[k].1.view()).contains(p))
                            || es.subrange(0, j as int).contains(p)));
                    assert(es.subrange(0, j + 1).contains(p) <==> es.subrange(0, j as int).contains(p) || p == (src@, dst@));
                    if !visible {
                        assert(edge_pairs(new_edges@).to_set().contains(p) <==> edge_pairs(before).to_set().contains(p) || p == (src@, dst@));
                    }
                }
            }
            j = j + 1;
        }
        proof {
            assert(edge_pairs(edges@).subrange(0, edges@.len() as int) =~= edge_pairs(edges@));
            assert forall|p: ((u64, u64), (u64, u64))| #[trigger] edge_pairs(new_edges@).to_set().contains(p) <==>
                !vis.contains(p) && exists|k: int| 0 <= k < i + 1 && #[trigger] edge_set(ww@[k].1.view()).contains(p) by {
                if edge_pairs(edges@).contains(p) {
                    assert(edge_pairs(edges@).to_set().contains(p));
                }
                if exists|k: int| 0 <= k < i + 1 && #[trigger] edge_set(ww@[k].1.view()).contains(p) {
                    let k = choose|k: int| 0 <= k < i + 1 && #[trigger] edge_set(ww@[k].1.view()).contains(p);
                    if k == i {
                        assert(edge_pairs(edges@).to_set().contains(p));
                    }
                }
            }
        }
        i = i + 1;
    }
    proof {
        assert forall|p: ((u64, u64), (u64, u64))| #[trigger] edge_pairs(new_edges@).to_set().contains(p)
            <==> ww_rel(av, vis).difference(vis).contains(p) by {
            if ww_rel(av, vis).contains(p) {
                let x = choose|x: Seq<char>| #[trigger] ww_edge(av, vis, x, p.0, p.1);
                assert(mentions_var(av, x)) by {
                    let t = p.1;
                    assert(crate::history::atomic::txn_mentions(av, t.0 - 1, t.1 as int, x));
                }
                let k = choose|k: int| 0 <= k < po.write_read_relation@.len() && #[trigger] po.write_read_relation@[k].0.label() == x;
                assert(ww_rel_of(av, vis, x).contains(p));
                assert(edge_set(ww@[k].1.view()).contains(p));
            }
            if exists|k: int| 0 <= k < ww@.len() && #[trigger] edge_set(ww@[k].1.view()).contains(p) {
                let k = choose|k: int| 0 <= k < ww@.len() && #[trigger] edge_set(ww@[k].1.view()).contains(p);
                assert(ww_rel_of(av, vis, po.write_read_relation@[k].0.label()).contains(p));
                assert(ww_edge(av, vis, po.write_read_relation@[k].0.label(), p.0, p.1));
            }
        }
        assert(edge_pairs(new_edges@).to_set() =~= ww_rel(av, vis).difference(vis));
    }
    if new_edges.len() > 0 {
        let mut copy: Vec<(TransactionId, TransactionId)> = Vec::new();
        let mut k: usize = 0;
        while k < new_edges.len()
            invariant
                0 <= k <= new_edges@.len(),
                copy@ == new_edges@.subrange(0, k as int),
            decreases new_edges@.len() - k,
        {
            copy.push(new_edges[k]);
            k = k + 1;
        }
        assert(copy@ =~= new_edges@);
        po.vis_extend_closed(copy);
        proof {
            assert forall|p: ((u64, u64), (u64, u64))| edge_pairs(new_edges@).to_set().contains(p) implies po.vis().contains(p) by {
                let j = choose|j: int| 0 <= j < edge_pairs(new_edges@).len() && edge_pairs(new_edges@)[j] == p;
                assert(po.vis().contains(edge_pairs(new_edges@)[j]));
            }
        }
    } else {
        proof {
            assert(edge_pairs(new_edges@).to_set() =~= Set::empty());
            assert forall|a: (u64, u64), b: (u64, u64)| #[trigger] po.vis().contains((a, b))
                implies reaches(vis.union(edge_pairs(new_edges@).to_set()), a, b) by {
                crate::graph::digraph::lemma_edge_reaches(vis.union(edge_pairs(new_edges@).to_set()), a, b);
            }
        }
    }
    new_edges
}

/// The consecutive pairs of a list.
pub open spec fn consecutive<A>(s: Seq<A>) -> Seq<(A, A)> {
    Seq::new((if s.len() == 0 { 0 } else { s.len() - 1 }) as nat, |i: int| (s[i], s[i + 1]))
}

/// The edges a witness orders: the visibility edges of a saturation order,
/// and each consecutive pair of a commit order or a split commit order (the
/// latter by transaction).
pub fn witness_edges(witness: &Witness) -> (r: Vec<(TransactionId, TransactionId)>)
    ensures
        witness matches Witness::SaturationOrder(g) ==> edge_pairs(r@).to_set() == edge_set(g.view()),
        witness matches Witness::CommitOrder(o) ==> r@ == consecutive(o@),
        witness matches Witness::SplitCommitOrder(o) ==> r@ == consecutive(o@.map_values(|p: (TransactionId, bool)| p.0)),
{
    match witness {
        Witness::SaturationOrder(g) => g.to_edge_list(),
        Witness::CommitOrder(o) => {
            let mut r: Vec<(TransactionId, TransactionId)> = Vec::new();
            let mut i: usize = 1;
            while i < o.len()
                invariant
                    1 <= i <= o@.len() || (i == 1 && o@.len() == 0),
                    r@.len() == i - 1,
                    forall|k: int| 0 <= k < i - 1 ==> #[trigger] r@[k] == (o@[k], o@[k + 1]),
                decreases o@.len() - i,
            {
                r.push((o[i - 1], o[i]));
                i = i + 1;
            }
            assert(r@ =~= consecutive(o@));
            r
        },
        Witness::SplitCommitOrder(o) => {
            let ghost ts = o@.map_values(|p: (TransactionId, bool)| p.0);
            let mut r: Vec<(TransactionId, TransactionId)> = Vec::new();
            let mut i: usize = 1;
            while i < o.len()
                invariant
                    1 <= i <= o@.len() || (i == 1 && o@.len() == 0),
                    ts == o@.map_values(|p: (TransactionId, bool)| p.0),
                    r@.len() == i - 1,
                    forall|k: int| 0 <= k < i - 1 ==> #[trigger] r@[k] == (ts[k], ts[k + 1]),
                decreases o@.len() - i,
            {
                r.push((o[i - 1].0, o[i].0));
                i = i + 1;
            }
            assert(r@ =~= consecutive(ts));
            r
        },
    }
}

/// The name of the variable an event reads or writes.
pub open spec fn event_label(e: Event<String, u64>) -> Seq<char> {
    match e {
        Event::Read { variable, .. } => variable@,
        Event::Write { variable, .. } => variable@,
    }
}

/// The variable names of a transaction's events, in order.
pub open spec fn txn_labels(t: Transaction<String, u64>) -> Seq<Seq<char>> {
    t.events@.map_values(|e: Event<String, u64>| event_label(e))
}

/// The variable names of the transactions' events, in order.
pub open spec fn txns_labels(ts: Seq<Transaction<String, u64>>) -> Seq<Seq<char>>
    decreases ts.len(),
{
    if ts.len() == 0 {
        Seq::empty()
    } else {
        txns_labels(ts.drop_last()) + txn_labels(ts.last())
    }
}

/// The variable names of a history's events, session after session.
pub open spec fn history_labels(h: Seq<Session<String, u64>>) -> Seq<Seq<char>>
    decreases h.len(),
{
    if h.len() == 0 {
        Seq::empty()
    } else {
        history_labels(h.drop_last()) + txns_labels(h.last()@)
    }
}

/// The distinct names of `s`, in the order of their first appearance.
pub open spec fn first_appearances(s: Seq<Seq<char>>) -> Seq<Seq<char>>
    decreases s.len(),
{
    if s.len() == 0 {
        Seq::empty()
    } else {
        let d = first_appearances(s.drop_last());
        if d.contains(s.last()) {
            d
        } else {
            d.push(s.last())
        }
    }
}

/// The texts of a list of strings.
pub open spec fn string_views(v: Seq<String>) -> Seq<Seq<char>> {
    v.map_values(|x: String| x@)
}

/// The first appearances are distinct, and they are the names of `s`.
pub proof fn lemma_first_appearances(s: Seq<Seq<char>>)
    ensures
        first_appearances(s).no_duplicates(),
        forall|x: Seq<char>| #[trigger] first_appearances(s).contains(x) <==> s.contains(x),
    decreases s.len(),
{
    if s.len() > 0 {
        lemma_first_appearances(s.drop_last());
        let d = first_appearances(s.drop_last());
        assert forall|x: Seq<char>| #[trigger] first_appearances(s).contains(x) <==> s.contains(x) by {
            assert(s =~= s.drop_last().push(s.last()));
            if s.contains(x) && x != s.last() {
                let i = choose|i: int| 0 <= i < s.len() && s[i] == x;
                assert(s.drop_last()[i] == x);
            }
            if s.drop_last().contains(x) {
                let i = choose|i: int| 0 <= i < s.drop_last().len() && s.drop_last()[i] == x;
                assert(s[i] == x);
            }
        }
    }
}

/// Numbers the variables of a history by the order of their first
/// appearance, session after session, transaction after transaction: the
/// first variable named is 0, the next new one 1, and so on. Transactions
/// keep their commit status and events their kind and version.
pub fn map_sessions_to_u64(sessions: Vec<Session<String, u64>>) -> (r: Vec<Session<u64, u64>>)
    ensures
        first_appearances(history_labels(sessions@)).no_duplicates(),
        r@.len() == sessions@.len(),
        forall|s: int| 0 <= s < r@.len() ==> (#[trigger] r@[s])@.len() == sessions@[s]@.len(),
        forall|s: int, t: int| 0 <= s < r@.len() && 0 <= t < r@[s]@.len() ==> (#[trigger] r@[s]@[t]).committed == sessions@[s]@[t].committed
            && r@[s]@[t].events@.len() == sessions@[s]@[t].events@.len(),
        forall|s: int, t: int, e: int| 0 <= s < r@.len() && 0 <= t < r@[s]@.len() && 0 <= e < r@[s]@[t].events@.len() ==>
            mapped_event(#[trigger] r@[s]@[t].events@[e], sessions@[s]@[t].events@[e], first_appearances(history_labels(sessions@))),
{
    let ghost h = sessions@;
    let mut names: Vec<String> = Vec::new();
    let ghost mut seen: Seq<Seq<char>> = Seq::empty();
    let mut s: usize = 0;
    while s < sessions.len()
        invariant
            h == sessions@,
            0 <= s <= h.len(),
            seen == history_labels(h.take(s as int)),
            string_views(names@) == first_appearances(seen),
            forall|a: int, t: int, e: int| 0 <= a < s && 0 <= t < h[a]@.len() && 0 <= e < h[a]@[t].events@.len()
                ==> seen.contains(#[trigger] event_label(h[a]@[t].events@[e])),
        decreases h.len() - s,
    {
        let ghost seen_s = seen;
        let mut t: usize = 0;
        while t < sessions[s].len()
            invariant
                h == sessions@,
                0 <= s < h.len(),
                0 <= t <= h[s as int]@.len(),
                seen_s == history_labels(h.take(s as int)),
                seen == seen_s + txns_labels(h[s as int]@.take(t as int)),
                string_views(names@) == first_appearances(seen),
                forall|a: int, u: int, e: int| 0 <= a < s && 0 <= u < h[a]@.len() && 0 <= e < h[a]@[u].events@.len()
                    ==> seen_s.contains(#[trigger] event_label(h[a]@[u].events@[e])),
                forall|u: int, e: int| 0 <= u < t && 0 <= e < h[s as int]@[u].events@.len()
                    ==> seen.contains(#[trigger] event_label(h[s as int]@[u].events@[e])),
            decreases h[s as int]@.len() - t,
        {
            let ghost seen_t = seen;
            let mut e: usize = 0;
            while e < sessions[s][t].events.len()
                invariant
                    h == sessions@,
                    0 <= s < h.len(),
                    0 <= t < h[s as int]@.len(),
                    0 <= e <= h[s as int]@[t as int].events@.len(),
                    seen == seen_t + txn_labels(h[s as int]@[t as int]).take(e as int),
                    string_views(names@) == first_appearances(seen),
                    forall|k: int| 0 <= k < e ==> seen.contains(#[trigger] event_label(h[s as int]@[t as int].events@[k])),
                    forall|x: Seq<char>| seen_t.contains(x) ==> #[trigger] seen.contains(x),
                decreases h[s as int]@[t as int].events@.len() - e,
            {
                let name: &String = match &sessions[s][t].events[e] {
                    Event::Read { variable, .. } => variable,
                    Event::Write { variable, .. } => variable,
                };
                let ghost lbl = name@;
                assert(lbl == event_label(h[s as int]@[t as int].events@[e as int]));
                let mut k: usize = 0;
                let mut found = false;
                while k < names.len() && !found
                    invariant
                        0 <= k <= names@.len(),
                        lbl == name@,
                        found ==> k < names@.len() && names@[k as int]@ == lbl,
                        !found ==> forall|j: int| 0 <= j < k ==> #[trigger] names@[j]@ != lbl,
                    decreases names@.len() - k + (if found { 0int } else { 1int }),
                {
                    if str_equal(names[k].as_str(), name.as_str()) {
                        found = true;
                    } else {
                        k = k + 1;
                    }
                }
                let ghost before = seen;
                proof {
                    seen = seen.push(lbl);
                    assert(seen.drop_last() == before);
                    assert(txn_labels(h[s as int]@[t as int]).take(e + 1) =~= txn_labels(h[s as int]@[t as int]).take(e as int).push(lbl));
                    assert(seen =~= seen_t + txn_labels(h[s as int]@[t as int]).take(e + 1));
                }
                if !found {
                    proof {
                        assert(!string_views(names@).contains(lbl)) by {
                            if string_views(names@).contains(lbl) {
                                let j = choose|j: int| 0 <= j < string_views(names@).len() && string_views(names@)[j] == lbl;
                                assert(names@[j]@ == lbl);
                            }
                        }
                    }
                    names.push(name.clone());
                    proof {
                        assert(string_views(names@) =~= first_appearances(before).push(lbl));
                    }
                } else {
                    proof {
                        assert(string_views(names@)[k as int] == lbl);
                    }
                }
                proof {
                    assert forall|j: int| 0 <= j < e + 1 implies seen.contains(#[trigger] event_label(h[s as int]@[t as int].events@[j])) by {
                        if j < e {
                            assert(before.contains(event_label(h[s as int]@[t as int].events@[j])));
                        } else {
                            assert(seen[seen.len() - 1] == lbl);
                        }
                    }
                }
                e = e + 1;
            }
            proof {
                let ts = h[s as int]@;
                assert(txn_labels(ts[t as int]).take(ts[t as int].events@.len() as int) =~= txn_labels(ts[t as int]));
                assert(ts.take(t + 1).drop_last() =~= ts.take(t as int));
                assert(txns_labels(ts.take(t + 1)) == txns_labels(ts.take(t as int)) + txn_labels(ts[t as int]));
                assert(seen =~= seen_s + txns_labels(ts.take(t + 1)));
                assert forall|u: int, e2: int| 0 <= u < t + 1 && 0 <= e2 < ts[u].events@.len()
                    implies seen.contains(#[trigger] event_label(h[s as int]@[u].events@[e2])) by {
                    if u < t {
                        assert(seen_t.contains(event_label(h[s as int]@[u].events@[e2])));
                    }
                }
            }
            t = t + 1;
        }
        proof {
            let ts = h[s as int]@;
            assert(ts.take(ts.len() as int) =~= ts);
            assert(h.take(s + 1).drop_last() =~= h.take(s as int));
            assert(history_labels(h.take(s + 1)) == history_labels(h.take(s as int)) + txns_labels(h[s as int]@));
            assert(seen =~= history_labels(h.take(s + 1)));
            assert forall|a: int, u: int, e2: int| 0 <= a < s + 1 && 0 <= u < h[a]@.len() && 0 <= e2 < h[a]@[u].events@.len()
                implies seen.contains(#[trigger] event_label(h[a]@[u].events@[e2])) by {
                if a < s {
                    let x = event_label(h[a]@[u].events@[e2]);
                    assert(seen_s.contains(x));
                    let j = choose|j: int| 0 <= j < seen_s.len() && seen_s[j] == x;
                    assert(seen[j] == x);
                }
            }
        }
        s = s + 1;
    }
    proof {
        assert(h.take(h.len() as int) =~= h);
        lemma_first_appearances(seen);
    }
    let ghost names_v = string_views(names@);
    let mut out: Vec<Session<u64, u64>> = Vec::new();
    let mut s: usize = 0;
    while s < sessions.len()
        invariant
            h == sessions@,
            0 <= s <= h.len(),
            names_v == string_views(names@),
            names_v == first_appearances(history_labels(h)),
            names_v.no_duplicates(),
            forall|a: int, t: int, e: int| 0 <= a < h.len() && 0 <= t < h[a]@.len() && 0 <= e < h[a]@[t].events@.len()
                ==> names_v.contains(#[trigger] event_label(h[a]@[t].events@[e])),
            out@.len() == s,
            forall|a: int| 0 <= a < s ==> (#[trigger] out@[a])@.len() == h[a]@.len(),
            forall|a: int, t: int| 0 <= a < s && 0 <= t < out@[a]@.len() ==> (#[trigger] out@[a]@[t]).committed == h[a]@[t].committed
                && out@[a]@[t].events@.len() == h[a]@[t].events@.len(),
            forall|a: int, t: int, e: int| 0 <= a < s && 0 <= t < out@[a]@.len() && 0 <= e < out@[a]@[t].events@.len() ==>
                mapped_event(#[trigger] out@[a]@[t].events@[e], h[a]@[t].events@[e], names_v),
        decreases h.len() - s,
    {
        let mut txns: Vec<Transaction<u64, u64>> = Vec::new();
        let mut t: usize = 0;
        while t < sessions[s].len()
            invariant
                h == sessions@,
                0 <= s < h.len(),
                0 <= t <= h[s as int]@.len(),
                names_v == string_views(names@),
                names_v.no_duplicates(),
                forall|a: int, u: int, e: int| 0 <= a < h.len() && 0 <= u < h[a]@.len() && 0 <= e < h[a]@[u].events@.len()
                    ==> names_v.contains(#[trigger] event_label(h[a]@[u].events@[e])),
                txns@.len() == t,
                forall|u: int| 0 <= u < t ==> (#[trigger] txns@[u]).committed == h[s as int]@[u].committed
                    && txns@[u].events@.len() == h[s as int]@[u].events@.len(),
                forall|u: int, e: int| 0 <= u < t && 0 <= e < txns@[u].events@.len() ==>
                    mapped_event(#[trigger] txns@[u].events@[e], h[s as int]@[u].events@[e], names_v),
            decreases h[s as int]@.len() - t,
        {
            let mut events: Vec<Event<u64, u64>> = Vec::new();
            let mut e: usize = 0;
            while e < sessions[s][t].events.len()
                invariant
                    h == sessions@,
                    0 <= s < h.len(),
                    0 <= t < h[s as int]@.len(),
                    0 <= e <= h[s as int]@[t as int].events@.len(),
                    names_v == string_views(names@),
                    names_v.no_duplicates(),
                    forall|a: int, u: int, e2: int| 0 <= a < h.len() && 0 <= u < h[a]@.len() && 0 <= e2 < h[a]@[u].events@.len()
                        ==> names_v.contains(#[trigger] event_label(h[a]@[u].events@[e2])),
                    events@.len() == e,
                    forall|k: int| 0 <= k < e ==> mapped_event(#[trigger] events@[k], h[s as int]@[t as int].events@[k], names_v),
                decreases h[s as int]@[t as int].events@.len() - e,
            {
                let ev = &sessions[s][t].events[e];
                let name: &String = match ev {
                    Event::Read { variable, .. } => variable,
                    Event::Write { variable, .. } => variable,
                };
                let ghost lbl = name@;
                proof {
                    assert(lbl == event_label(h[s as int]@[t as int].events@[e as int]));
                    assert(names_v.contains(lbl));
                }
                let mut k: usize = 0;
                let mut found = false;
                while k < names.len() && !found
                    invariant
                        0 <= k <= names@.len(),
                        lbl == name@,
                        found ==> k < names@.len() && names@[k as int]@ == lbl,
                        !found ==> forall|j: int| 0 <= j < k ==> #[trigger] names@[j]@ != lbl,
                    decreases names@.len() - k + (if found { 0int } else { 1int }),
                {
                    if str_equal(names[k].as_str(), name.as_str()) {
                        found = true;
                    } else {
                        k = k + 1;
                    }
                }
                proof {
                    if !found {
                        let j = choose|j: int| 0 <= j < names_v.len() && names_v[j] == lbl;
                        assert(names@[j]@ == lbl);
                    }
                }
                let mapped = match ev {
                    Event::Read { version, .. } => Event::Read { variable: k as u64, version: *version },
                    Event::Write { version, .. } => Event::Write { variable: k as u64, version: *version },
                };
                let ghost e0 = events@;
                events.push(mapped);
                proof {
                    assert(names_v[k as int] == lbl);
                    assert forall|j: int| 0 <= j < e + 1 implies mapped_event(#[trigger] events@[j], h[s as int]@[t as int].events@[j], names_v) by {
                        if j < e {
                            assert(events@[j] == e0[j]);
                        }
                    }
                }
                e = e + 1;
            }
            let ghost t0 = txns@;
            txns.push(Transaction { events, committed: sessions[s][t].committed });
            proof {
                assert forall|u: int, e2: int| 0 <= u < t + 1 && 0 <= e2 < txns@[u].events@.len() implies
                    mapped_event(#[trigger] txns@[u].events@[e2], h[s as int]@[u].events@[e2], names_v) by {
                    if u < t {
                        assert(txns@[u] == t0[u]);
                    }
                }
                assert forall|u: int| 0 <= u < t + 1 implies (#[trigger] txns@[u]).committed == h[s as int]@[u].committed
                    && txns@[u].events@.len() == h[s as int]@[u].events@.len() by {
                    if u < t {
                        assert(txns@[u] == t0[u]);
                    }
                }
            }
            t = t + 1;
        }
        let ghost o0 = out@;
        out.push(txns);
        proof {
            assert forall|a: int, t2: int, e2: int| 0 <= a < s + 1 && 0 <= t2 < out@[a]@.len() && 0 <= e2 < out@[a]@[t2].events@.len() implies
                mapped_event(#[trigger] out@[a]@[t2].events@[e2], h[a]@[t2].events@[e2], names_v) by {
                if a < s {
                    assert(out@[a] == o0[a]);
                }
            }
            assert forall|a: int, t2: int| 0 <= a < s + 1 && 0 <= t2 < out@[a]@.len() implies (#[trigger] out@[a]@[t2]).committed == h[a]@[t2].committed
                && out@[a]@[t2].events@.len() == h[a]@[t2].events@.len() by {
                if a < s {
                    assert(out@[a] == o0[a]);
                }
            }
            assert forall|a: int| 0 <= a < s + 1 implies (#[trigger] out@[a])@.len() == h[a]@.len() by {
                if a < s {
                    assert(out@[a] == o0[a]);
                }
            }
        }
        s = s + 1;
    }
    out
}

/// `ev` is `orig` with its variable numbered by its place in `names`.
pub open spec fn mapped_event(ev: Event<u64, u64>, orig: Event<String, u64>, names: Seq<Seq<char>>) -> bool {
    &&& (ev is Read <==> orig is Read)
    &&& match (ev, orig) {
        (Event::Read { variable, version }, Event::Read { version: v0, .. }) => version == v0
            && variable < names.len() && names[variable as int] == event_label(orig),
        (Event::Write { variable, version }, Event::Write { version: v0, .. }) => version == v0
            && variable < names.len() && names[variable as int] == event_label(orig),
        _ => false,
    }
}

} // verus!
