//! Constrained linearization: a depth-first search over the topological
//! orders of the visibility graph, pruned by the constraints of a
//! consistency level.
//!
//! The search keeps a frontier of vertices whose parents are all placed.
//! At each step it tries the frontier's vertices, the ones the level allows
//! first and the higher-scoring ones before the lower, places one, updates
//! the level's book-keeping, and recurses; on failure it undoes the step.
//! Search states are remembered by a Zobrist signature of the frontier and
//! the book-keeping, and a state met twice is not searched again.
//!
//! The levels' solvers check the order the search returns against the
//! level's definition before they hand it out.
use core::hash::BuildHasher;

use vstd::prelude::*;

use crate::collections::{u128_set_contains, u128_set_contents, u128_set_insert, u128_set_new, U128Set};
use crate::graph::digraph::tid_views;
use crate::history::atomic::types::TransactionId;
use crate::history::atomic::AtomicTransactionPO;
use crate::label::Label;

verus! {

/// Branch-ordering mode for the frontier.
#[derive(Debug, Clone, Copy, PartialEq, Eq, Structural)]
pub enum BranchOrdering {
    /// Keep frontier order as provided.
    AsProvided,
    /// Try higher-scoring candidates first.
    HighScoreFirst,
    /// Try lower-scoring candidates first.
    LowScoreFirst,
}

/// Nogood-learning mode: whether failed states are remembered.
#[derive(Debug, Clone, Copy, PartialEq, Eq, Structural)]
pub enum NogoodLearning {
    Disabled,
    Enabled,
}

/// Search options.
#[derive(Debug, Clone, Copy, PartialEq, Eq, Structural)]
pub struct DfsSearchOptions {
    /// Remember search states by signature and skip repeated ones.
    pub memoize_frontier: bool,
    /// Remember the signatures of states whose search failed.
    pub nogood_learning: NogoodLearning,
    /// Reorder candidates by the history of failed moves.
    pub enable_killer_history: bool,
    /// Try the candidates the level allows before the others.
    pub prefer_allowed_first: bool,
    /// Candidate ordering strategy.
    pub branch_ordering: BranchOrdering,
}

impl Default for DfsSearchOptions {
    fn default() -> (r: Self)
        ensures
            r.memoize_frontier,
            r.nogood_learning == NogoodLearning::Enabled,
            r.enable_killer_history,
            r.prefer_allowed_first,
            r.branch_ordering == BranchOrdering::AsProvided,
    {
        DfsSearchOptions {
            memoize_frontier: true,
            nogood_learning: NogoodLearning::Enabled,
            enable_killer_history: true,
            prefer_allowed_first: true,
            branch_ordering: BranchOrdering::AsProvided,
        }
    }
}

/// `BuildHasher::hash_one` of std's `DefaultHasher` (SipHash with fixed
/// keys) on `(seed, salt, value)`: the same arguments give the same hash
/// within a build. std documents neither the algorithm nor its stability
/// across releases, and it hashes integers in the machine's byte order, so
/// nothing is promised of the value.
#[verifier::external_body]
fn seeded_hash_u64(seed: u64, salt: u64, value: (u64, u64, u64)) -> u64 {
    core::hash::BuildHasherDefault::<std::hash::DefaultHasher>::default().hash_one((seed, salt, value))
}

/// A seeded 128-bit hash of a vertex key, from two 64-bit hashes.
pub fn seeded_hash_u128(seed: u64, value: (u64, u64, u64)) -> u128 {
    let lo = seeded_hash_u64(seed, 0, value);
    let hi = seeded_hash_u64(seed, 1, value);
    ((hi as u128) * 0x1_0000_0000_0000_0000u128) + (lo as u128)
}

/// The Zobrist token of a vertex key, used to hash frontiers incrementally.
pub fn default_zobrist_value(v: &(u64, u64, u64)) -> u128 {
    seeded_hash_u128(0, *v)
}

/// The level a search linearizes for.
#[derive(Clone, Copy, PartialEq, Eq, Structural)]
pub enum LinKind {
    Serializable,
    Prefix,
    SnapshotIsolation,
}

/// The identifiers of the transactions of a history, session by session and
/// in session order; sessions are numbered from 1.
pub open spec fn txn_ids<T>(h: Seq<Vec<T>>) -> Seq<(u64, u64)>
    decreases h.len(),
{
    if h.len() == 0 {
        Seq::empty()
    } else {
        txn_ids(h.drop_last()) + Seq::new(h.last()@.len(), |j: int| (h.len() as u64, j as u64))
    }
}

/// The search problem: transactions by index, their reads and writes by
/// variable index, who reads each variable from each writer, and the
/// children of each vertex. With split vertices (Prefix, Snapshot Isolation)
/// vertex `2 i` is the read phase and `2 i + 1` the write phase of
/// transaction `i`; otherwise vertex `i` is transaction `i`.
pub struct LinProblem {
    pub kind: LinKind,
    pub tids: Vec<TransactionId>,
    pub reads: Vec<Vec<(usize, usize)>>,
    pub writes: Vec<Vec<usize>>,
    pub readers: Vec<Vec<Vec<usize>>>,
    pub children: Vec<Vec<usize>>,
    pub n_vars: usize,
}

impl LinProblem {
    /// The indices of the problem are consistent.
    pub open spec fn wf(&self) -> bool {
        &&& self.reads@.len() == self.tids@.len()
        &&& self.writes@.len() == self.tids@.len()
        &&& self.readers@.len() == self.n_vars
        &&& forall|x: int| 0 <= x < self.n_vars ==> #[trigger] self.readers@[x]@.len() == self.tids@.len() + 1
        &&& self.children@.len() == self.n_vertices()
        &&& self.tids@.len() < 0x4000_0000
        &&& self.n_vars < 0x4000_0000
    }

    /// The number of vertices.
    pub open spec fn n_vertices(&self) -> nat {
        if self.kind == LinKind::Serializable { self.tids@.len() } else { 2 * self.tids@.len() }
    }

    /// The transaction of a vertex.
    pub open spec fn txn_spec(&self, v: int) -> int {
        if self.kind == LinKind::Serializable { v } else { v / 2 }
    }

    /// Whether a vertex is a write phase.
    pub open spec fn write_phase_spec(&self, v: int) -> bool {
        self.kind == LinKind::Serializable || v % 2 == 1
    }

    /// Whether a vertex is a read phase.
    pub open spec fn read_phase_spec(&self, v: int) -> bool {
        self.kind == LinKind::Serializable || v % 2 == 0
    }

    /// The transaction of a vertex.
    fn txn_of(&self, v: usize) -> (r: usize)
        requires
            self.wf(),
        ensures
            r == self.txn_spec(v as int),
            v < self.n_vertices() ==> r < self.tids@.len(),
    {
        if self.kind == LinKind::Serializable { v } else { v / 2 }
    }

    /// Whether a vertex is a write phase (always, without split vertices).
    fn is_write_phase(&self, v: usize) -> (r: bool)
        ensures
            r == self.write_phase_spec(v as int),
    {
        if self.kind == LinKind::Serializable { true } else { v % 2 == 1 }
    }

    /// Whether a vertex is a read phase (always, without split vertices).
    fn is_read_phase(&self, v: usize) -> (r: bool)
        ensures
            r == self.read_phase_spec(v as int),
    {
        if self.kind == LinKind::Serializable { true } else { v % 2 == 0 }
    }

    /// The index of a transaction identifier.
    fn index_of(tids: &Vec<TransactionId>, t: TransactionId) -> (r: Option<usize>)
        ensures
            r matches Some(i) ==> i < tids@.len() && tids@[i as int]@ == t@
                && forall|k: int| 0 <= k < i ==> #[trigger] tids@[k]@ != t@,
            r is None ==> forall|k: int| 0 <= k < tids@.len() ==> #[trigger] tids@[k]@ != t@,
    {
        let mut i: usize = 0;
        while i < tids.len()
            invariant
                0 <= i <= tids.len(),
                forall|k: int| 0 <= k < i ==> #[trigger] tids@[k]@ != t@,
            decreases tids.len() - i,
        {
            if tids[i].session_id == t.session_id && tids[i].session_height == t.session_height {
                return Some(i);
            }
            i = i + 1;
        }
        None
    }

    /// The index of the variable named like `x`.
    fn var_index<V: Label>(po: &AtomicTransactionPO<V>, x: &V) -> (r: Option<usize>)
        ensures
            r matches Some(i) ==> i < po.write_read_relation@.len()
                && po.write_read_relation@[i as int].0.label() == x.label()
                && forall|k: int| 0 <= k < i ==> #[trigger] po.write_read_relation@[k].0.label() != x.label(),
            r is None ==> forall|k: int| 0 <= k < po.write_read_relation@.len() ==> #[trigger] po.write_read_relation@[k].0.label() != x.label(),
    {
        let mut i: usize = 0;
        while i < po.write_read_relation.len()
            invariant
                0 <= i <= po.write_read_relation@.len(),
                forall|k: int| 0 <= k < i ==> #[trigger] po.write_read_relation@[k].0.label() != x.label(),
            decreases po.write_read_relation@.len() - i,
        {
            if po.write_read_relation[i].0.same_label(x) {
                return Some(i);
            }
            i = i + 1;
        }
        None
    }

    /// The search problem of a partial order: `None` exactly when it has
    /// `2^30` transactions or variables or more.
    pub fn build<V: Label>(po: &AtomicTransactionPO<V>, kind: LinKind) -> (p: Option<LinProblem>)
        ensures
            p is Some <==> txn_ids(po.history.0@).len() < 0x4000_0000 && po.write_read_relation@.len() < 0x4000_0000,
            p matches Some(q) ==> q.wf() && q.kind == kind && tid_views(q.tids@) == txn_ids(po.history.0@)
                && q.n_vars == po.write_read_relation@.len(),
    {
        let ghost h = po.history.0@;
        let mut tids: Vec<TransactionId> = Vec::new();
        let mut s: usize = 0;
        while s < po.history.0.len()
            invariant
                0 <= s <= po.history.0@.len(),
                h == po.history.0@,
                tid_views(tids@) == txn_ids(h.subrange(0, s as int)),
            decreases po.history.0@.len() - s,
        {
            let mut t: usize = 0;
            while t < po.history.0[s].len()
                invariant
                    0 <= s < po.history.0.len(),
                    h == po.history.0@,
                    0 <= t <= po.history.0@[s as int]@.len(),
                    tid_views(tids@) == txn_ids(h.subrange(0, s as int)) + Seq::new(t as nat, |j: int| ((s + 1) as u64, j as u64)),
                decreases po.history.0@[s as int]@.len() - t,
            {
                let ghost t0 = tids@;
                tids.push(TransactionId { session_id: (s + 1) as u64, session_height: t as u64 });
                assert(tid_views(tids@) =~= tid_views(t0).push(((s + 1) as u64, t as u64)));
                assert(Seq::new((t + 1) as nat, |j: int| ((s + 1) as u64, j as u64)) =~= Seq::new(t as nat, |j: int| ((s + 1) as u64, j as u64)).push(((s + 1) as u64, t as u64)));
                assert(tid_views(tids@) =~= txn_ids(h.subrange(0, s as int)) + Seq::new((t + 1) as nat, |j: int| ((s + 1) as u64, j as u64)));
                t = t + 1;
            }
            assert(h.subrange(0, s + 1).drop_last() =~= h.subrange(0, s as int));
            assert(h.subrange(0, s + 1).last() == h[s as int]);
            assert(tid_views(tids@) =~= txn_ids(h.subrange(0, s + 1)));
            s = s + 1;
        }
        assert(h.subrange(0, h.len() as int) =~= h);
        let n = tids.len();
        let n_vars = po.write_read_relation.len();
        if (n as u64) >= 0x4000_0000u64 || (n_vars as u64) >= 0x4000_0000u64 {
            return None;
        }
        let mut reads: Vec<Vec<(usize, usize)>> = Vec::new();
        let mut writes: Vec<Vec<usize>> = Vec::new();
        let mut i: usize = 0;
        while i < n
            invariant
                0 <= i <= n,
                n == tids@.len(),
                reads@.len() == i,
                writes@.len() == i,
            decreases n - i,
        {
            let tid = tids[i];
            let mut rs: Vec<(usize, usize)> = Vec::new();
            let mut ws: Vec<usize> = Vec::new();
            let sidx: usize = if tid.session_id >= 1 { (tid.session_id - 1) as usize } else { usize::MAX };
            let hidx = tid.session_height as usize;
            if sidx < po.history.0.len() && hidx < po.history.0[sidx].len() {
                let info = &po.history.0[sidx][hidx];
                let mut k: usize = 0;
                while k < info.writes.len()
                    invariant
                        0 <= k <= info.writes@.len(),
                    decreases info.writes@.len() - k,
                {
                    match Self::var_index(po, &info.writes[k]) {
                        Some(x) => ws.push(x),
                        None => {},
                    }
                    k = k + 1;
                }
                let mut k: usize = 0;
                while k < info.reads.len()
                    invariant
                        0 <= k <= info.reads@.len(),
                    decreases info.reads@.len() - k,
                {
                    let w = info.reads[k].1;
                    let widx = if w.session_id == 0 && w.session_height == 0 {
                        Some(n)
                    } else {
                        Self::index_of(&tids, w)
                    };
                    match (Self::var_index(po, &info.reads[k].0), widx) {
                        (Some(x), Some(wi)) => rs.push((x, wi)),
                        _ => {},
                    }
                    k = k + 1;
                }
            }
            reads.push(rs);
            writes.push(ws);
            i = i + 1;
        }
        assert(n < 0x4000_0000);
        let mut readers: Vec<Vec<Vec<usize>>> = Vec::new();
        let mut x: usize = 0;
        while x < n_vars
            invariant
                0 <= x <= n_vars,
                n_vars == po.write_read_relation@.len(),
                n == tids@.len(),
                n < 0x4000_0000,
                readers@.len() == x,
                forall|y: int| 0 <= y < x ==> #[trigger] readers@[y]@.len() == n + 1,
            decreases n_vars - x,
        {
            let g = &po.write_read_relation[x].1;
            let mut per_writer: Vec<Vec<usize>> = Vec::new();
            let mut w: usize = 0;
            while w <= n
                invariant
                    0 <= w <= n + 1,
                    n == tids@.len(),
                    n < 0x4000_0000,
                    per_writer@.len() == w,
                decreases n + 1 - w,
            {
                let wt = if w == n { TransactionId::root() } else { tids[w] };
                let succ = g.successors(&wt);
                let mut rs: Vec<usize> = Vec::new();
                let mut k: usize = 0;
                while k < succ.len()
                    invariant
                        0 <= k <= succ@.len(),
                    decreases succ@.len() - k,
                {
                    match Self::index_of(&tids, succ[k]) {
                        Some(r) => rs.push(r),
                        None => {},
                    }
                    k = k + 1;
                }
                per_writer.push(rs);
                w = w + 1;
            }
            let ghost r0 = readers@;
            readers.push(per_writer);
            proof {
                assert forall|y: int| 0 <= y < x + 1 implies #[trigger] readers@[y]@.len() == n + 1 by {
                    if y < x {
                        assert(readers@[y] == r0[y]);
                    }
                }
            }
            x = x + 1;
        }
        let split = kind != LinKind::Serializable;
        let mut children: Vec<Vec<usize>> = Vec::new();
        let mut i: usize = 0;
        while i < n
            invariant
                0 <= i <= n,
                n == tids@.len(),
                n < 0x4000_0000,
                split == (kind != LinKind::Serializable),
                children@.len() == if split { 2 * i } else { i as int },
            decreases n - i,
        {
            let succ = po.visibility_relation.successors(&tids[i]);
            let mut cs: Vec<usize> = Vec::new();
            let mut k: usize = 0;
            while k < succ.len()
                invariant
                    0 <= k <= succ@.len(),
                    n == tids@.len(),
                    n < 0x4000_0000,
                decreases succ@.len() - k,
            {
                match Self::index_of(&tids, succ[k]) {
                    Some(j) => {
                        if split {
                            cs.push(2 * j);
                        } else {
                            cs.push(j);
                        }
                    },
                    None => {},
                }
                k = k + 1;
            }
            if split {
                let mut own: Vec<usize> = Vec::new();
                own.push(2 * i + 1);
                children.push(own);
            }
            children.push(cs);
            i = i + 1;
        }
        Some(LinProblem { kind, tids, reads, writes, readers, children, n_vars })
    }
}

/// The state of a search.
pub struct DfsState {
    /// Per vertex, the number of its parents not yet placed.
    pub active_parent: Vec<usize>,
    /// The vertices whose parents are all placed, not yet placed themselves.
    pub frontier: Vec<usize>,
    /// The vertices placed so far, in order.
    pub linearization: Vec<usize>,
    /// Per variable, the transactions that read it from its latest placed
    /// writer and have not placed their read yet.
    pub active_write: Vec<Vec<usize>>,
    /// Per variable, whether a transaction that writes it has placed its read
    /// phase but not its write phase.
    pub active_variable: Vec<bool>,
    /// The XOR of the Zobrist tokens of the frontier.
    pub frontier_hash: u128,
    /// The signatures of the states searched.
    pub seen: U128Set,
    /// The signatures of the states whose search failed.
    pub nogood: U128Set,
    pub options: DfsSearchOptions,
}

impl DfsState {
    /// The sizes of the state agree with the problem.
    pub open spec fn wf(&self, p: &LinProblem) -> bool {
        &&& self.active_parent@.len() == p.n_vertices()
        &&& self.active_write@.len() == p.n_vars
        &&& self.active_variable@.len() == p.n_vars
    }

    /// Every vertex of the frontier and of the order is a vertex of the
    /// problem.
    pub open spec fn in_range(&self, p: &LinProblem) -> bool {
        &&& forall|i: int| 0 <= i < self.frontier@.len() ==> #[trigger] self.frontier@[i] < p.children@.len()
        &&& forall|i: int| 0 <= i < self.linearization@.len() ==> #[trigger] self.linearization@[i] < p.children@.len()
    }
}

/// Whether `v` occurs in `s`.
fn contains_index(s: &Vec<usize>, v: usize) -> (r: bool)
    ensures
        r == s@.contains(v),
{
    let mut i: usize = 0;
    while i < s.len()
        invariant
            0 <= i <= s.len(),
            forall|k: int| 0 <= k < i ==> s@[k] != v,
        decreases s.len() - i,
    {
        if s[i] == v {
            return true;
        }
        i = i + 1;
    }
    false
}

/// Removes every occurrence of `v` from `s`; reports whether there was one.
fn remove_index(s: &mut Vec<usize>, v: usize) -> (r: bool)
    ensures
        !final(s)@.contains(v),
        forall|u: usize| u != v ==> (#[trigger] final(s)@.contains(u) <==> old(s)@.contains(u)),
        r == old(s)@.contains(v),
{
    let ghost s0 = s@;
    let mut out: Vec<usize> = Vec::new();
    let mut found = false;
    let mut i: usize = 0;
    while i < s.len()
        invariant
            0 <= i <= s.len(),
            s@ == s0,
            !out@.contains(v),
            forall|u: usize| u != v ==> (#[trigger] out@.contains(u) <==> s0.subrange(0, i as int).contains(u)),
            found == s0.subrange(0, i as int).contains(v),
        decreases s.len() - i,
    {
        let ghost o0 = out@;
        let ghost sub1 = s0.subrange(0, i + 1);
        assert(sub1 =~= s0.subrange(0, i as int).push(s0[i as int]));
        assert forall|u: usize| #[trigger] sub1.contains(u) <==> s0.subrange(0, i as int).contains(u) || u == s0[i as int] by {
            if sub1.contains(u) {
                let k = choose|k: int| 0 <= k < sub1.len() && sub1[k] == u;
                if k < i {
                    assert(s0.subrange(0, i as int)[k] == u);
                }
            }
            if s0.subrange(0, i as int).contains(u) {
                let k = choose|k: int| 0 <= k < i && s0.subrange(0, i as int)[k] == u;
                assert(sub1[k] == u);
            }
            if u == s0[i as int] {
                assert(sub1[i as int] == u);
            }
        }
        if s[i] == v {
            found = true;
        } else {
            out.push(s[i]);
            assert(out@ =~= o0.push(s0[i as int]));
            assert forall|u: usize| #[trigger] out@.contains(u) <==> o0.contains(u) || u == s0[i as int] by {
                if out@.contains(u) {
                    let k = choose|k: int| 0 <= k < out@.len() && out@[k] == u;
                    if k < o0.len() {
                        assert(o0[k] == u);
                    }
                }
                if o0.contains(u) {
                    let k = choose|k: int| 0 <= k < o0.len() && o0[k] == u;
                    assert(out@[k] == u);
                }
                if u == s0[i as int] {
                    assert(out@[o0.len() as int] == u);
                }
            }
        }
        i = i + 1;
    }
    assert(s0.subrange(0, s0.len() as int) =~= s0);
    *s = out;
    found
}

/// No transaction other than `t` still has to read variable `x` from its
/// latest placed writer.
pub open spec fn write_free(st: &DfsState, x: usize, t: int) -> bool {
    x < st.active_write@.len() ==> {
        let aw = st.active_write@[x as int]@;
        !(aw.len() > 1 || (aw.len() == 1 && aw[0] != t))
    }
}

/// No transaction that writes `x` has placed its read phase but not its
/// write phase.
pub open spec fn variable_free(st: &DfsState, x: usize) -> bool {
    x < st.active_variable@.len() ==> !st.active_variable@[x as int]
}

/// Whether the level allows placing `v` next: a write phase only when every
/// variable it writes is free of pending readers other than its own
/// transaction; under Snapshot Isolation, a read phase only when no variable
/// its transaction writes has a pending writer.
pub open spec fn allow_spec(p: &LinProblem, st: &DfsState, v: int) -> bool {
    &&& 0 <= v < p.children@.len()
    &&& {
        let t = p.txn_spec(v);
        if p.write_phase_spec(v) {
            forall|k: int| 0 <= k < p.writes@[t]@.len() ==> #[trigger] write_free(st, p.writes@[t]@[k], t)
        } else if p.kind == LinKind::SnapshotIsolation {
            forall|k: int| 0 <= k < p.writes@[t]@.len() ==> #[trigger] variable_free(st, p.writes@[t]@[k])
        } else {
            true
        }
    }
}

/// Whether the level allows placing `v` next.
fn allow_next(p: &LinProblem, st: &DfsState, v: usize) -> (r: bool)
    requires
        p.wf(),
        st.wf(p),
    ensures
        r == allow_spec(p, st, v as int),
{
    if v >= p.children.len() {
        return false;
    }
    let t = p.txn_of(v);
    if p.is_write_phase(v) {
        let ws = &p.writes[t];
        let mut k: usize = 0;
        while k < ws.len()
            invariant
                0 <= k <= ws@.len(),
                p.wf(),
                st.wf(p),
                t < p.tids@.len(),
                t == p.txn_spec(v as int),
                v < p.children@.len(),
                p.write_phase_spec(v as int),
                *ws == p.writes@[t as int],
                forall|j: int| 0 <= j < k ==> #[trigger] write_free(st, ws@[j], t as int),
            decreases ws@.len() - k,
        {
            let x = ws[k];
            if x < st.active_write.len() {
                let aw = &st.active_write[x];
                if aw.len() > 1 || (aw.len() == 1 && aw[0] != t) {
                    assert(!write_free(st, ws@[k as int], t as int));
                    return false;
                }
            }
            k = k + 1;
        }
        true
    } else if p.kind == LinKind::SnapshotIsolation {
        let ws = &p.writes[t];
        let mut k: usize = 0;
        while k < ws.len()
            invariant
                0 <= k <= ws@.len(),
                p.wf(),
                st.wf(p),
                t < p.tids@.len(),
                t == p.txn_spec(v as int),
                v < p.children@.len(),
                !p.write_phase_spec(v as int),
                p.kind == LinKind::SnapshotIsolation,
                *ws == p.writes@[t as int],
                forall|j: int| 0 <= j < k ==> #[trigger] variable_free(st, ws@[j]),
            decreases ws@.len() - k,
        {
            let x = ws[k];
            if x < st.active_variable.len() && st.active_variable[x] {
                assert(!variable_free(st, ws@[k as int]));
                return false;
            }
            k = k + 1;
        }
        true
    } else {
        true
    }
}

/// `a + b`, or the largest `u64` where that overflows.
pub open spec fn sat_add(a: int, b: int) -> int {
    if a + b > u64::MAX { u64::MAX as int } else { a + b }
}

/// `a * k`, or the largest `u64` where `a` exceeds an eighth of it.
pub open spec fn mul_small_spec(a: int, k: int) -> int {
    if a > u64::MAX / 8 { u64::MAX as int } else { a * k }
}

/// Transaction `t` is still a pending reader of variable `x`.
pub open spec fn pending_reader(st: &DfsState, x: usize, t: int) -> bool {
    x < st.active_write@.len() && st.active_write@[x as int]@.contains(t as usize)
}

/// Placing a write of `x` by `t` releases the variable: under Prefix
/// consistency `t` is its only pending reader; under Snapshot Isolation a
/// read phase holds it.
pub open spec fn releases(p: &LinProblem, st: &DfsState, x: usize, t: int) -> bool {
    ||| (p.kind == LinKind::Prefix && x < st.active_write@.len() && st.active_write@[x as int]@.len() == 1
        && st.active_write@[x as int]@[0] == t)
    ||| (p.kind == LinKind::SnapshotIsolation && x < st.active_variable@.len() && st.active_variable@[x as int])
}

/// How many of the first `k` reads of `t` are still pending.
pub open spec fn unresolved_count(p: &LinProblem, st: &DfsState, t: int, k: int) -> nat
    decreases k,
{
    if k <= 0 {
        0
    } else {
        unresolved_count(p, st, t, k - 1) + if pending_reader(st, p.reads@[t]@[k - 1].0, t) { 1nat } else { 0nat }
    }
}

/// How many of the first `k` writes of `t` release their variable.
pub open spec fn release_count(p: &LinProblem, st: &DfsState, t: int, k: int) -> nat
    decreases k,
{
    if k <= 0 {
        0
    } else {
        release_count(p, st, t, k - 1) + if releases(p, st, p.writes@[t]@[k - 1], t) { 1nat } else { 0nat }
    }
}

/// The branch score of `v` (0 out of range), by level: pending reads it
/// resolves count 8, released variables 8 (Snapshot Isolation write phase)
/// or 4 (Prefix), children 2, and writes 1 (2 for a Snapshot Isolation read
/// phase); a Prefix write phase adds 2, a Snapshot Isolation write phase 2.
pub open spec fn branch_score_spec(p: &LinProblem, st: &DfsState, v: int) -> int {
    if !(0 <= v < p.children@.len()) {
        0
    } else {
        let t = p.txn_spec(v);
        let cs = p.children@[v]@.len() as int;
        let u = unresolved_count(p, st, t, p.reads@[t]@.len() as int) as int;
        let r = release_count(p, st, t, p.writes@[t]@.len() as int) as int;
        let w = p.writes@[t]@.len() as int;
        match p.kind {
            LinKind::Serializable => sat_add(sat_add(mul_small_spec(u, 8), mul_small_spec(cs, 2)), w),
            LinKind::Prefix => sat_add(sat_add(sat_add(mul_small_spec(u, 8), mul_small_spec(r, 4)), mul_small_spec(cs, 2)),
                if p.write_phase_spec(v) { 2 } else { 0 }),
            LinKind::SnapshotIsolation => if p.write_phase_spec(v) {
                sat_add(sat_add(sat_add(mul_small_spec(r, 8), mul_small_spec(cs, 2)), w), 2)
            } else {
                sat_add(sat_add(mul_small_spec(u, 8), mul_small_spec(cs, 2)), mul_small_spec(w, 2))
            },
        }
    }
}

/// The branch score of `v`: placing it resolves pending readers, releases
/// written variables, and frees children.
fn branch_score(p: &LinProblem, st: &DfsState, v: usize) -> (r: u64)
    requires
        p.wf(),
        st.wf(p),
    ensures
        r == branch_score_spec(p, st, v as int),
{
    if v >= p.children.len() {
        return 0;
    }
    let t = p.txn_of(v);
    let child_score = p.children[v].len() as u64;
    let mut unresolved: u64 = 0;
    let rs = &p.reads[t];
    let mut k: usize = 0;
    while k < rs.len()
        invariant
            0 <= k <= rs@.len(),
            p.wf(),
            st.wf(p),
            t < p.tids@.len(),
            *rs == p.reads@[t as int],
            unresolved == unresolved_count(p, st, t as int, k as int),
            unresolved <= k,
        decreases rs@.len() - k,
    {
        let x = rs[k].0;
        if x < st.active_write.len() && contains_index(&st.active_write[x], t) {
            unresolved = unresolved.saturating_add(1);
        }
        k = k + 1;
    }
    let mut release: u64 = 0;
    let ws = &p.writes[t];
    let mut k: usize = 0;
    while k < ws.len()
        invariant
            0 <= k <= ws@.len(),
            p.wf(),
            st.wf(p),
            t < p.tids@.len(),
            *ws == p.writes@[t as int],
            release == release_count(p, st, t as int, k as int),
            release <= k,
        decreases ws@.len() - k,
    {
        let x = ws[k];
        if x < st.active_write.len() {
            let aw = &st.active_write[x];
            if p.kind == LinKind::Prefix && aw.len() == 1 && aw[0] == t {
                release = release.saturating_add(1);
            }
        }
        if p.kind == LinKind::SnapshotIsolation && x < st.active_variable.len() && st.active_variable[x] {
            release = release.saturating_add(1);
        }
        k = k + 1;
    }
    let write_count = ws.len() as u64;
    match p.kind {
        LinKind::Serializable => mul_small(unresolved, 8).saturating_add(mul_small(child_score, 2)).saturating_add(write_count),
        LinKind::Prefix => {
            let bias: u64 = if p.is_write_phase(v) { 2 } else { 0 };
            mul_small(unresolved, 8).saturating_add(mul_small(release, 4)).saturating_add(mul_small(child_score, 2)).saturating_add(bias)
        },
        LinKind::SnapshotIsolation => if p.is_write_phase(v) {
            mul_small(release, 8).saturating_add(mul_small(child_score, 2)).saturating_add(write_count).saturating_add(2)
        } else {
            mul_small(unresolved, 8).saturating_add(mul_small(child_score, 2)).saturating_add(mul_small(write_count, 2))
        },
    }
}

/// `a * k`, or the largest `u64` where that overflows.
fn mul_small(a: u64, k: u64) -> (r: u64)
    requires
        k <= 8,
    ensures
        r == mul_small_spec(a as int, k as int),
{
    if a > u64::MAX / 8 {
        u64::MAX
    } else {
        proof {
            assert(a * k <= a * 8) by (nonlinear_arith)
                requires
                    k <= 8,
            ;
            assert(a * 8 <= u64::MAX) by (nonlinear_arith)
                requires
                    a <= u64::MAX / 8,
            ;
        }
        a * k
    }
}

/// The key of a vertex for hashing: its transaction and phase (0 for a
/// whole transaction, 1 for a read phase, 2 for a write phase); a vertex out
/// of range is keyed by itself.
pub open spec fn vertex_key_spec(p: &LinProblem, v: int) -> (u64, u64, u64) {
    if v >= p.children@.len() {
        (0, 0, v as u64)
    } else {
        let tid = p.tids@[p.txn_spec(v)];
        let phase: u64 = if p.kind == LinKind::Serializable { 0 } else if p.write_phase_spec(v) { 2 } else { 1 };
        (tid.session_id, tid.session_height, phase)
    }
}

/// The key of a vertex for hashing: its transaction and phase.
fn vertex_key(p: &LinProblem, v: usize) -> (r: (u64, u64, u64))
    requires
        p.wf(),
    ensures
        r == vertex_key_spec(p, v as int),
{
    if v >= p.children.len() {
        return (0, 0, v as u64);
    }
    let t = p.txn_of(v);
    let tid = p.tids[t];
    let phase: u64 = if p.kind == LinKind::Serializable { 0 } else if p.is_write_phase(v) { 2 } else { 1 };
    (tid.session_id, tid.session_height, phase)
}

/// The signature of the search state: the frontier hash mixed with the
/// level's book-keeping.
fn signature(p: &LinProblem, st: &DfsState) -> (r: u128)
    requires
        p.wf(),
        st.wf(p),
    ensures
        (forall|x: int| 0 <= x < st.active_write@.len() ==> (#[trigger] st.active_write@[x])@.len() == 0)
            && (p.kind != LinKind::SnapshotIsolation || forall|x: int| 0 <= x < st.active_variable@.len() ==> !(#[trigger] st.active_variable@[x]))
            ==> r == st.frontier_hash,
{
    let salt: u64 = match p.kind {
        LinKind::Prefix => 0x500,
        LinKind::SnapshotIsolation => 0x600,
        LinKind::Serializable => 0x700,
    };
    let mut sig = st.frontier_hash;
    let mut x: usize = 0;
    while x < st.active_write.len()
        invariant
            0 <= x <= st.active_write@.len(),
            p.wf(),
            st.wf(p),
            salt <= 0x700,
            (forall|y: int| 0 <= y < x ==> (#[trigger] st.active_write@[y])@.len() == 0) ==> sig == st.frontier_hash,
        decreases st.active_write@.len() - x,
    {
        let aw = &st.active_write[x];
        if aw.len() > 0 {
            let mut mix: u128 = 0;
            let mut k: usize = 0;
            while k < aw.len()
                invariant
                    0 <= k <= aw@.len(),
                    p.wf(),
                    salt <= 0x700,
                decreases aw@.len() - k,
            {
                let r = aw[k];
                if r < p.tids.len() {
                    let tid = p.tids[r];
                    mix = mix ^ seeded_hash_u128(salt + 1, (tid.session_id, tid.session_height, 0));
                }
                k = k + 1;
            }
            let var_mix = seeded_hash_u128(salt + 2, (x as u64, 0, 0));
            let count_mix = seeded_hash_u128(salt + 3, (aw.len() as u64, 0, 0));
            sig = sig ^ var_mix ^ mix ^ count_mix;
        }
        x = x + 1;
    }
    if p.kind == LinKind::SnapshotIsolation {
        let mut x: usize = 0;
        while x < st.active_variable.len()
            invariant
                0 <= x <= st.active_variable@.len(),
                salt <= 0x700,
                (forall|y: int| 0 <= y < st.active_write@.len() ==> (#[trigger] st.active_write@[y])@.len() == 0)
                    && (forall|y: int| 0 <= y < x ==> !(#[trigger] st.active_variable@[y])) ==> sig == st.frontier_hash,
            decreases st.active_variable@.len() - x,
        {
            if st.active_variable[x] {
                sig = sig ^ seeded_hash_u128(salt + 4, (x as u64, 0, 0));
            }
            x = x + 1;
        }
    }
    sig
}

/// Some read of `rs` before position `k` reads variable `x`.
pub open spec fn read_in(rs: Seq<(usize, usize)>, k: int, x: usize) -> bool {
    exists|j: int| 0 <= j < k && (#[trigger] rs[j]).0 == x
}

/// Transaction `t` reads variable `x`.
pub open spec fn reads_var(p: &LinProblem, t: int, x: usize) -> bool {
    read_in(p.reads@[t]@, p.reads@[t]@.len() as int, x)
}

/// Transaction `t` writes variable `x`.
pub open spec fn writes_var(p: &LinProblem, t: int, x: usize) -> bool {
    p.writes@[t]@.contains(x)
}

/// Placing or unplacing a vertex leaves every part of the state but the
/// book-keeping as it was.
pub open spec fn same_frame(a: &DfsState, b: &DfsState) -> bool {
    &&& a.active_parent == b.active_parent
    &&& a.frontier == b.frontier
    &&& a.linearization == b.linearization
    &&& a.frontier_hash == b.frontier_hash
    &&& a.seen == b.seen
    &&& a.nogood == b.nogood
    &&& a.options == b.options
}

/// The book-keeping after placing `v`: a placed write phase makes the
/// readers of each variable it writes the pending readers (and, under
/// Snapshot Isolation, releases the variable); a placed read phase resolves
/// its transaction's pending reads (and, under Snapshot Isolation, holds
/// each variable it writes).
pub open spec fn forward_effect(p: &LinProblem, aw0: Seq<Vec<usize>>, av0: Seq<bool>, aw1: Seq<Vec<usize>>, av1: Seq<bool>, v: int) -> bool {
    &&& aw1.len() == aw0.len()
    &&& av1.len() == av0.len()
    &&& if !(0 <= v < p.children@.len()) {
        aw1 == aw0 && av1 == av0
    } else {
        let t = p.txn_spec(v);
        &&& forall|x: usize| x < aw0.len() ==> if p.write_phase_spec(v) && writes_var(p, t, x) {
            (#[trigger] aw1[x as int])@ == p.readers@[x as int]@[t]@
        } else if p.read_phase_spec(v) && reads_var(p, t, x) {
            forall|u: usize| (#[trigger] aw1[x as int]@.contains(u)) <==> aw0[x as int]@.contains(u) && u != t
        } else {
            aw1[x as int] == aw0[x as int]
        }
        &&& forall|x: usize| x < av0.len() ==> #[trigger] av1[x as int] == if p.kind == LinKind::SnapshotIsolation && p.write_phase_spec(v) && writes_var(p, t, x) {
            false
        } else if p.kind == LinKind::SnapshotIsolation && p.read_phase_spec(v) && writes_var(p, t, x) {
            true
        } else {
            av0[x as int]
        }
    }
}

/// The book-keeping after unplacing `v`: an unplaced write phase clears the
/// pending readers of each variable it writes (and, under Snapshot
/// Isolation, holds the variable again); an unplaced read phase makes its
/// transaction a pending reader of each variable it reads again (and, under
/// Snapshot Isolation, releases each variable it writes).
pub open spec fn backtrack_effect(p: &LinProblem, aw0: Seq<Vec<usize>>, av0: Seq<bool>, aw1: Seq<Vec<usize>>, av1: Seq<bool>, v: int) -> bool {
    &&& aw1.len() == aw0.len()
    &&& av1.len() == av0.len()
    &&& if !(0 <= v < p.children@.len()) {
        aw1 == aw0 && av1 == av0
    } else {
        let t = p.txn_spec(v);
        &&& forall|x: usize| x < aw0.len() ==> if p.read_phase_spec(v) && reads_var(p, t, x) {
            forall|u: usize| (#[trigger] aw1[x as int]@.contains(u)) <==> u == t
                || (!(p.write_phase_spec(v) && writes_var(p, t, x)) && aw0[x as int]@.contains(u))
        } else if p.write_phase_spec(v) && writes_var(p, t, x) {
            (#[trigger] aw1[x as int])@.len() == 0
        } else {
            aw1[x as int] == aw0[x as int]
        }
        &&& forall|x: usize| x < av0.len() ==> #[trigger] av1[x as int] == if p.kind == LinKind::SnapshotIsolation && p.read_phase_spec(v) && writes_var(p, t, x) {
            false
        } else if p.kind == LinKind::SnapshotIsolation && p.write_phase_spec(v) && writes_var(p, t, x) {
            true
        } else {
            av0[x as int]
        }
    }
}

proof fn lemma_push_contains(s: Seq<usize>, a: usize, b: usize)
    ensures
        s.push(a).contains(b) <==> s.contains(b) || b == a,
{
    if s.push(a).contains(b) {
        let j = choose|j: int| 0 <= j < s.push(a).len() && s.push(a)[j] == b;
        if j < s.len() {
            assert(s[j] == b);
        }
    }
    if s.contains(b) {
        let j = choose|j: int| 0 <= j < s.len() && s[j] == b;
        assert(s.push(a)[j] == b);
    }
    if b == a {
        assert(s.push(a)[s.len() as int] == b);
    }
}

/// Updates the book-keeping after `v` is placed.
fn forward_book_keeping(p: &LinProblem, st: &mut DfsState, v: usize)
    requires
        p.wf(),
        old(st).wf(p),
    ensures
        final(st).wf(p),
        same_frame(final(st), old(st)),
        forward_effect(p, old(st).active_write@, old(st).active_variable@, final(st).active_write@, final(st).active_variable@, v as int),
{
    let ghost st0 = *st;
    let ghost aw0 = st.active_write@;
    let ghost av0 = st.active_variable@;
    if v >= p.children.len() {
        return;
    }
    let t = p.txn_of(v);
    if p.is_read_phase(v) {
        let rs = &p.reads[t];
        let mut k: usize = 0;
        while k < rs.len()
            invariant
                0 <= k <= rs@.len(),
                p.wf(),
                st.wf(p),
                t < p.tids@.len(),
                *rs == p.reads@[t as int],
                same_frame(st, &st0),
                st.active_write@.len() == aw0.len(),
                st.active_variable@ == av0,
                forall|x: usize| x < aw0.len() ==> if read_in(rs@, k as int, x) {
                    forall|u: usize| (#[trigger] st.active_write@[x as int]@.contains(u)) <==> aw0[x as int]@.contains(u) && u != t
                } else {
                    #[trigger] st.active_write@[x as int] == aw0[x as int]
                },
            decreases rs@.len() - k,
        {
            let x = rs[k].0;
            let ghost aw_k = st.active_write@;
            if x < st.active_write.len() {
                let mut aw = st.active_write[x].clone();
                assert(aw@ =~= aw_k[x as int]@);
                remove_index(&mut aw, t);
                st.active_write.set(x, aw);
            }
            proof {
                assert forall|y: usize| y < aw0.len() implies if read_in(rs@, k + 1, y) {
                    forall|u: usize| (#[trigger] st.active_write@[y as int]@.contains(u)) <==> aw0[y as int]@.contains(u) && u != t
                } else {
                    #[trigger] st.active_write@[y as int] == aw0[y as int]
                } by {
                    if y == x {
                        assert(rs@[k as int].0 == y);
                        assert(read_in(rs@, k + 1, y));
                    } else {
                        assert(st.active_write@[y as int] == aw_k[y as int]);
                        if read_in(rs@, k + 1, y) {
                            let j = choose|j: int| 0 <= j < k + 1 && (#[trigger] rs@[j]).0 == y;
                            assert(j != k);
                            assert(read_in(rs@, k as int, y));
                        }
                    }
                }
            }
            k = k + 1;
        }
        if p.kind == LinKind::SnapshotIsolation {
            let ws = &p.writes[t];
            let mut k: usize = 0;
            while k < ws.len()
                invariant
                    0 <= k <= ws@.len(),
                    p.wf(),
                    st.wf(p),
                    t < p.tids@.len(),
                    *ws == p.writes@[t as int],
                    same_frame(st, &st0),
                    st.active_variable@.len() == av0.len(),
                    forall|x: usize| x < av0.len() ==> #[trigger] st.active_variable@[x as int] == if ws@.subrange(0, k as int).contains(x) { true } else { av0[x as int] },
                    forall|x: usize| x < aw0.len() ==> if read_in(rs@, rs@.len() as int, x) {
                        forall|u: usize| (#[trigger] st.active_write@[x as int]@.contains(u)) <==> aw0[x as int]@.contains(u) && u != t
                    } else {
                        #[trigger] st.active_write@[x as int] == aw0[x as int]
                    },
                decreases ws@.len() - k,
            {
                let x = ws[k];
                let ghost av_k = st.active_variable@;
                if x < st.active_variable.len() {
                    st.active_variable.set(x, true);
                }
                proof {
                    assert forall|y: usize| y < av0.len() implies #[trigger] st.active_variable@[y as int] == if ws@.subrange(0, k + 1).contains(y) { true } else { av0[y as int] } by {
                        assert(ws@.subrange(0, k + 1) =~= ws@.subrange(0, k as int).push(x));
                        lemma_push_contains(ws@.subrange(0, k as int), x, y);
                        if y != x {
                            assert(st.active_variable@[y as int] == av_k[y as int]);
                        }
                    }
                }
                k = k + 1;
            }
            assert(ws@.subrange(0, ws@.len() as int) =~= ws@);
        }
    }
    let ghost aw_m = st.active_write@;
    let ghost av_m = st.active_variable@;
    if p.is_write_phase(v) {
        let ws = &p.writes[t];
        let mut k: usize = 0;
        while k < ws.len()
            invariant
                0 <= k <= ws@.len(),
                p.wf(),
                st.wf(p),
                t < p.tids@.len(),
                *ws == p.writes@[t as int],
                same_frame(st, &st0),
                st.active_write@.len() == aw0.len(),
                st.active_variable@.len() == av0.len(),
                aw_m.len() == aw0.len(),
                av_m.len() == av0.len(),
                forall|x: usize| x < aw0.len() && !ws@.subrange(0, k as int).contains(x) ==> #[trigger] st.active_write@[x as int] == aw_m[x as int],
                forall|x: usize| x < aw0.len() && ws@.subrange(0, k as int).contains(x) ==> (#[trigger] st.active_write@[x as int])@ == p.readers@[x as int]@[t as int]@,
                forall|x: usize| x < av0.len() ==> #[trigger] st.active_variable@[x as int] == if p.kind == LinKind::SnapshotIsolation && ws@.subrange(0, k as int).contains(x) { false } else { av_m[x as int] },
            decreases ws@.len() - k,
        {
            let x = ws[k];
            let ghost aw_k = st.active_write@;
            let ghost av_k = st.active_variable@;
            if x < st.active_write.len() {
                let readers = p.readers[x][t].clone();
                assert(readers@ =~= p.readers@[x as int]@[t as int]@);
                st.active_write.set(x, readers);
                if p.kind == LinKind::SnapshotIsolation {
                    st.active_variable.set(x, false);
                }
            }
            proof {
                assert(ws@.subrange(0, k + 1) =~= ws@.subrange(0, k as int).push(x));
                assert forall|y: usize| #[trigger] ws@.subrange(0, k + 1).contains(y) <==> ws@.subrange(0, k as int).contains(y) || y == x by {
                    lemma_push_contains(ws@.subrange(0, k as int), x, y);
                }
                assert forall|y: usize| y < aw0.len() && ws@.subrange(0, k + 1).contains(y) implies (#[trigger] st.active_write@[y as int])@ == p.readers@[y as int]@[t as int]@ by {
                    if y != x {
                        assert(ws@.subrange(0, k as int).contains(y));
                        assert(st.active_write@[y as int] == aw_k[y as int]);
                    }
                }
                assert forall|y: usize| y < aw0.len() && !ws@.subrange(0, k + 1).contains(y) implies #[trigger] st.active_write@[y as int] == aw_m[y as int] by {
                    if y != x {
                        assert(st.active_write@[y as int] == aw_k[y as int]);
                    }
                }
                assert forall|y: usize| y < av0.len() implies #[trigger] st.active_variable@[y as int] == if p.kind == LinKind::SnapshotIsolation && ws@.subrange(0, k + 1).contains(y) { false } else { av_m[y as int] } by {
                    if y != x {
                        assert(st.active_variable@[y as int] == av_k[y as int]);
                    }
                }
            }
            k = k + 1;
        }
        assert(ws@.subrange(0, ws@.len() as int) =~= ws@);
    }
    proof {
        let tt = t as int;
        assert(tt == p.txn_spec(v as int));
        assert forall|x: usize| x < aw0.len() implies if p.write_phase_spec(v as int) && writes_var(p, tt, x) {
            (#[trigger] st.active_write@[x as int])@ == p.readers@[x as int]@[tt]@
        } else if p.read_phase_spec(v as int) && reads_var(p, tt, x) {
            forall|u: usize| (#[trigger] st.active_write@[x as int]@.contains(u)) <==> aw0[x as int]@.contains(u) && u != t
        } else {
            st.active_write@[x as int] == aw0[x as int]
        } by {
            if !p.read_phase_spec(v as int) {
                assert(aw_m == aw0);
            }
        }
        assert forall|x: usize| x < av0.len() implies #[trigger] st.active_variable@[x as int] == if p.kind == LinKind::SnapshotIsolation && p.write_phase_spec(v as int) && writes_var(p, tt, x) {
            false
        } else if p.kind == LinKind::SnapshotIsolation && p.read_phase_spec(v as int) && writes_var(p, tt, x) {
            true
        } else {
            av0[x as int]
        } by {
            if p.kind == LinKind::SnapshotIsolation {
                assert(p.read_phase_spec(v as int) != p.write_phase_spec(v as int));
            }
            if !p.read_phase_spec(v as int) || p.kind != LinKind::SnapshotIsolation {
                assert(av_m[x as int] == av0[x as int]);
            }
        }
    }
}

/// Undoes the book-keeping of placing `v`.
fn backtrack_book_keeping(p: &LinProblem, st: &mut DfsState, v: usize)
    requires
        p.wf(),
        old(st).wf(p),
    ensures
        final(st).wf(p),
        same_frame(final(st), old(st)),
        backtrack_effect(p, old(st).active_write@, old(st).active_variable@, final(st).active_write@, final(st).active_variable@, v as int),
{
    let ghost st0 = *st;
    let ghost aw0 = st.active_write@;
    let ghost av0 = st.active_variable@;
    if v >= p.children.len() {
        return;
    }
    let t = p.txn_of(v);
    if p.is_write_phase(v) {
        let ws = &p.writes[t];
        let mut k: usize = 0;
        while k < ws.len()
            invariant
                0 <= k <= ws@.len(),
                p.wf(),
                st.wf(p),
                t < p.tids@.len(),
                *ws == p.writes@[t as int],
                same_frame(st, &st0),
                st.active_write@.len() == aw0.len(),
                st.active_variable@.len() == av0.len(),
                forall|x: usize| x < aw0.len() ==> if ws@.subrange(0, k as int).contains(x) {
                    (#[trigger] st.active_write@[x as int])@.len() == 0
                } else {
                    st.active_write@[x as int] == aw0[x as int]
                },
                forall|x: usize| x < av0.len() ==> #[trigger] st.active_variable@[x as int] == if p.kind == LinKind::SnapshotIsolation && ws@.subrange(0, k as int).contains(x) { true } else { av0[x as int] },
            decreases ws@.len() - k,
        {
            let x = ws[k];
            let ghost aw_k = st.active_write@;
            let ghost av_k = st.active_variable@;
            if x < st.active_write.len() {
                st.active_write.set(x, Vec::new());
                if p.kind == LinKind::SnapshotIsolation {
                    st.active_variable.set(x, true);
                }
            }
            proof {
                assert(ws@.subrange(0, k + 1) =~= ws@.subrange(0, k as int).push(x));
                assert forall|y: usize| #[trigger] ws@.subrange(0, k + 1).contains(y) <==> ws@.subrange(0, k as int).contains(y) || y == x by {
                    lemma_push_contains(ws@.subrange(0, k as int), x, y);
                }
                assert forall|y: usize| y < aw0.len() implies if ws@.subrange(0, k + 1).contains(y) {
                    (#[trigger] st.active_write@[y as int])@.len() == 0
                } else {
                    st.active_write@[y as int] == aw0[y as int]
                } by {
                    if y != x {
                        assert(st.active_write@[y as int] == aw_k[y as int]);
                    }
                }
                assert forall|y: usize| y < av0.len() implies #[trigger] st.active_variable@[y as int] == if p.kind == LinKind::SnapshotIsolation && ws@.subrange(0, k + 1).contains(y) { true } else { av0[y as int] } by {
                    if y != x {
                        assert(st.active_variable@[y as int] == av_k[y as int]);
                    }
                }
            }
            k = k + 1;
        }
        assert(ws@.subrange(0, ws@.len() as int) =~= ws@);
    }
    let ghost aw_m = st.active_write@;
    let ghost av_m = st.active_variable@;
    if p.is_read_phase(v) {
        let rs = &p.reads[t];
        let mut k: usize = 0;
        while k < rs.len()
            invariant
                0 <= k <= rs@.len(),
                p.wf(),
                st.wf(p),
                t < p.tids@.len(),
                *rs == p.reads@[t as int],
                same_frame(st, &st0),
                st.active_write@.len() == aw0.len(),
                aw_m.len() == aw0.len(),
                st.active_variable@ == av_m,
                forall|x: usize| x < aw0.len() ==> if read_in(rs@, k as int, x) {
                    forall|u: usize| (#[trigger] st.active_write@[x as int]@.contains(u)) <==> u == t || aw_m[x as int]@.contains(u)
                } else {
                    #[trigger] st.active_write@[x as int] == aw_m[x as int]
                },
            decreases rs@.len() - k,
        {
            let x = rs[k].0;
            let ghost aw_k = st.active_write@;
            if x < st.active_write.len() {
                let mut aw = st.active_write[x].clone();
                assert(aw@ =~= aw_k[x as int]@);
                if !contains_index(&aw, t) {
                    let ghost a0 = aw@;
                    aw.push(t);
                    assert forall|u: usize| #[trigger] aw@.contains(u) <==> a0.contains(u) || u == t by {
                        lemma_push_contains(a0, t, u);
                    }
                }
                st.active_write.set(x, aw);
            }
            proof {
                assert forall|y: usize| y < aw0.len() implies if read_in(rs@, k + 1, y) {
                    forall|u: usize| (#[trigger] st.active_write@[y as int]@.contains(u)) <==> u == t || aw_m[y as int]@.contains(u)
                } else {
                    #[trigger] st.active_write@[y as int] == aw_m[y as int]
                } by {
                    if y == x {
                        assert(rs@[k as int].0 == y);
                        assert(read_in(rs@, k + 1, y));
                    } else {
                        assert(st.active_write@[y as int] == aw_k[y as int]);
                        if read_in(rs@, k + 1, y) {
                            let j = choose|j: int| 0 <= j < k + 1 && (#[trigger] rs@[j]).0 == y;
                            assert(j != k);
                            assert(read_in(rs@, k as int, y));
                        }
                    }
                }
            }
            k = k + 1;
        }
        if p.kind == LinKind::SnapshotIsolation {
            let ws = &p.writes[t];
            let mut k: usize = 0;
            while k < ws.len()
                invariant
                    0 <= k <= ws@.len(),
                    p.wf(),
                    st.wf(p),
                    t < p.tids@.len(),
                    *ws == p.writes@[t as int],
                    same_frame(st, &st0),
                    st.active_variable@.len() == av0.len(),
                    av_m.len() == av0.len(),
                    forall|x: usize| x < av0.len() ==> #[trigger] st.active_variable@[x as int] == if ws@.subrange(0, k as int).contains(x) { false } else { av_m[x as int] },
                    st.active_write@.len() == aw0.len(),
                    forall|x: usize| x < aw0.len() ==> if read_in(rs@, rs@.len() as int, x) {
                        forall|u: usize| (#[trigger] st.active_write@[x as int]@.contains(u)) <==> u == t || aw_m[x as int]@.contains(u)
                    } else {
                        #[trigger] st.active_write@[x as int] == aw_m[x as int]
                    },
                decreases ws@.len() - k,
            {
                let x = ws[k];
                let ghost av_k = st.active_variable@;
                if x < st.active_variable.len() {
                    st.active_variable.set(x, false);
                }
                proof {
                    assert forall|y: usize| y < av0.len() implies #[trigger] st.active_variable@[y as int] == if ws@.subrange(0, k + 1).contains(y) { false } else { av_m[y as int] } by {
                        assert(ws@.subrange(0, k + 1) =~= ws@.subrange(0, k as int).push(x));
                        lemma_push_contains(ws@.subrange(0, k as int), x, y);
                        if y != x {
                            assert(st.active_variable@[y as int] == av_k[y as int]);
                        }
                    }
                }
                k = k + 1;
            }
            assert(ws@.subrange(0, ws@.len() as int) =~= ws@);
        }
    }
    proof {
        let tt = t as int;
        assert(tt == p.txn_spec(v as int));
        assert forall|x: usize| x < aw0.len() implies if p.read_phase_spec(v as int) && reads_var(p, tt, x) {
            forall|u: usize| (#[trigger] st.active_write@[x as int]@.contains(u)) <==> u == t
                || (!(p.write_phase_spec(v as int) && writes_var(p, tt, x)) && aw0[x as int]@.contains(u))
        } else if p.write_phase_spec(v as int) && writes_var(p, tt, x) {
            (#[trigger] st.active_write@[x as int])@.len() == 0
        } else {
            st.active_write@[x as int] == aw0[x as int]
        } by {
            if !p.write_phase_spec(v as int) {
                assert(aw_m == aw0);
            }
            if p.write_phase_spec(v as int) && writes_var(p, tt, x) {
                assert(aw_m[x as int]@.len() == 0);
                assert forall|u: usize| !aw_m[x as int]@.contains(u) by {}
            }
        }
        assert forall|x: usize| x < av0.len() implies #[trigger] st.active_variable@[x as int] == if p.kind == LinKind::SnapshotIsolation && p.read_phase_spec(v as int) && writes_var(p, tt, x) {
            false
        } else if p.kind == LinKind::SnapshotIsolation && p.write_phase_spec(v as int) && writes_var(p, tt, x) {
            true
        } else {
            av0[x as int]
        } by {
            if p.kind == LinKind::SnapshotIsolation {
                assert(p.read_phase_spec(v as int) != p.write_phase_spec(v as int));
            }
            if !p.write_phase_spec(v as int) || p.kind != LinKind::SnapshotIsolation {
                assert(av_m[x as int] == av0[x as int]);
            }
        }
    }
}

proof fn lemma_insert_contains<A>(s: Seq<A>, i: int, a: A, b: A)
    requires
        0 <= i <= s.len(),
    ensures
        s.insert(i, a).contains(b) <==> s.contains(b) || b == a,
{
    let s2 = s.insert(i, a);
    if s2.contains(b) {
        let j = choose|j: int| 0 <= j < s2.len() && s2[j] == b;
        if j < i {
            assert(s[j] == b);
        } else if j > i {
            assert(s[j - 1] == b);
        }
    }
    if s.contains(b) {
        let j = choose|j: int| 0 <= j < s.len() && s[j] == b;
        if j < i {
            assert(s2[j] == b);
        } else {
            assert(s2[j + 1] == b);
        }
    }
    if b == a {
        assert(s2[i] == b);
    }
}

/// Whether candidate `c` goes before candidate `d`: when allowed moves are
/// preferred, an allowed one before one that is not; otherwise by score,
/// in the direction the options ask for.
pub open spec fn goes_before(o: DfsSearchOptions, c: (usize, bool, u64), d: (usize, bool, u64)) -> bool {
    if o.prefer_allowed_first && c.1 != d.1 {
        c.1
    } else {
        match o.branch_ordering {
            BranchOrdering::HighScoreFirst => c.2 > d.2,
            BranchOrdering::LowScoreFirst => c.2 < d.2,
            BranchOrdering::AsProvided => false,
        }
    }
}

/// The frontier's candidates with whether the level allows each, the
/// allowed ones first, and among those the higher-scoring first (a stable
/// order otherwise).
fn ordered_candidates(p: &LinProblem, st: &DfsState) -> (r: Vec<(usize, bool)>)
    requires
        p.wf(),
        st.wf(p),
    ensures
        r@.len() == st.frontier@.len(),
        forall|i: int| 0 <= i < r@.len() ==> st.frontier@.contains((#[trigger] r@[i]).0) && r@[i].1 == allow_spec(p, st, r@[i].0 as int),
        forall|v: usize| #[trigger] st.frontier@.contains(v) ==> exists|i: int| 0 <= i < r@.len() && (#[trigger] r@[i]).0 == v,
        st.options.prefer_allowed_first ==> forall|i: int, j: int| 0 <= i < j < r@.len() ==> (#[trigger] r@[i]).1 || !(#[trigger] r@[j]).1,
{
    let mut scored: Vec<(usize, bool, u64)> = Vec::new();
    let mut i: usize = 0;
    while i < st.frontier.len()
        invariant
            0 <= i <= st.frontier@.len(),
            p.wf(),
            st.wf(p),
            scored@.len() == i,
            forall|m: int| 0 <= m < i ==> (#[trigger] scored@[m]).0 == st.frontier@[m] && scored@[m].1 == allow_spec(p, st, st.frontier@[m] as int),
        decreases st.frontier@.len() - i,
    {
        let v = st.frontier[i];
        let allowed = allow_next(p, st, v);
        let score = if st.options.branch_ordering == BranchOrdering::AsProvided { 0 } else { branch_score(p, st, v) };
        scored.push((v, allowed, score));
        i = i + 1;
    }
    // insertion sort, stable: allowed first (when preferred), then by score
    let ghost o = st.options;
    let mut sorted: Vec<(usize, bool, u64)> = Vec::new();
    let mut i: usize = 0;
    while i < scored.len()
        invariant
            0 <= i <= scored@.len(),
            o == st.options,
            sorted@.len() == i,
            forall|m: int| 0 <= m < sorted@.len() ==> scored@.contains(#[trigger] sorted@[m]),
            forall|m: int| 0 <= m < i ==> sorted@.contains(#[trigger] scored@[m]),
            o.prefer_allowed_first ==> forall|a: int, b: int| 0 <= a < b < sorted@.len() ==> (#[trigger] sorted@[a]).1 || !(#[trigger] sorted@[b]).1,
        decreases scored@.len() - i,
    {
        let c = scored[i];
        let mut pos: usize = sorted.len();
        let mut j: usize = 0;
        while j < sorted.len()
            invariant_except_break
                pos == sorted@.len(),
            invariant
                0 <= j <= sorted@.len(),
                o == st.options,
                forall|m: int| 0 <= m < j ==> !goes_before(o, c, #[trigger] sorted@[m]),
            ensures
                pos <= sorted@.len(),
                forall|m: int| 0 <= m < pos ==> !goes_before(o, c, #[trigger] sorted@[m]),
                pos < sorted@.len() ==> goes_before(o, c, sorted@[pos as int]),
            decreases sorted@.len() - j,
        {
            let d = sorted[j];
            let before = if st.options.prefer_allowed_first && c.1 != d.1 {
                c.1
            } else {
                match st.options.branch_ordering {
                    BranchOrdering::HighScoreFirst => c.2 > d.2,
                    BranchOrdering::LowScoreFirst => c.2 < d.2,
                    BranchOrdering::AsProvided => false,
                }
            };
            assert(before == goes_before(o, c, d));
            if before {
                pos = j;
                break;
            }
            j = j + 1;
        }
        let ghost s0 = sorted@;
        sorted.insert(pos, c);
        proof {
            assert(scored@.contains(scored@[i as int]));
            assert forall|y: (usize, bool, u64)| #[trigger] sorted@.contains(y) <==> s0.contains(y) || y == c by {
                lemma_insert_contains(s0, pos as int, c, y);
            }
            assert forall|m: int| 0 <= m < sorted@.len() implies scored@.contains(#[trigger] sorted@[m]) by {
                assert(sorted@.contains(sorted@[m]));
                if sorted@[m] != c {
                    let k = choose|k: int| 0 <= k < s0.len() && s0[k] == sorted@[m];
                    assert(scored@.contains(s0[k]));
                }
            }
            assert forall|m: int| 0 <= m < i + 1 implies sorted@.contains(#[trigger] scored@[m]) by {
                if m < i {
                    assert(s0.contains(scored@[m]));
                }
            }
            if o.prefer_allowed_first {
                assert forall|a: int, b: int| 0 <= a < b < sorted@.len() implies (#[trigger] sorted@[a]).1 || !(#[trigger] sorted@[b]).1 by {
                    if a < pos && b < pos {
                        assert(sorted@[a] == s0[a] && sorted@[b] == s0[b]);
                    } else if a > pos && b > pos {
                        assert(sorted@[a] == s0[a - 1] && sorted@[b] == s0[b - 1]);
                    } else if a < pos && b == pos {
                        assert(sorted@[a] == s0[a]);
                        assert(!goes_before(o, c, s0[a]));
                    } else if a < pos && b > pos {
                        assert(sorted@[a] == s0[a] && sorted@[b] == s0[b - 1]);
                    } else {
                        assert(a == pos && b > pos);
                        assert(sorted@[b] == s0[b - 1]);
                        assert(pos < s0.len());
                        assert(goes_before(o, c, s0[pos as int]));
                        if pos < b - 1 {
                            assert(s0[pos as int].1 || !s0[b - 1].1);
                        }
                    }
                }
            }
        }
        i = i + 1;
    }
    let mut r: Vec<(usize, bool)> = Vec::new();
    let mut i: usize = 0;
    while i < sorted.len()
        invariant
            0 <= i <= sorted@.len(),
            r@.len() == i,
            forall|m: int| 0 <= m < i ==> (#[trigger] r@[m]).0 == sorted@[m].0 && r@[m].1 == sorted@[m].1,
        decreases sorted@.len() - i,
    {
        r.push((sorted[i].0, sorted[i].1));
        i = i + 1;
    }
    proof {
        assert forall|m: int| 0 <= m < r@.len() implies st.frontier@.contains((#[trigger] r@[m]).0) && r@[m].1 == allow_spec(p, st, r@[m].0 as int) by {
            assert(scored@.contains(sorted@[m]));
            let k = choose|k: int| 0 <= k < scored@.len() && scored@[k] == sorted@[m];
            assert(st.frontier@[k] == r@[m].0);
        }
        assert forall|v: usize| #[trigger] st.frontier@.contains(v) implies exists|m: int| 0 <= m < r@.len() && (#[trigger] r@[m]).0 == v by {
            let k = choose|k: int| 0 <= k < st.frontier@.len() && st.frontier@[k] == v;
            assert(sorted@.contains(scored@[k]));
            let m = choose|m: int| 0 <= m < sorted@.len() && sorted@[m] == scored@[k];
            assert(r@[m].0 == v);
        }
        if st.options.prefer_allowed_first {
            assert forall|a: int, b: int| 0 <= a < b < r@.len() implies (#[trigger] r@[a]).1 || !(#[trigger] r@[b]).1 by {
                assert(sorted@[a].1 || !sorted@[b].1);
            }
        }
    }
    r
}

/// Places `u`: frees its children whose parents are now all placed, and
/// returns them.
fn place(p: &LinProblem, st: &mut DfsState, u: usize) -> (newly: Vec<usize>)
    requires
        p.wf(),
        old(st).wf(p),
    ensures
        final(st).wf(p),
        final(st).linearization@ == old(st).linearization@.push(u),
        final(st).frontier@ == old(st).frontier@ + newly@,
        forall|i: int| 0 <= i < newly@.len() ==> #[trigger] newly@[i] < p.children@.len()
            && u < p.children@.len() && p.children@[u as int]@.contains(newly@[i]),
        forall|w: int| 0 <= w < old(st).active_parent@.len() ==> #[trigger] final(st).active_parent@[w] <= old(st).active_parent@[w],
        forward_effect(p, old(st).active_write@, old(st).active_variable@, final(st).active_write@, final(st).active_variable@, u as int),
        final(st).seen == old(st).seen,
        final(st).nogood == old(st).nogood,
        final(st).options == old(st).options,
{
    let ghost st0 = *st;
    let mut newly: Vec<usize> = Vec::new();
    if u < p.children.len() {
        let cs = &p.children[u];
        let mut k: usize = 0;
        while k < cs.len()
            invariant
                0 <= k <= cs@.len(),
                p.wf(),
                st.wf(p),
                u < p.children@.len(),
                *cs == p.children@[u as int],
                st.frontier@ == st0.frontier@ + newly@,
                st.linearization == st0.linearization,
                st.active_write == st0.active_write,
                st.active_variable == st0.active_variable,
                st.seen == st0.seen,
                st.nogood == st0.nogood,
                st.options == st0.options,
                st.active_parent@.len() == st0.active_parent@.len(),
                forall|w: int| 0 <= w < st0.active_parent@.len() ==> #[trigger] st.active_parent@[w] <= st0.active_parent@[w],
                forall|i: int| 0 <= i < newly@.len() ==> #[trigger] newly@[i] < p.children@.len() && cs@.contains(newly@[i]),
            decreases cs@.len() - k,
        {
            let v = cs[k];
            if v < st.active_parent.len() {
                let c = st.active_parent[v];
                let c1 = c.saturating_sub(1);
                let ghost ap_k = st.active_parent@;
                st.active_parent.set(v, c1);
                assert forall|w: int| 0 <= w < st0.active_parent@.len() implies #[trigger] st.active_parent@[w] <= st0.active_parent@[w] by {
                    if w != v {
                        assert(st.active_parent@[w] == ap_k[w]);
                    }
                }
                if c1 == 0 && c > 0 {
                    let ghost n0 = newly@;
                    st.frontier.push(v);
                    st.frontier_hash = st.frontier_hash ^ default_zobrist_value(&vertex_key(p, v));
                    newly.push(v);
                    assert(cs@.contains(cs@[k as int]));
                    assert(st.frontier@ =~= st0.frontier@ + newly@);
                    assert forall|i: int| 0 <= i < newly@.len() implies #[trigger] newly@[i] < p.children@.len() && cs@.contains(newly@[i]) by {
                        if i < n0.len() {
                            assert(newly@[i] == n0[i]);
                        }
                    }
                }
            }
            k = k + 1;
        }
    }
    st.linearization.push(u);
    st.frontier_hash = st.frontier_hash ^ default_zobrist_value(&vertex_key(p, u));
    forward_book_keeping(p, st, u);
    newly
}

/// Undoes placing `u`, which freed `newly`.
fn unplace(p: &LinProblem, st: &mut DfsState, u: usize, newly: &Vec<usize>)
    requires
        p.wf(),
        old(st).wf(p),
    ensures
        final(st).wf(p),
        old(st).linearization@.len() > 0 ==> final(st).linearization@ == old(st).linearization@.drop_last(),
        old(st).linearization@.len() == 0 ==> final(st).linearization@ == old(st).linearization@,
        forall|w: usize| #[trigger] final(st).frontier@.contains(w) <==> old(st).frontier@.contains(w) && !newly@.contains(w),
        forall|w: int| 0 <= w < old(st).active_parent@.len() ==> #[trigger] final(st).active_parent@[w] >= old(st).active_parent@[w],
        backtrack_effect(p, old(st).active_write@, old(st).active_variable@, final(st).active_write@, final(st).active_variable@, u as int),
        final(st).seen == old(st).seen,
        final(st).nogood == old(st).nogood,
        final(st).options == old(st).options,
{
    let ghost st0 = *st;
    backtrack_book_keeping(p, st, u);
    let ghost st1 = *st;
    st.linearization.pop();
    let ghost l1 = st.linearization@;
    assert(st0.linearization@.len() > 0 ==> l1 =~= st0.linearization@.drop_last());
    st.frontier_hash = st.frontier_hash ^ default_zobrist_value(&vertex_key(p, u));
    if u < p.children.len() {
        let cs = &p.children[u];
        let mut k: usize = 0;
        while k < cs.len()
            invariant
                0 <= k <= cs@.len(),
                p.wf(),
                st.wf(p),
                st.frontier == st1.frontier,
                st.linearization@ == l1,
                st.active_write == st1.active_write,
                st.active_variable == st1.active_variable,
                st.seen == st0.seen,
                st.nogood == st0.nogood,
                st.options == st0.options,
                st.active_parent@.len() == st0.active_parent@.len(),
                forall|w: int| 0 <= w < st0.active_parent@.len() ==> #[trigger] st.active_parent@[w] >= st0.active_parent@[w],
            decreases cs@.len() - k,
        {
            let v = cs[k];
            if v < st.active_parent.len() {
                let c = st.active_parent[v];
                let ghost ap_k = st.active_parent@;
                st.active_parent.set(v, c.saturating_add(1));
                assert forall|w: int| 0 <= w < st0.active_parent@.len() implies #[trigger] st.active_parent@[w] >= st0.active_parent@[w] by {
                    if w != v {
                        assert(st.active_parent@[w] == ap_k[w]);
                    }
                }
            }
            k = k + 1;
        }
    }
    let mut k: usize = 0;
    while k < newly.len()
        invariant
            0 <= k <= newly@.len(),
            p.wf(),
            st.wf(p),
            st.linearization@ == l1,
            st.active_write == st1.active_write,
            st.active_variable == st1.active_variable,
            st.seen == st0.seen,
            st.nogood == st0.nogood,
            st.options == st0.options,
            st.active_parent@.len() == st0.active_parent@.len(),
            forall|w: int| 0 <= w < st0.active_parent@.len() ==> #[trigger] st.active_parent@[w] >= st0.active_parent@[w],
            forall|w: usize| #[trigger] st.frontier@.contains(w) <==> st0.frontier@.contains(w) && !newly@.subrange(0, k as int).contains(w),
        decreases newly@.len() - k,
    {
        let v = newly[k];
        if remove_index(&mut st.frontier, v) {
            st.frontier_hash = st.frontier_hash ^ default_zobrist_value(&vertex_key(p, v));
        }
        proof {
            assert(newly@.subrange(0, k + 1) =~= newly@.subrange(0, k as int).push(v));
            assert forall|w: usize| #[trigger] newly@.subrange(0, k + 1).contains(w) <==> newly@.subrange(0, k as int).contains(w) || w == v by {
                lemma_push_contains(newly@.subrange(0, k as int), v, w);
            }
        }
        k = k + 1;
    }
    assert(newly@.subrange(0, newly@.len() as int) =~= newly@);
}

/// The search: reports whether the placed vertices extend to a full order
/// that the level allows. `fuel` bounds the depth. On success the frontier
/// is empty and the order extends the one placed before the call; on
/// failure the order is as it was.
fn do_dfs(p: &LinProblem, st: &mut DfsState, fuel: usize) -> (found: bool)
    requires
        p.wf(),
        old(st).wf(p),
        old(st).in_range(p),
    ensures
        final(st).wf(p),
        final(st).in_range(p),
        found ==> final(st).frontier@.len() == 0,
        found ==> old(st).linearization@.len() <= final(st).linearization@.len()
            && final(st).linearization@.subrange(0, old(st).linearization@.len() as int) == old(st).linearization@,
        !found ==> final(st).linearization@ == old(st).linearization@,
        old(st).frontier@.len() == 0 ==> final(st).linearization@ == old(st).linearization@,
        old(st).frontier@.len() == 0 && u128_set_contents(old(st).seen).is_empty()
            && u128_set_contents(old(st).nogood).is_empty() ==> found,
    decreases fuel,
{
    let ghost l0 = st.linearization@;
    let ghost fl0 = st.frontier@.len();
    let sig = signature(p, st);
    if st.options.nogood_learning == NogoodLearning::Enabled && u128_set_contains(&st.nogood, sig) {
        return false;
    }
    if st.options.memoize_frontier && !u128_set_insert(&mut st.seen, sig) {
        return false;
    }
    if st.frontier.len() == 0 {
        return true;
    }
    if fuel == 0 {
        return false;
    }
    let candidates = ordered_candidates(p, st);
    let mut i: usize = 0;
    while i < candidates.len()
        invariant
            0 <= i <= candidates@.len(),
            p.wf(),
            st.wf(p),
            st.in_range(p),
            st.linearization@ == l0,
            l0 == old(st).linearization@,
            fl0 > 0,
            fl0 == old(st).frontier@.len(),
            fuel > 0,
        decreases candidates@.len() - i,
    {
        let (u, allowed) = candidates[i];
        if contains_index(&st.frontier, u) {
            proof {
                let m = choose|m: int| 0 <= m < st.frontier@.len() && st.frontier@[m] == u;
                assert(st.frontier@[m] < p.children@.len());
            }
            let ghost f0 = st.frontier@;
            remove_index(&mut st.frontier, u);
            assert forall|m: int| 0 <= m < st.frontier@.len() implies #[trigger] st.frontier@[m] < p.children@.len() by {
                assert(st.frontier@.contains(st.frontier@[m]));
                let q = choose|q: int| 0 <= q < f0.len() && f0[q] == st.frontier@[m];
            }
            if allowed {
                let newly = place(p, st, u);
                assert(st.in_range(p)) by {
                    assert forall|m: int| 0 <= m < st.linearization@.len() implies #[trigger] st.linearization@[m] < p.children@.len() by {
                        if m < l0.len() {
                            assert(st.linearization@[m] == l0[m]);
                        }
                    }
                }
                let ghost l1 = st.linearization@;
                assert(l1 == l0.push(u));
                if do_dfs(p, st, fuel - 1) {
                    assert(st.linearization@.len() >= l1.len());
                    assert(st.linearization@.subrange(0, l1.len() as int) == l1);
                    assert(st.linearization@.subrange(0, l0.len() as int) =~= l0) by {
                        assert forall|m: int| 0 <= m < l0.len() implies st.linearization@[m] == l0[m] by {
                            assert(st.linearization@.subrange(0, l1.len() as int)[m] == l1[m]);
                        }
                    }
                    return true;
                }
                let ghost f1 = st.frontier@;
                unplace(p, st, u, &newly);
                assert(l0.push(u).drop_last() =~= l0);
                assert forall|m: int| 0 <= m < st.frontier@.len() implies #[trigger] st.frontier@[m] < p.children@.len() by {
                    assert(st.frontier@.contains(st.frontier@[m]));
                    let q = choose|q: int| 0 <= q < f1.len() && f1[q] == st.frontier@[m];
                }
            }
            let ghost f2 = st.frontier@;
            st.frontier.push(u);
            assert forall|m: int| 0 <= m < st.frontier@.len() implies #[trigger] st.frontier@[m] < p.children@.len() by {
                if m < f2.len() {
                    assert(st.frontier@[m] == f2[m]);
                }
            }
        }
        i = i + 1;
    }
    if st.options.nogood_learning == NogoodLearning::Enabled {
        u128_set_insert(&mut st.nogood, sig);
    }
    false
}

/// Whether `lin` lists every vertex of the problem once, each after its
/// parents.
fn order_is_topological(p: &LinProblem, lin: &Vec<usize>) -> (r: bool)
    requires
        p.wf(),
    ensures
        r ==> is_topological_order(p.n_vertices(), |u: int| p.children@[u]@, lin@),
        p.n_vertices() == 0 && lin@.len() == 0 ==> r,
{
    let ghost ch = |u: int| p.children@[u]@;
    let n = p.children.len();
    if lin.len() != n {
        return false;
    }
    let mut pos: Vec<usize> = Vec::new();
    let mut v: usize = 0;
    while v < n
        invariant
            0 <= v <= n,
            n == p.children@.len(),
            pos@.len() == v,
            forall|w: int| 0 <= w < v ==> #[trigger] pos@[w] == n,
        decreases n - v,
    {
        pos.push(n);
        v = v + 1;
    }
    let mut i: usize = 0;
    while i < n
        invariant
            0 <= i <= n,
            n == p.children@.len(),
            n == lin@.len(),
            pos@.len() == n,
            forall|j: int| 0 <= j < i ==> #[trigger] lin@[j] < n && pos@[lin@[j] as int] == j,
            forall|w: int| 0 <= w < n ==> #[trigger] pos@[w] == n || (pos@[w] < i && lin@[pos@[w] as int] == w),
        decreases n - i,
    {
        let v = lin[i];
        if v >= n {
            return false;
        }
        if pos[v] != n {
            return false;
        }
        pos.set(v, i);
        i = i + 1;
    }
    let mut v: usize = 0;
    while v < n
        invariant
            0 <= v <= n,
            n == p.children@.len(),
            n == lin@.len(),
            pos@.len() == n,
            forall|w: int| 0 <= w < v ==> #[trigger] pos@[w] < n,
            forall|j: int| 0 <= j < n ==> #[trigger] lin@[j] < n && pos@[lin@[j] as int] == j,
            forall|w: int| 0 <= w < n ==> #[trigger] pos@[w] == n || (pos@[w] < n && lin@[pos@[w] as int] == w),
        decreases n - v,
    {
        if pos[v] == n {
            return false;
        }
        v = v + 1;
    }
    let mut u: usize = 0;
    while u < n
        invariant
            0 <= u <= n,
            p.wf(),
            n == p.children@.len(),
            n == lin@.len(),
            pos@.len() == n,
            forall|w: int| 0 <= w < n ==> #[trigger] pos@[w] < n,
            forall|j: int| 0 <= j < n ==> #[trigger] lin@[j] < n && pos@[lin@[j] as int] == j,
            forall|w: int| 0 <= w < n ==> #[trigger] pos@[w] == n || (pos@[w] < n && lin@[pos@[w] as int] == w),
            forall|a: int, k: int| 0 <= a < u && 0 <= k < p.children@[a]@.len() && p.children@[a]@[k] < n
                ==> pos@[a] < #[trigger] pos@[p.children@[a]@[k] as int],
        decreases n - u,
    {
        let cs = &p.children[u];
        let mut k: usize = 0;
        while k < cs.len()
            invariant
                0 <= k <= cs@.len(),
                u < n,
                p.wf(),
                n == p.children@.len(),
                *cs == p.children@[u as int],
                pos@.len() == n,
                forall|a: int, k2: int| 0 <= a < u && 0 <= k2 < p.children@[a]@.len() && p.children@[a]@[k2] < n
                    ==> pos@[a] < #[trigger] pos@[p.children@[a]@[k2] as int],
                forall|k2: int| 0 <= k2 < k && cs@[k2] < n ==> pos@[u as int] < #[trigger] pos@[cs@[k2] as int],
            decreases cs@.len() - k,
        {
            let c = cs[k];
            if c < n && !(pos[u] < pos[c]) {
                return false;
            }
            k = k + 1;
        }
        u = u + 1;
    }
    proof {
        assert(lin@.no_duplicates()) by {
            assert forall|a: int, b: int| 0 <= a < b < lin@.len() implies lin@[a] != lin@[b] by {
                assert(pos@[lin@[a] as int] == a && pos@[lin@[b] as int] == b);
            }
        }
        assert forall|i2: int, u2: int| 0 <= i2 < lin@.len() && 0 <= u2 < n && #[trigger] ch(u2).contains(#[trigger] lin@[i2])
            implies lin@.subrange(0, i2).contains(u2 as usize) by {
            let c = lin@[i2];
            let k = choose|k: int| 0 <= k < p.children@[u2]@.len() && p.children@[u2]@[k] == c;
            assert(pos@[u2] < pos@[c as int]);
            assert(pos@[c as int] == i2);
            let j = pos@[u2] as int;
            assert(lin@[j] == u2);
            assert(lin@.subrange(0, i2)[j] == u2 as usize);
        }
    }
    true
}

/// Searches for an order of all vertices that respects the children lists
/// and the level's constraints; returns the placed vertices, or nothing.
pub fn get_linearization(p: &LinProblem, options: DfsSearchOptions) -> (r: Option<Vec<usize>>)
    requires
        p.wf(),
    ensures
        r matches Some(l) ==> is_topological_order(p.n_vertices(), |u: int| p.children@[u]@, l@),
        p.n_vertices() == 0 ==> (r matches Some(l) && l@.len() == 0),
{
    let nv = p.children.len();
    let mut active_parent: Vec<usize> = Vec::new();
    let mut i: usize = 0;
    while i < nv
        invariant
            0 <= i <= nv,
            active_parent@.len() == i,
        decreases nv - i,
    {
        active_parent.push(0);
        i = i + 1;
    }
    let mut u: usize = 0;
    while u < nv
        invariant
            0 <= u <= nv,
            nv == p.children@.len(),
            active_parent@.len() == nv,
        decreases nv - u,
    {
        let cs = &p.children[u];
        let mut k: usize = 0;
        while k < cs.len()
            invariant
                0 <= k <= cs@.len(),
                active_parent@.len() == nv,
            decreases cs@.len() - k,
        {
            let v = cs[k];
            if v < nv {
                let c = active_parent[v];
                active_parent.set(v, c.saturating_add(1));
            }
            k = k + 1;
        }
        u = u + 1;
    }
    let mut active_write: Vec<Vec<usize>> = Vec::new();
    let mut active_variable: Vec<bool> = Vec::new();
    let n = p.tids.len();
    let mut x: usize = 0;
    while x < p.n_vars
        invariant
            0 <= x <= p.n_vars,
            p.wf(),
            n == p.tids@.len(),
            active_write@.len() == x,
            active_variable@.len() == x,
        decreases p.n_vars - x,
    {
        active_write.push(p.readers[x][n].clone());
        active_variable.push(false);
        x = x + 1;
    }
    let mut st = DfsState {
        active_parent,
        frontier: Vec::new(),
        linearization: Vec::new(),
        active_write,
        active_variable,
        frontier_hash: 0,
        seen: u128_set_new(),
        nogood: u128_set_new(),
        options,
    };
    let mut v: usize = 0;
    while v < nv
        invariant
            0 <= v <= nv,
            p.wf(),
            nv == p.children@.len(),
            st.wf(p),
            st.in_range(p),
            st.linearization@.len() == 0,
            st.frontier@.len() <= v,
            u128_set_contents(st.seen).is_empty(),
            u128_set_contents(st.nogood).is_empty(),
        decreases nv - v,
    {
        if st.active_parent[v] == 0 {
            let ghost f0 = st.frontier@;
            st.frontier.push(v);
            assert forall|m: int| 0 <= m < st.frontier@.len() implies #[trigger] st.frontier@[m] < p.children@.len() by {
                if m < f0.len() {
                    assert(st.frontier@[m] == f0[m]);
                }
            }
            st.frontier_hash = st.frontier_hash ^ default_zobrist_value(&vertex_key(p, v));
        }
        v = v + 1;
    }
    if do_dfs(p, &mut st, nv) && order_is_topological(p, &st.linearization) {
        Some(st.linearization)
    } else {
        None
    }
}

// ---------------------------------------------------------------------------
// Searches over problems that users supply
// ---------------------------------------------------------------------------

/// A constrained linearization problem supplied by its user: vertices
/// `0..n`, the children of each vertex, a constraint on which vertex may be
/// placed next, book-keeping that follows the placed vertices, and the
/// scores and Zobrist tokens that guide and memoize the search.
pub trait ConstrainedLinearizationSolver: Sized {
    /// The number of vertices (an implementation states its own; the
    /// default says nothing of it).
    open spec fn vertex_count(&self) -> nat {
        arbitrary()
    }

    /// The children of vertex `u` (an implementation states its own; the
    /// default says nothing of them).
    open spec fn children(&self, u: int) -> Seq<usize> {
        arbitrary()
    }

    /// The number of vertices; the vertices are `0..n`.
    fn vertices(&self) -> (r: usize)
        ensures
            r == self.vertex_count();

    /// The children of `source`: each must come after it in the order.
    fn children_of(&self, source: usize) -> (r: Vec<usize>)
        requires
            source < self.vertex_count(),
        ensures
            r@ == self.children(source as int);

    /// Whether `v` may be placed after `linearization`.
    fn allow_next(&self, linearization: &Vec<usize>, v: usize) -> bool;

    /// Updates the book-keeping after the last vertex of `linearization`
    /// was placed; leaves the vertices and their children as they were.
    fn forward_book_keeping(&mut self, linearization: &Vec<usize>)
        ensures
            final(self).vertex_count() == old(self).vertex_count(),
            forall|u: int| #[trigger] final(self).children(u) == old(self).children(u);

    /// Undoes the book-keeping of placing the last vertex of
    /// `linearization`; leaves the vertices and their children as they were.
    fn backtrack_book_keeping(&mut self, linearization: &Vec<usize>)
        ensures
            final(self).vertex_count() == old(self).vertex_count(),
            forall|u: int| #[trigger] final(self).children(u) == old(self).children(u);

    /// The Zobrist token of `v`, by default a seeded hash of it.
    fn zobrist_value(&self, v: usize) -> u128 {
        default_zobrist_value(&(0u64, 0u64, v as u64))
    }

    /// The branch score of `v`: higher-scoring candidates are tried first.
    fn branch_score(&self, linearization: &Vec<usize>, v: usize) -> i64 {
        0
    }

}

/// `l` lists the vertices `0..n` once each, every vertex after its parents.
pub open spec fn is_topological_order(n: nat, children: spec_fn(int) -> Seq<usize>, l: Seq<usize>) -> bool {
    &&& l.len() == n
    &&& l.no_duplicates()
    &&& forall|i: int| 0 <= i < l.len() ==> #[trigger] l[i] < n
    &&& forall|i: int, u: int| 0 <= i < l.len() && 0 <= u < n && #[trigger] children(u).contains(#[trigger] l[i])
        ==> l.subrange(0, i).contains(u as usize)
}

/// The state of a search over a supplied problem.
pub open spec fn search_state_ok(n: nat, children: spec_fn(int) -> Seq<usize>, parents: Seq<Vec<usize>>, placed: Seq<bool>, lin: Seq<usize>) -> bool {
    &&& parents.len() == n
    &&& placed.len() == n
    &&& forall|v: int, k: int| 0 <= v < n && 0 <= k < parents[v]@.len() ==> #[trigger] parents[v]@[k] < n
    &&& forall|u: int, v: usize| 0 <= u < n && v < n && #[trigger] children(u).contains(v) ==> parents[v as int]@.contains(u as usize)
    &&& lin.no_duplicates()
    &&& forall|i: int| 0 <= i < lin.len() ==> #[trigger] lin[i] < n
    &&& forall|v: int| 0 <= v < n ==> (#[trigger] placed[v] <==> lin.contains(v as usize))
    &&& forall|i: int, k: int| 0 <= i < lin.len() && 0 <= k < parents[lin[i] as int]@.len()
        ==> lin.subrange(0, i).contains(#[trigger] parents[lin[i] as int]@[k])
}

/// The search over a supplied problem: places, among the vertices whose
/// parents are all placed, the allowed ones, higher scores first; skips a
/// set of placed vertices met before (by the XOR of their Zobrist tokens).
fn search_step<S: ConstrainedLinearizationSolver>(
    s: &mut S,
    n: usize,
    parents: &Vec<Vec<usize>>,
    placed: &mut Vec<bool>,
    lin: &mut Vec<usize>,
    seen: &mut U128Set,
    sig: u128,
    fuel: usize,
    Ghost(ch): Ghost<spec_fn(int) -> Seq<usize>>,
) -> (found: bool)
    requires
        n == old(s).vertex_count(),
        forall|u: int| #[trigger] old(s).children(u) == ch(u),
        search_state_ok(n as nat, ch, parents@, old(placed)@, old(lin)@),
    ensures
        final(s).vertex_count() == old(s).vertex_count(),
        forall|u: int| #[trigger] final(s).children(u) == old(s).children(u),
        search_state_ok(n as nat, ch, parents@, final(placed)@, final(lin)@),
        found ==> final(lin)@.len() == n,
        !found ==> final(lin)@ == old(lin)@ && final(placed)@ == old(placed)@,
    decreases fuel,
{
    if lin.len() == n {
        return true;
    }
    if u128_set_contains(seen, sig) {
        return false;
    }
    u128_set_insert(seen, sig);
    if fuel == 0 {
        return false;
    }
    // the candidates, higher scores first
    let mut cands: Vec<(usize, i64)> = Vec::new();
    let mut v: usize = 0;
    while v < n
        invariant
            0 <= v <= n,
        decreases n - v,
    {
        let score = s.branch_score(lin, v);
        let mut pos: usize = 0;
        while pos < cands.len() && cands[pos].1 >= score
            invariant
                0 <= pos <= cands@.len(),
            decreases cands@.len() - pos,
        {
            pos = pos + 1;
        }
        cands.insert(pos, (v, score));
        v = v + 1;
    }
    let ghost lin0 = lin@;
    let ghost placed0 = placed@;
    let mut i: usize = 0;
    while i < cands.len()
        invariant
            0 <= i <= cands@.len(),
            n == s.vertex_count(),
            n == old(s).vertex_count(),
            forall|u: int| #[trigger] s.children(u) == ch(u),
            forall|u: int| #[trigger] old(s).children(u) == ch(u),
            lin@ == lin0,
            placed@ == placed0,
            search_state_ok(n as nat, ch, parents@, placed@, lin@),
            fuel > 0,
        decreases cands@.len() - i,
    {
        let v = cands[i].0;
        if v < n && !placed[v] {
            let ps = &parents[v];
            let mut ready = true;
            let mut k: usize = 0;
            while k < ps.len()
                invariant
                    0 <= k <= ps@.len(),
                    v < n,
                    *ps == parents@[v as int],
                    search_state_ok(n as nat, ch, parents@, placed@, lin@),
                    ready ==> forall|m: int| 0 <= m < k ==> placed@[#[trigger] ps@[m] as int],
                decreases ps@.len() - k,
            {
                if !placed[ps[k]] {
                    ready = false;
                }
                k = k + 1;
            }
            if ready && s.allow_next(lin, v) {
                let ghost l0 = lin@;
                lin.push(v);
                placed.set(v, true);
                proof {
                    assert(!l0.contains(v));
                    assert forall|m: int| 0 <= m < l0.len() + 1 && 0 <= m < lin@.len() implies #[trigger] lin@[m] < n by {
                        if m < l0.len() {
                            assert(lin@[m] == l0[m]);
                        }
                    }
                    assert(lin@.no_duplicates()) by {
                        assert forall|a: int, b: int| 0 <= a < b < lin@.len() implies lin@[a] != lin@[b] by {
                            if b == l0.len() {
                                assert(lin@[a] == l0[a]);
                                assert(l0.contains(l0[a]));
                            } else {
                                assert(lin@[a] == l0[a] && lin@[b] == l0[b]);
                            }
                        }
                    }
                    assert forall|w: int| 0 <= w < n implies (#[trigger] placed@[w] <==> lin@.contains(w as usize)) by {
                        if lin@.contains(w as usize) {
                            let q = choose|q: int| 0 <= q < lin@.len() && lin@[q] == w as usize;
                            if q < l0.len() {
                                assert(l0[q] == w as usize);
                            }
                        }
                        if w != v as int && placed0[w] {
                            assert(l0.contains(w as usize));
                            let q = choose|q: int| 0 <= q < l0.len() && l0[q] == w as usize;
                            assert(lin@[q] == w as usize);
                        }
                        if w == v as int {
                            assert(lin@[l0.len() as int] == v);
                        }
                    }
                    assert forall|a: int, k2: int| 0 <= a < lin@.len() && 0 <= k2 < parents@[lin@[a] as int]@.len()
                        implies lin@.subrange(0, a).contains(#[trigger] parents@[lin@[a] as int]@[k2]) by {
                        if a < l0.len() {
                            assert(lin@[a] == l0[a]);
                            assert(lin@.subrange(0, a) =~= l0.subrange(0, a));
                        } else {
                            assert(lin@.subrange(0, a) =~= l0);
                            let p = parents@[v as int]@[k2];
                            assert(placed0[p as int]);
                        }
                    }
                }
                s.forward_book_keeping(lin);
                let tok = s.zobrist_value(v);
                if search_step(s, n, parents, placed, lin, seen, sig ^ tok, fuel - 1, Ghost(ch)) {
                    return true;
                }
                s.backtrack_book_keeping(lin);
                lin.pop();
                placed.set(v, false);
                proof {
                    assert(lin@ =~= l0);
                    assert(placed@ =~= placed0);
                }
            }
        }
        i = i + 1;
    }
    false
}

/// Searches a supplied problem for an order of all vertices in which every
/// vertex comes after its parents and was allowed when it was placed;
/// `None` when the search finds none.
pub fn search_linearization<S: ConstrainedLinearizationSolver>(s: &mut S) -> (r: Option<Vec<usize>>)
    ensures
        r matches Some(l) ==> is_topological_order(old(s).vertex_count(), |u: int| old(s).children(u), l@),
        final(s).vertex_count() == old(s).vertex_count(),
{
    let ghost ch = |u: int| s.children(u);
    let n = s.vertices();
    let mut parents: Vec<Vec<usize>> = Vec::new();
    let mut v: usize = 0;
    while v < n
        invariant
            0 <= v <= n,
            parents@.len() == v,
            forall|w: int| 0 <= w < v ==> (#[trigger] parents@[w])@.len() == 0,
        decreases n - v,
    {
        parents.push(Vec::new());
        v = v + 1;
    }
    let mut u: usize = 0;
    while u < n
        invariant
            0 <= u <= n,
            n == s.vertex_count(),
            forall|x: int| #[trigger] s.children(x) == ch(x),
            parents@.len() == n,
            forall|w: int, k: int| 0 <= w < n && 0 <= k < parents@[w]@.len() ==> #[trigger] parents@[w]@[k] < u,
            forall|a: int, w: usize| 0 <= a < u && w < n && #[trigger] ch(a).contains(w) ==> parents@[w as int]@.contains(a as usize),
        decreases n - u,
    {
        let cs = s.children_of(u);
        let mut k: usize = 0;
        while k < cs.len()
            invariant
                0 <= k <= cs@.len(),
                u < n,
                cs@ == ch(u as int),
                parents@.len() == n,
                forall|w: int, j: int| 0 <= w < n && 0 <= j < parents@[w]@.len() ==> #[trigger] parents@[w]@[j] <= u,
                forall|a: int, w: usize| 0 <= a < u && w < n && #[trigger] ch(a).contains(w) ==> parents@[w as int]@.contains(a as usize),
                forall|j: int| 0 <= j < k && cs@[j] < n ==> parents@[cs@[j] as int]@.contains(u),
            decreases cs@.len() - k,
        {
            let w = cs[k];
            if w < n {
                let ghost p0 = parents@;
                let mut pw = parents[w].clone();
                assert(pw@ =~= p0[w as int]@);
                let ghost pw0 = pw@;
                pw.push(u);
                parents.set(w, pw);
                proof {
                    assert forall|x: int, j: int| 0 <= x < n && 0 <= j < parents@[x]@.len() implies #[trigger] parents@[x]@[j] <= u by {
                        if x != w as int {
                            assert(parents@[x] == p0[x]);
                        } else if j < pw0.len() {
                            assert(parents@[x]@[j] == pw0[j]);
                        }
                    }
                    assert forall|a: int, y: usize| 0 <= a < u && y < n && #[trigger] ch(a).contains(y) implies parents@[y as int]@.contains(a as usize) by {
                        assert(p0[y as int]@.contains(a as usize));
                        if y == w {
                            let q = choose|q: int| 0 <= q < pw0.len() && pw0[q] == a as usize;
                            assert(parents@[y as int]@[q] == a as usize);
                        } else {
                            assert(parents@[y as int] == p0[y as int]);
                        }
                    }
                    assert forall|j: int| 0 <= j < k + 1 && cs@[j] < n implies parents@[cs@[j] as int]@.contains(u) by {
                        if cs@[j] == w {
                            assert(parents@[w as int]@[pw0.len() as int] == u);
                        } else {
                            assert(parents@[cs@[j] as int] == p0[cs@[j] as int]);
                            assert(p0[cs@[j] as int]@.contains(u));
                        }
                    }
                }
            }
            k = k + 1;
        }
        proof {
            assert forall|a: int, w: usize| 0 <= a < u + 1 && w < n && #[trigger] ch(a).contains(w) implies parents@[w as int]@.contains(a as usize) by {
                if a == u as int {
                    let j = choose|j: int| 0 <= j < cs@.len() && cs@[j] == w;
                }
            }
        }
        u = u + 1;
    }
    let mut placed: Vec<bool> = Vec::new();
    let mut v: usize = 0;
    while v < n
        invariant
            0 <= v <= n,
            placed@.len() == v,
            forall|w: int| 0 <= w < v ==> !#[trigger] placed@[w],
        decreases n - v,
    {
        placed.push(false);
        v = v + 1;
    }
    let mut lin: Vec<usize> = Vec::new();
    let mut seen = u128_set_new();
    proof {
        assert(search_state_ok(n as nat, ch, parents@, placed@, lin@));
    }
    if search_step(s, n, &parents, &mut placed, &mut lin, &mut seen, 0, n, Ghost(ch)) {
        proof {
            assert forall|i: int, u2: int| 0 <= i < lin@.len() && 0 <= u2 < n && #[trigger] ch(u2).contains(#[trigger] lin@[i])
                implies lin@.subrange(0, i).contains(u2 as usize) by {
                assert(parents@[lin@[i] as int]@.contains(u2 as usize));
                let k = choose|k: int| 0 <= k < parents@[lin@[i] as int]@.len() && parents@[lin@[i] as int]@[k] == u2 as usize;
            }
            assert(ch =~= (|u: int| old(s).children(u)));
        }
        Some(lin)
    } else {
        None
    }
}

} // verus!
