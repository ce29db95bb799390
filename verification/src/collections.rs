//! Hash-based collections of plain integer keys, backed by `hashbrown`.
//!
//! Each collection is a thin shell around a `hashbrown` table whose contents
//! are named by a specification function; the functions of this module are the
//! only places that touch the tables. Where a table hands out its elements,
//! they come in the table's own order, which nothing here promises.
use vstd::prelude::*;

verus! {

// ---------------------------------------------------------------------------
// Sets of transaction identifiers `(session_id, session_height)`
// ---------------------------------------------------------------------------

/// A set of transaction identifiers, each written as `(session_id, session_height)`.
#[derive(Debug)]
#[verifier::external_body]
pub struct TidSet {
    inner: hashbrown::HashSet<(u64, u64)>,
}

/// The elements of a [`TidSet`].
pub uninterp spec fn tid_set_contents(s: TidSet) -> Set<(u64, u64)>;

/// `hashbrown::HashSet::new`: the new set is empty.
#[verifier::external_body]
pub fn tid_set_new() -> (s: TidSet)
    ensures
        tid_set_contents(s).is_empty(),
{
    TidSet { inner: hashbrown::HashSet::new() }
}

/// `hashbrown::HashSet::insert`: adds `k`; reports whether `k` was absent.
#[verifier::external_body]
pub fn tid_set_insert(s: &mut TidSet, k: (u64, u64)) -> (r: bool)
    ensures
        tid_set_contents(*final(s)) == tid_set_contents(*old(s)).insert(k),
        r == !tid_set_contents(*old(s)).contains(k),
{
    s.inner.insert(k)
}

/// `hashbrown::HashSet::contains`.
#[verifier::external_body]
pub fn tid_set_contains(s: &TidSet, k: (u64, u64)) -> (r: bool)
    ensures
        r == tid_set_contents(*s).contains(k),
{
    s.inner.contains(&k)
}

/// `hashbrown::HashSet::iter`, collected: every element exactly once.
#[verifier::external_body]
pub fn tid_set_elements(s: &TidSet) -> (r: Vec<(u64, u64)>)
    ensures
        r@.no_duplicates(),
        r@.to_set() == tid_set_contents(*s),
{
    s.inner.iter().copied().collect()
}

// ---------------------------------------------------------------------------
// Sets of plain integers (variables, session identifiers)
// ---------------------------------------------------------------------------

/// A set of `u64` values.
#[derive(Debug)]
#[verifier::external_body]
pub struct U64Set {
    inner: hashbrown::HashSet<u64>,
}

/// The elements of a [`U64Set`].
pub uninterp spec fn u64_set_contents(s: U64Set) -> Set<u64>;

/// `hashbrown::HashSet::new`: the new set is empty.
#[verifier::external_body]
pub fn u64_set_new() -> (s: U64Set)
    ensures
        u64_set_contents(s).is_empty(),
{
    U64Set { inner: hashbrown::HashSet::new() }
}

/// `hashbrown::HashSet::insert`: adds `k`; reports whether `k` was absent.
#[verifier::external_body]
pub fn u64_set_insert(s: &mut U64Set, k: u64) -> (r: bool)
    ensures
        u64_set_contents(*final(s)) == u64_set_contents(*old(s)).insert(k),
        r == !u64_set_contents(*old(s)).contains(k),
{
    s.inner.insert(k)
}

/// `hashbrown::HashSet::contains`.
#[verifier::external_body]
pub fn u64_set_contains(s: &U64Set, k: u64) -> (r: bool)
    ensures
        r == u64_set_contents(*s).contains(k),
{
    s.inner.contains(&k)
}

/// `hashbrown::HashSet::iter`, collected: every element exactly once.
#[verifier::external_body]
pub fn u64_set_elements(s: &U64Set) -> (r: Vec<u64>)
    ensures
        r@.no_duplicates(),
        r@.to_set() == u64_set_contents(*s),
{
    s.inner.iter().copied().collect()
}

// ---------------------------------------------------------------------------
// Adjacency tables: vertex `(u64, u64)` to its set of successors
// ---------------------------------------------------------------------------

/// An adjacency table from a vertex to the set of its successors.
#[derive(Debug)]
#[verifier::external_body]
pub struct AdjMap {
    inner: hashbrown::HashMap<(u64, u64), hashbrown::HashSet<(u64, u64)>>,
}

/// The contents of an [`AdjMap`]: each key with its successor set.
pub uninterp spec fn adj_contents(m: AdjMap) -> Map<(u64, u64), Set<(u64, u64)>>;

/// The successor set of `k`, empty where `k` is no key.
pub open spec fn adj_succ(m: Map<(u64, u64), Set<(u64, u64)>>, k: (u64, u64)) -> Set<(u64, u64)> {
    if m.dom().contains(k) {
        m[k]
    } else {
        Set::empty()
    }
}

/// `hashbrown::HashMap::new`: the new table is empty.
#[verifier::external_body]
pub fn adj_new() -> (m: AdjMap)
    ensures
        adj_contents(m).dom().is_empty(),
{
    AdjMap { inner: hashbrown::HashMap::new() }
}

/// `entry(k).or_default()`: makes `k` a key, with no successors if it was none.
#[verifier::external_body]
pub fn adj_add_key(m: &mut AdjMap, k: (u64, u64))
    ensures
        adj_contents(*final(m)) == adj_contents(*old(m)).insert(k, adj_succ(adj_contents(*old(m)), k)),
{
    m.inner.entry(k).or_default();
}

/// `entry(k).or_default().insert(v)`: makes `k` a key and `v` one of its
/// successors; reports whether `v` was new there.
#[verifier::external_body]
pub fn adj_insert(m: &mut AdjMap, k: (u64, u64), v: (u64, u64)) -> (r: bool)
    ensures
        adj_contents(*final(m)) == adj_contents(*old(m)).insert(k, adj_succ(adj_contents(*old(m)), k).insert(v)),
        r == !adj_succ(adj_contents(*old(m)), k).contains(v),
{
    m.inner.entry(k).or_default().insert(v)
}

/// `contains_key`.
#[verifier::external_body]
pub fn adj_has_key(m: &AdjMap, k: (u64, u64)) -> (r: bool)
    ensures
        r == adj_contents(*m).dom().contains(k),
{
    m.inner.contains_key(&k)
}

/// `get(&k).is_some_and(|s| s.contains(&v))`.
#[verifier::external_body]
pub fn adj_contains(m: &AdjMap, k: (u64, u64), v: (u64, u64)) -> (r: bool)
    ensures
        r == adj_succ(adj_contents(*m), k).contains(v),
{
    m.inner.get(&k).is_some_and(|s| s.contains(&v))
}

/// `keys()`, collected: every key exactly once.
#[verifier::external_body]
pub fn adj_keys(m: &AdjMap) -> (r: Vec<(u64, u64)>)
    ensures
        r@.no_duplicates(),
        r@.to_set() == adj_contents(*m).dom(),
{
    m.inner.keys().copied().collect()
}

/// The successors of `k`, collected: every successor exactly once; none where
/// `k` is no key.
#[verifier::external_body]
pub fn adj_successors(m: &AdjMap, k: (u64, u64)) -> (r: Vec<(u64, u64)>)
    ensures
        r@.no_duplicates(),
        r@.to_set() == adj_succ(adj_contents(*m), k),
{
    m.inner.get(&k).map(|s| s.iter().copied().collect()).unwrap_or_default()
}

/// `len()`: the number of keys.
#[verifier::external_body]
pub fn adj_len(m: &AdjMap) -> (r: usize)
    ensures
        r == adj_contents(*m).dom().len(),
{
    m.inner.len()
}

/// `clone()`: a table with the same contents.
#[verifier::external_body]
pub fn adj_clone(m: &AdjMap) -> (r: AdjMap)
    ensures
        adj_contents(r) == adj_contents(*m),
{
    AdjMap { inner: m.inner.clone() }
}

/// `==` on the tables: the same keys with the same successor sets.
#[verifier::external_body]
pub fn adj_eq(a: &AdjMap, b: &AdjMap) -> (r: bool)
    ensures
        r == (adj_contents(*a) == adj_contents(*b)),
{
    a.inner == b.inner
}

// ---------------------------------------------------------------------------
// Tables from integer triples to integer quadruples
// ---------------------------------------------------------------------------

/// A table from `(u64, u64, u64)` keys to `(u64, u64, u64, u64)` values.
#[derive(Debug)]
#[verifier::external_body]
pub struct KeyTable {
    inner: hashbrown::HashMap<(u64, u64, u64), (u64, u64, u64, u64)>,
}

/// The contents of a [`KeyTable`].
pub uninterp spec fn key_table_contents(t: KeyTable) -> Map<(u64, u64, u64), (u64, u64, u64, u64)>;

/// `hashbrown::HashMap::new`: the new table is empty.
#[verifier::external_body]
pub fn key_table_new() -> (t: KeyTable)
    ensures
        key_table_contents(t).dom().is_empty(),
{
    KeyTable { inner: hashbrown::HashMap::new() }
}

/// `insert(k, v)`: maps `k` to `v`; returns what `k` was mapped to before.
#[verifier::external_body]
pub fn key_table_insert(t: &mut KeyTable, k: (u64, u64, u64), v: (u64, u64, u64, u64)) -> (r: Option<(u64, u64, u64, u64)>)
    ensures
        key_table_contents(*final(t)) == key_table_contents(*old(t)).insert(k, v),
        r == (if key_table_contents(*old(t)).dom().contains(k) {
            Some(key_table_contents(*old(t))[k])
        } else {
            None
        }),
{
    t.inner.insert(k, v)
}

/// `get(&k).copied()`.
#[verifier::external_body]
pub fn key_table_get(t: &KeyTable, k: (u64, u64, u64)) -> (r: Option<(u64, u64, u64, u64)>)
    ensures
        r == (if key_table_contents(*t).dom().contains(k) {
            Some(key_table_contents(*t)[k])
        } else {
            None
        }),
{
    t.inner.get(&k).copied()
}

// ---------------------------------------------------------------------------
// Sets of 128-bit signatures
// ---------------------------------------------------------------------------

/// A set of `u128` values.
#[derive(Debug)]
#[verifier::external_body]
pub struct U128Set {
    inner: hashbrown::HashSet<u128>,
}

/// The elements of a [`U128Set`].
pub uninterp spec fn u128_set_contents(s: U128Set) -> Set<u128>;

/// `hashbrown::HashSet::new`: the new set is empty.
#[verifier::external_body]
pub fn u128_set_new() -> (s: U128Set)
    ensures
        u128_set_contents(s).is_empty(),
{
    U128Set { inner: hashbrown::HashSet::new() }
}

/// `hashbrown::HashSet::insert`: adds `k`; reports whether `k` was absent.
#[verifier::external_body]
pub fn u128_set_insert(s: &mut U128Set, k: u128) -> (r: bool)
    ensures
        u128_set_contents(*final(s)) == u128_set_contents(*old(s)).insert(k),
        r == !u128_set_contents(*old(s)).contains(k),
{
    s.inner.insert(k)
}

/// `hashbrown::HashSet::contains`.
#[verifier::external_body]
pub fn u128_set_contains(s: &U128Set, k: u128) -> (r: bool)
    ensures
        r == u128_set_contents(*s).contains(k),
{
    s.inner.contains(&k)
}

// ---------------------------------------------------------------------------
// Adjacency tables over plain integers: vertex `u64` to its neighbour set
// ---------------------------------------------------------------------------

/// An adjacency table from a `u64` vertex to the set of its neighbours.
#[derive(Debug)]
#[verifier::external_body]
pub struct U64AdjMap {
    inner: hashbrown::HashMap<u64, hashbrown::HashSet<u64>>,
}

/// The contents of a [`U64AdjMap`]: each key with its neighbour set.
pub uninterp spec fn uadj_contents(m: U64AdjMap) -> Map<u64, Set<u64>>;

/// The neighbour set of `k`, empty where `k` is no key.
pub open spec fn uadj_succ(m: Map<u64, Set<u64>>, k: u64) -> Set<u64> {
    if m.dom().contains(k) {
        m[k]
    } else {
        Set::empty()
    }
}

/// `hashbrown::HashMap::new`: the new table is empty.
#[verifier::external_body]
pub fn uadj_new() -> (m: U64AdjMap)
    ensures
        uadj_contents(m).dom().is_empty(),
{
    U64AdjMap { inner: hashbrown::HashMap::new() }
}

/// `entry(k).or_default()`: makes `k` a key, with no neighbours if it was none.
#[verifier::external_body]
pub fn uadj_add_key(m: &mut U64AdjMap, k: u64)
    ensures
        uadj_contents(*final(m)) == uadj_contents(*old(m)).insert(k, uadj_succ(uadj_contents(*old(m)), k)),
{
    m.inner.entry(k).or_default();
}

/// `entry(k).or_default().insert(v)`: makes `k` a key and `v` one of its
/// neighbours; reports whether `v` was new there.
#[verifier::external_body]
pub fn uadj_insert(m: &mut U64AdjMap, k: u64, v: u64) -> (r: bool)
    ensures
        uadj_contents(*final(m)) == uadj_contents(*old(m)).insert(k, uadj_succ(uadj_contents(*old(m)), k).insert(v)),
        r == !uadj_succ(uadj_contents(*old(m)), k).contains(v),
{
    m.inner.entry(k).or_default().insert(v)
}

/// `contains_key`.
#[verifier::external_body]
pub fn uadj_has_key(m: &U64AdjMap, k: u64) -> (r: bool)
    ensures
        r == uadj_contents(*m).dom().contains(k),
{
    m.inner.contains_key(&k)
}

/// `get(&k).is_some_and(|s| s.contains(&v))`.
#[verifier::external_body]
pub fn uadj_contains(m: &U64AdjMap, k: u64, v: u64) -> (r: bool)
    ensures
        r == uadj_succ(uadj_contents(*m), k).contains(v),
{
    m.inner.get(&k).is_some_and(|s| s.contains(&v))
}

/// `keys()`, collected: every key exactly once.
#[verifier::external_body]
pub fn uadj_keys(m: &U64AdjMap) -> (r: Vec<u64>)
    ensures
        r@.no_duplicates(),
        r@.to_set() == uadj_contents(*m).dom(),
{
    m.inner.keys().copied().collect()
}

/// The neighbours of `k`, collected: every neighbour exactly once; none where
/// `k` is no key.
#[verifier::external_body]
pub fn uadj_successors(m: &U64AdjMap, k: u64) -> (r: Vec<u64>)
    ensures
        r@.no_duplicates(),
        r@.to_set() == uadj_succ(uadj_contents(*m), k),
{
    m.inner.get(&k).map(|s| s.iter().copied().collect()).unwrap_or_default()
}

// ---------------------------------------------------------------------------
// Tables from plain integers to plain integers
// ---------------------------------------------------------------------------

/// A table from `u64` keys to `u64` values.
#[derive(Debug)]
#[verifier::external_body]
pub struct U64Map {
    inner: hashbrown::HashMap<u64, u64>,
}

/// The contents of a [`U64Map`].
pub uninterp spec fn u64_map_contents(m: U64Map) -> Map<u64, u64>;

/// `hashbrown::HashMap::new`: the new table is empty.
#[verifier::external_body]
pub fn u64_map_new() -> (m: U64Map)
    ensures
        u64_map_contents(m).dom().is_empty(),
{
    U64Map { inner: hashbrown::HashMap::new() }
}

/// `hashbrown::HashMap::insert`: maps `k` to `v`, replacing any earlier value.
#[verifier::external_body]
pub fn u64_map_insert(m: &mut U64Map, k: u64, v: u64)
    ensures
        u64_map_contents(*final(m)) == u64_map_contents(*old(m)).insert(k, v),
{
    m.inner.insert(k, v);
}

/// `hashbrown::HashMap::get`, copied.
#[verifier::external_body]
pub fn u64_map_get(m: &U64Map, k: u64) -> (r: Option<u64>)
    ensures
        r is Some <==> u64_map_contents(*m).dom().contains(k),
        r matches Some(v) ==> v == u64_map_contents(*m)[k],
{
    m.inner.get(&k).copied()
}

/// `hashbrown::HashMap::clone`: a table with the same contents.
#[verifier::external_body]
pub fn u64_map_clone(m: &U64Map) -> (r: U64Map)
    ensures
        u64_map_contents(r) == u64_map_contents(*m),
{
    U64Map { inner: m.inner.clone() }
}

} // verus!
