//! The partial order of an atomic history: session order, write-read,
//! write-write and read-write relations, and visibility.

use dbcop::graph::digraph::DiGraph;
use dbcop::history::atomic::types::{AtomicTransactionHistory, TransactionId};
use dbcop::history::atomic::AtomicTransactionPO;
use dbcop::history::raw::types::{Event, Session, Transaction};

type History = Vec<Session<&'static str, u64>>;

fn build_po(history: &History) -> AtomicTransactionPO<&'static str> {
    let atomic_history = AtomicTransactionHistory::try_from(history.as_slice()).unwrap();
    AtomicTransactionPO::from(atomic_history)
}

fn tid(session_id: u64, session_height: u64) -> TransactionId {
    TransactionId { session_id, session_height }
}

/// The graph listed for variable `x`, if any.
fn for_var<'a>(rel: &'a [(&'static str, DiGraph)], x: &str) -> Option<&'a DiGraph> {
    rel.iter().find(|(v, _)| *v == x).map(|(_, g)| g)
}

fn include_wr(po: &mut AtomicTransactionPO<&'static str>) {
    let wr = po.get_wr();
    po.vis_includes(&wr);
}

#[test]
fn session_order_chain_closure() {
    let history: History = vec![vec![
        Transaction::committed(vec![Event::write("x", 1)]),
        Transaction::committed(vec![Event::write("x", 2)]),
        Transaction::committed(vec![Event::write("x", 3)]),
    ]];
    let po = build_po(&history);
    let root = TransactionId::default();
    let t0 = tid(1, 0);
    let t1 = tid(1, 1);
    let t2 = tid(1, 2);
    // Root connects to all
    assert!(po.session_order.has_edge(&root, &t0));
    assert!(po.session_order.has_edge(&root, &t1));
    assert!(po.session_order.has_edge(&root, &t2));
    // Transitive closure within chain
    assert!(po.session_order.has_edge(&t0, &t1));
    assert!(po.session_order.has_edge(&t0, &t2));
    assert!(po.session_order.has_edge(&t1, &t2));
}

#[test]
fn write_read_relation_built_correctly() {
    let history: History = vec![
        vec![Transaction::committed(vec![Event::write("x", 1)])],
        vec![Transaction::committed(vec![Event::read("x", 1)])],
    ];
    let po = build_po(&history);
    let t1 = tid(1, 0);
    let t2 = tid(2, 0);
    let wr_x = for_var(&po.write_read_relation, "x").unwrap();
    assert!(wr_x.has_edge(&t1, &t2));
    // wr_union should also have this edge
    assert!(po.wr_union.has_edge(&t1, &t2));
}

fn overwrite_chain() -> History {
    vec![
        vec![Transaction::committed(vec![Event::write("x", 1)])],
        vec![Transaction::committed(vec![Event::read("x", 1), Event::write("x", 2)])],
        vec![Transaction::committed(vec![Event::read("x", 2)])],
    ]
}

#[test]
fn causal_ww_detects_write_write_dependency() {
    let history = overwrite_chain();
    let mut po = build_po(&history);
    include_wr(&mut po);
    po.vis_is_trans();

    let ww = po.causal_ww();
    let ww_x = for_var(&ww, "x");
    assert!(ww_x.is_some(), "expected ww relation for x");
    assert!(ww_x.unwrap().has_edge(&tid(1, 0), &tid(2, 0)));
}

#[test]
fn causal_rw_detects_anti_dependency() {
    let history = overwrite_chain();
    let mut po = build_po(&history);
    include_wr(&mut po);
    po.vis_is_trans();

    let rw = po.causal_rw();
    assert!(for_var(&rw, "x").is_some(), "expected rw relation for x");
}

fn non_writer_history() -> History {
    vec![
        vec![Transaction::committed(vec![Event::write("x", 1), Event::write("y", 1)])],
        vec![Transaction::committed(vec![Event::read("x", 1), Event::write("x", 2)])],
        vec![Transaction::committed(vec![Event::read("x", 2), Event::write("y", 2)])],
        vec![Transaction::committed(vec![Event::read("x", 2), Event::read("y", 2)])],
    ]
}

#[test]
fn causal_ww_ignores_non_writer_vertices() {
    let history = non_writer_history();
    let mut po = build_po(&history);
    include_wr(&mut po);
    po.vis_is_trans();

    let ww = po.causal_ww();
    let ww_x = for_var(&ww, "x").expect("expected ww relation for x");

    let s2 = tid(2, 0);
    let s3 = tid(3, 0);

    assert!(!ww_x.has_edge(&s3, &s2), "non-writer s3 must not induce ww edge on x");
}

#[test]
fn causal_rw_ignores_non_writer_vertices() {
    let history = non_writer_history();
    let mut po = build_po(&history);
    include_wr(&mut po);
    po.vis_is_trans();

    let rw = po.causal_rw();
    let rw_x = for_var(&rw, "x").expect("expected rw relation for x");

    let s3 = tid(3, 0);
    let s4 = tid(4, 0);

    assert!(!rw_x.has_edge(&s4, &s3), "non-writer s3 must not appear as rw target on x");
}

#[test]
fn causal_rw_orders_reader_before_overwriter() {
    // s2 reads x from s1 and s3 overwrites x after seeing s1: s2 reads a
    // version that s3 overwrites.
    let history: History = vec![
        vec![Transaction::committed(vec![Event::write("x", 1)])],
        vec![Transaction::committed(vec![Event::read("x", 1)])],
        vec![Transaction::committed(vec![Event::read("x", 1), Event::write("x", 2)])],
    ];
    let mut po = build_po(&history);
    include_wr(&mut po);
    po.vis_is_trans();
    let rw = po.causal_rw();
    let rw_x = for_var(&rw, "x").expect("expected rw relation for x");
    assert!(rw_x.has_edge(&tid(2, 0), &tid(3, 0)));
    assert!(!rw_x.has_edge(&tid(3, 0), &tid(3, 0)));
}

#[test]
fn has_valid_visibility_acyclic() {
    let history: History = vec![
        vec![Transaction::committed(vec![Event::write("x", 1)])],
        vec![Transaction::committed(vec![Event::read("x", 1)])],
    ];
    let po = build_po(&history);
    assert!(po.has_valid_visibility(), "simple chain should be acyclic");
}

#[test]
fn vis_includes_returns_true_on_change() {
    let history: History = vec![
        vec![Transaction::committed(vec![Event::write("x", 1)])],
        vec![Transaction::committed(vec![Event::read("x", 1)])],
    ];
    let mut po = build_po(&history);
    let wr = po.get_wr();
    let changed = po.vis_includes(&wr);
    assert!(changed, "vis_includes should return true when new edges are added");
    let changed_again = po.vis_includes(&wr);
    assert!(!changed_again, "vis_includes should return false when no new edges");
}

#[test]
fn vis_is_trans_computes_closure() {
    let history: History = vec![
        vec![Transaction::committed(vec![Event::write("x", 1)])],
        vec![Transaction::committed(vec![Event::read("x", 1), Event::write("y", 1)])],
        vec![Transaction::committed(vec![Event::read("y", 1)])],
    ];
    let mut po = build_po(&history);
    include_wr(&mut po);
    let changed = po.vis_is_trans();
    assert!(changed, "closure should add new transitive edges");
    let t1 = tid(1, 0);
    let t3 = tid(3, 0);
    assert!(po.visibility_relation.has_edge(&t1, &t3), "transitive vis(s1, s3) should exist after closure");
}
