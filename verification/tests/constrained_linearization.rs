//! Searches over problems that users supply: branch scores order the
//! candidates, and a custom Zobrist token does not stop the search.
//! Vertices are numbered `0..n`; the two vertices of these problems are
//! numbered 0 and 1.

use std::collections::HashMap;

use dbcop::consistency::constrained_linearization::{default_zobrist_value, search_linearization, ConstrainedLinearizationSolver};

struct ToySolver {
    scores: HashMap<usize, i64>,
    use_custom_zobrist: bool,
}

impl ConstrainedLinearizationSolver for ToySolver {
    fn vertices(&self) -> usize {
        2
    }

    fn children_of(&self, _source: usize) -> Vec<usize> {
        Vec::new()
    }

    fn allow_next(&self, _linearization: &Vec<usize>, _v: usize) -> bool {
        true
    }

    fn forward_book_keeping(&mut self, _linearization: &Vec<usize>) {}

    fn backtrack_book_keeping(&mut self, _linearization: &Vec<usize>) {}

    fn zobrist_value(&self, v: usize) -> u128 {
        if self.use_custom_zobrist {
            ((v as u128) + 1) << 1
        } else {
            default_zobrist_value(&(0, 0, v as u64))
        }
    }

    fn branch_score(&self, _linearization: &Vec<usize>, v: usize) -> i64 {
        *self.scores.get(&v).unwrap_or(&0)
    }
}

#[test]
fn high_score_branching_picks_high_score_first() {
    let mut solver = ToySolver { scores: [(0, 1), (1, 10)].into(), use_custom_zobrist: false };
    let lin = search_linearization(&mut solver).expect("expected linearization");
    assert_eq!(lin[0], 1);
}

#[test]
fn custom_zobrist_provider_still_finds_linearization() {
    let mut solver = ToySolver { scores: HashMap::default(), use_custom_zobrist: true };
    let lin = search_linearization(&mut solver).expect("expected linearization");
    assert_eq!(lin.len(), 2);
}
