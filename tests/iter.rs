use termclasses::iter::TermIterator;
use termclasses::term::Term;

fn all(n: usize) -> Vec<Term> {
    let mut it = TermIterator::new(n);
    let mut out = Vec::new();
    while let Some(t) = it.next() {
        out.push(t);
    }
    out
}

#[test]
fn counts_follow_catalan_numbers() {
    assert_eq!(all(1).len(), 1);
    assert_eq!(all(2).len(), 1);
    assert_eq!(all(3).len(), 2);
    assert_eq!(all(4).len(), 5);
    assert_eq!(all(5).len(), 14);
    assert_eq!(all(6).len(), 42);
}

#[test]
fn every_tree_has_the_leaf_count_and_appears_once() {
    let trees = all(5);
    for t in &trees {
        assert_eq!(t.leaves(), 5);
    }
    for i in 0..trees.len() {
        for j in 0..i {
            assert!(trees[i] != trees[j]);
        }
    }
}

#[test]
fn order_is_by_left_size_then_right_then_left() {
    let leaf = || Term::Variable;
    let op = |a: Term, b: Term| Term::Operation(Box::new(a), Box::new(b));
    let trees = all(3);
    assert!(trees[0] == op(leaf(), op(leaf(), leaf())));
    assert!(trees[1] == op(op(leaf(), leaf()), leaf()));
}

#[test]
fn exhausted_iterator_stays_empty() {
    let mut it = TermIterator::new(2);
    assert!(it.next().is_some());
    assert!(it.next().is_none());
    assert!(it.next().is_none());
}
