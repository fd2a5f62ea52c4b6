use termclasses::indexing::{IndexedTerm, TermIndexing};
use termclasses::term::Term;

fn leaf() -> Term {
    Term::Variable
}

fn op(a: Term, b: Term) -> Term {
    Term::Operation(Box::new(a), Box::new(b))
}

fn paths(pattern: Term, host: &Term) -> Vec<Vec<bool>> {
    IndexedTerm::from(pattern).matches(host).into_iter().map(|a| a.path).collect()
}

#[test]
fn branch_pattern_matches_every_branch_bottom_up() {
    let host = op(op(leaf(), leaf()), leaf());
    assert_eq!(paths(op(leaf(), leaf()), &host), vec![vec![false], vec![]]);
}

#[test]
fn deeper_pattern_needs_deeper_host() {
    let pattern = op(op(leaf(), leaf()), leaf());
    let host = op(leaf(), op(op(leaf(), leaf()), op(leaf(), leaf())));
    // the right child has a branch on its left; the root does not
    assert_eq!(paths(pattern.copy(), &host), vec![vec![true]]);
    assert_eq!(paths(pattern, &op(leaf(), leaf())), Vec::<Vec<bool>>::new());
}

#[test]
fn leaf_pattern_reports_nothing() {
    let host = op(leaf(), leaf());
    assert_eq!(paths(leaf(), &host), Vec::<Vec<bool>>::new());
}

#[test]
fn table_counts_distinct_branch_shapes() {
    let pattern = op(op(leaf(), leaf()), op(leaf(), leaf()));
    assert_eq!(TermIndexing::from(&pattern).len(), 2);
    let indexed = IndexedTerm::from(pattern.copy());
    assert!(*indexed.term() == pattern);
    let host = op(op(op(leaf(), leaf()), op(leaf(), leaf())), op(op(leaf(), leaf()), op(leaf(), leaf())));
    assert_eq!(paths(pattern, &host), vec![vec![false], vec![true], vec![]]);
}
