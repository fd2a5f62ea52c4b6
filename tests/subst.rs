use termclasses::byaddr::TermByAddress;
use termclasses::labeled::parse_rule;
use termclasses::maps::TermMap;
use termclasses::term::Term;
use termclasses::transform::TreeTransform;

fn leaf() -> Term {
    Term::Variable
}

fn op(a: Term, b: Term) -> Term {
    Term::Operation(Box::new(a), Box::new(b))
}

fn images(m: &TermMap) -> Vec<u16> {
    (0..m.perm().len() as u16).map(|i| m.index(i)).collect()
}

fn at(path: Vec<bool>) -> TermByAddress {
    TermByAddress { path }
}

#[test]
fn associativity_step_at_root() {
    let rule = parse_rule("(a*b)*c = a*(b*c)").unwrap();
    let host = op(op(leaf(), leaf()), leaf());
    let step = host.substitute(&at(vec![]), &rule);
    assert!(*step.source() == host);
    assert!(*step.target() == op(leaf(), op(leaf(), leaf())));
    assert_eq!(images(&step), vec![0, 1, 2]);
}

#[test]
fn commutativity_moves_whole_subterms() {
    let rule = parse_rule("a*b = b*a").unwrap();
    let host = op(op(leaf(), leaf()), leaf());
    let step = host.substitute(&at(vec![]), &rule);
    assert!(*step.target() == op(leaf(), op(leaf(), leaf())));
    // host leaves 0 and 1 move right by one, leaf 2 comes first
    assert_eq!(images(&step), vec![1, 2, 0]);
}

#[test]
fn step_below_root_keeps_other_leaves() {
    let rule = parse_rule("a*b = b*a").unwrap();
    let host = op(leaf(), op(op(leaf(), leaf()), leaf()));
    let step = host.substitute(&at(vec![true]), &rule);
    assert!(*step.target() == op(leaf(), op(leaf(), op(leaf(), leaf()))));
    assert_eq!(images(&step), vec![0, 2, 3, 1]);
    assert_eq!(step.perm().len(), 4);
}

#[test]
fn rewrite_keeps_leaf_count_and_bijection() {
    let rule = parse_rule("(a*b)*c = c*(b*a)").unwrap();
    let host = op(op(op(leaf(), leaf()), op(leaf(), leaf())), leaf());
    let step = host.substitute(&at(vec![]), &rule);
    // (X*Y)*z with X = (0 1), Y = (2 3), z = 4 becomes z*(Y*X)
    assert!(*step.target() == op(leaf(), op(op(leaf(), leaf()), op(leaf(), leaf()))));
    assert_eq!(images(&step), vec![3, 4, 1, 2, 0]);
    let mut seen = images(&step);
    seen.sort();
    assert_eq!(seen, vec![0, 1, 2, 3, 4]);
}

#[test]
fn counted_clone_counts_leaves() {
    let t = op(op(leaf(), leaf()), op(leaf(), op(leaf(), leaf())));
    let (copy, n) = t.counted_clone();
    assert!(*copy == t);
    assert_eq!(n, 5);
}

#[test]
fn transform_in_both_directions() {
    let rule = parse_rule("(a*b)*c = a*(b*c)").unwrap();
    let forward = TreeTransform::new(&rule, true);
    let backward = TreeTransform::new(&rule, false);
    assert!(*forward.source() == op(op(leaf(), leaf()), leaf()));
    assert!(*backward.source() == op(leaf(), op(leaf(), leaf())));
    let host = op(leaf(), op(leaf(), leaf()));
    assert_eq!(forward.matches(&host).len(), 0);
    let found = backward.matches(&host);
    assert_eq!(found.len(), 1);
    let step = backward.apply(&host, &found[0]);
    assert!(*step.target() == op(op(leaf(), leaf()), leaf()));
    assert_eq!(images(&step), vec![0, 1, 2]);
}
