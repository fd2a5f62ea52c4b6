use termclasses::labeled::parse_rule;
use termclasses::maps::TermMap;
use termclasses::perm::Permutation;
use termclasses::term::Term;

fn leaf() -> Term {
    Term::Variable
}

fn op(a: Term, b: Term) -> Term {
    Term::Operation(Box::new(a), Box::new(b))
}

fn images(m: &TermMap) -> Vec<u16> {
    (0..m.perm().len() as u16).map(|i| m.index(i)).collect()
}

#[test]
fn backward_swaps_ends_and_inverts() {
    let src = op(op(leaf(), leaf()), leaf());
    let tgt = op(leaf(), op(leaf(), leaf()));
    let m = TermMap::new(src.copy(), tgt.copy(), Permutation::from(vec![2, 0, 1]));
    let b = m.backward();
    assert!(*b.source() == tgt);
    assert!(*b.target() == src);
    assert_eq!(images(&b), vec![1, 2, 0]);
    let bb = b.into_backward();
    assert!(*bb.source() == src);
    assert_eq!(images(&bb), vec![2, 0, 1]);
}

#[test]
fn compose_chains_maps() {
    let t = op(leaf(), op(leaf(), leaf()));
    let a = TermMap::new(t.copy(), t.copy(), Permutation::from(vec![1, 2, 0]));
    let b = TermMap::new(t.copy(), t.copy(), Permutation::from(vec![0, 2, 1]));
    let c = TermMap::new(t.copy(), t.copy(), Permutation::from(vec![2, 1, 0]));
    let left = a.compose(&b.compose(&c));
    let right = a.compose(&b).compose(&c);
    assert_eq!(images(&left), images(&right));
    assert_eq!(images(&a.compose(&b)), vec![2, 1, 0]);
    let mut d = a.compose(&b);
    d.compose_assign(&c);
    assert_eq!(images(&d), images(&right));
}

#[test]
fn identity_map_of_term() {
    let t = op(op(leaf(), leaf()), op(leaf(), leaf()));
    let m = t.identity_map();
    assert!(*m.source() == t && *m.target() == t);
    assert_eq!(images(&m), vec![0, 1, 2, 3]);
    assert!(m.into_perm().is_identity());
}

#[test]
fn rule_map_follows_letters() {
    let m = parse_rule("a*b = b*a").unwrap();
    assert_eq!(images(&m), vec![1, 0]);
    let m = parse_rule("(a*b)*c = c*(a*b)").unwrap();
    assert!(*m.source() == op(op(leaf(), leaf()), leaf()));
    assert!(*m.target() == op(leaf(), op(leaf(), leaf())));
    assert_eq!(images(&m), vec![1, 2, 0]);
}
