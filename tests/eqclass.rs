use termclasses::eqclass::EquivalenceClasses;
use termclasses::explore::explore;
use termclasses::labeled::{RuleError, parse_rule};
use termclasses::maps::TermMap;
use termclasses::perm::Permutation;
use termclasses::term::Term;

fn leaf() -> Term {
    Term::Variable
}

fn op(a: Term, b: Term) -> Term {
    Term::Operation(Box::new(a), Box::new(b))
}

fn all_perms3() -> Vec<Vec<u16>> {
    vec![
        vec![0, 1, 2],
        vec![0, 2, 1],
        vec![1, 0, 2],
        vec![1, 2, 0],
        vec![2, 0, 1],
        vec![2, 1, 0],
    ]
}

#[test]
fn associativity_three_leaves_one_class() {
    let rule = parse_rule("(a*b)*c = a*(b*c)").unwrap();
    let classes = explore(&rule, 3);
    assert_eq!(classes.len(), 2);
    assert_eq!(classes.class_count(), 1);
    assert!(classes.automorphisms(0).is_none());
    assert_eq!(classes.root_index(0), classes.root_index(1));
}

#[test]
fn commutativity_three_leaves_one_class() {
    let rule = parse_rule("a*b = b*a").unwrap();
    let classes = explore(&rule, 3);
    assert_eq!(classes.len(), 2);
    assert_eq!(classes.class_count(), 1);
    // the root is x*(x*x); commuting only ever swaps its two inner leaves
    assert!(*classes.term_of(0) == op(leaf(), op(leaf(), leaf())));
    let group = classes.automorphisms(0).expect("automorphisms recorded");
    let members: Vec<Vec<u16>> =
        all_perms3().into_iter().filter(|p| group.contains(&Permutation::from(p.clone()))).collect();
    assert_eq!(members, vec![vec![0, 1, 2], vec![0, 2, 1]]);
}

#[test]
fn identical_sides_leave_every_tree_alone() {
    let rule = parse_rule("a*b = a*b").unwrap();
    let classes = explore(&rule, 3);
    assert_eq!(classes.len(), 2);
    assert_eq!(classes.class_count(), 2);
    assert!(classes.automorphisms(0).is_none());
    assert!(classes.automorphisms(1).is_none());
}

#[test]
fn rule_dropping_a_letter_is_refused() {
    assert_eq!(parse_rule("a*b = a").err(), Some(RuleError::Shape));
}

#[test]
fn associativity_four_leaves_one_class_no_automorphism() {
    let rule = parse_rule("(a*b)*c = a*(b*c)").unwrap();
    let classes = explore(&rule, 4);
    assert_eq!(classes.len(), 5);
    assert_eq!(classes.class_count(), 1);
    for i in 0..5 {
        assert!(classes.automorphisms(i).is_none());
    }
}

#[test]
fn commutativity_two_leaves_swap_group() {
    let rule = parse_rule("a*b = b*a").unwrap();
    let classes = explore(&rule, 2);
    assert_eq!(classes.len(), 1);
    assert_eq!(classes.class_count(), 1);
    let group = classes.automorphisms(0).expect("automorphisms recorded");
    assert!(group.contains(&Permutation::from(vec![1, 0])));
    assert!(group.contains(&Permutation::identity()));
    assert!(!group.contains(&Permutation::from(vec![0, 2, 1])));
}

#[test]
fn add_equiv_merges_and_records_cycles() {
    let a = op(op(leaf(), leaf()), leaf());
    let b = op(leaf(), op(leaf(), leaf()));
    let mut classes = EquivalenceClasses::new();
    classes.add_equiv(TermMap::new(a.copy(), b.copy(), Permutation::from(vec![0, 1, 2])));
    assert_eq!(classes.class_count(), 1);
    let ia = classes.index_of(&a).unwrap();
    let ib = classes.index_of(&b).unwrap();
    assert_eq!(classes.root_index(ia), classes.root_index(ib));
    assert!(classes.automorphisms(ia).is_none());
    // a second link that differs by a swap closes a cycle
    classes.add_equiv(TermMap::new(a.copy(), b.copy(), Permutation::from(vec![1, 0, 2])));
    let group = classes.automorphisms(ia).expect("cycle recorded");
    assert!(group.contains(&Permutation::from(vec![1, 0, 2])));
    assert!(!group.contains(&Permutation::from(vec![0, 2, 1])));
    // repeating the first link adds nothing new
    classes.add_equiv(TermMap::new(a.copy(), b.copy(), Permutation::from(vec![0, 1, 2])));
    assert_eq!(classes.len(), 2);
    assert_eq!(classes.class_count(), 1);
}

#[test]
fn separate_terms_stay_separate() {
    let a = op(op(leaf(), leaf()), leaf());
    let b = op(leaf(), op(leaf(), leaf()));
    let c = op(op(leaf(), leaf()), op(leaf(), leaf()));
    let d = op(leaf(), op(leaf(), op(leaf(), leaf())));
    let mut classes = EquivalenceClasses::new();
    classes.add_equiv(TermMap::new(a.copy(), b.copy(), Permutation::from(vec![0, 1, 2])));
    classes.add_equiv(TermMap::new(c.copy(), d.copy(), Permutation::from(vec![3, 2, 1, 0])));
    assert_eq!(classes.len(), 4);
    assert_eq!(classes.class_count(), 2);
    let ia = classes.index_of(&a).unwrap();
    let ic = classes.index_of(&c).unwrap();
    let id = classes.index_of(&d).unwrap();
    assert_ne!(classes.root_index(ia), classes.root_index(ic));
    assert_eq!(classes.root_index(ic), classes.root_index(id));
    assert!(classes.term_of(ic) == &c);
}

#[test]
fn map_to_root_composes_links() {
    let a = op(op(leaf(), leaf()), leaf());
    let b = op(leaf(), op(leaf(), leaf()));
    let mut classes = EquivalenceClasses::new();
    classes.add_equiv(TermMap::new(a.copy(), b.copy(), Permutation::from(vec![2, 0, 1])));
    let ia = classes.index_of(&a).unwrap();
    let ib = classes.index_of(&b).unwrap();
    let root = classes.root_index(ia);
    let other = if root == ia { ib } else { ia };
    let m = classes.map_to_root(other);
    assert!(m.source() == classes.term_of(other));
    assert!(m.target() == classes.term_of(root));
    let images: Vec<u16> = (0..3).map(|i| m.index(i)).collect();
    if other == ia {
        assert_eq!(images, vec![2, 0, 1]);
    } else {
        assert_eq!(images, vec![1, 2, 0]);
    }
    let at_root = classes.map_to_root(root);
    assert!(at_root.perm().is_identity());
}
