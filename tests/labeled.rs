use termclasses::labeled::{LabeledTerm, RuleError, parse_rule};
use termclasses::term::Term;

fn leaf() -> Term {
    Term::Variable
}

fn op(a: Term, b: Term) -> Term {
    Term::Operation(Box::new(a), Box::new(b))
}

#[test]
fn parse_is_right_associative() {
    let t = LabeledTerm::parse("a * b * c").unwrap();
    assert!(t.skeleton() == op(leaf(), op(leaf(), leaf())));
    assert!(t.label().is_none());
    match t {
        LabeledTerm::Operation(l, _) => assert_eq!(l.label(), Some(&'a')),
        LabeledTerm::Variable(_) => panic!("expected a branch"),
    }
}

#[test]
fn parse_handles_parentheses_and_whitespace() {
    let t = LabeledTerm::parse(" ( a*b )\t* C ").unwrap();
    assert!(t.skeleton() == op(op(leaf(), leaf()), leaf()));
    let single = LabeledTerm::parse("((x))").unwrap();
    assert_eq!(single.label(), Some(&'x'));
}

#[test]
fn parse_rejects_malformed_text() {
    assert!(matches!(LabeledTerm::parse(""), Err(RuleError::Parse)));
    assert!(matches!(LabeledTerm::parse("a*"), Err(RuleError::Parse)));
    assert!(matches!(LabeledTerm::parse("(a*b"), Err(RuleError::Parse)));
    assert!(matches!(LabeledTerm::parse("a)"), Err(RuleError::Parse)));
    assert!(matches!(LabeledTerm::parse("a+b"), Err(RuleError::Parse)));
    assert!(matches!(LabeledTerm::parse("1*b"), Err(RuleError::Parse)));
}

#[test]
fn rule_with_different_letters_is_refused() {
    assert_eq!(parse_rule("a*b = a").err(), Some(RuleError::Shape));
    assert_eq!(parse_rule("a*a = a*a").err(), Some(RuleError::Shape));
    assert_eq!(parse_rule("a*b = a*c").err(), Some(RuleError::Shape));
    assert_eq!(parse_rule("a*a = a").err(), Some(RuleError::Shape));
}

#[test]
fn rule_text_errors() {
    assert_eq!(parse_rule("a*b").err(), Some(RuleError::Parse));
    assert_eq!(parse_rule("a*b = (b*a").err(), Some(RuleError::Parse));
    assert_eq!(parse_rule("= a").err(), Some(RuleError::Parse));
}

#[test]
fn map_to_pairs_letters() {
    let l = LabeledTerm::parse("(a*b)*c").unwrap();
    let r = LabeledTerm::parse("a*(b*c)").unwrap();
    let m = l.map_to(&r).unwrap();
    assert_eq!((0..3).map(|i| m.index(i)).collect::<Vec<_>>(), vec![0, 1, 2]);
    let r2 = LabeledTerm::parse("c*(a*b)").unwrap();
    let m2 = l.map_to(&r2).unwrap();
    assert_eq!((0..3).map(|i| m2.index(i)).collect::<Vec<_>>(), vec![1, 2, 0]);
}

#[test]
fn label_term_leaves_in_order() {
    let t = op(op(leaf(), leaf()), leaf());
    let labelled = t.label(vec!['x', 'y', 'z', 'w']).unwrap();
    assert!(labelled.skeleton() == t);
    match &labelled {
        LabeledTerm::Operation(l, r) => {
            assert_eq!(r.label(), Some(&'z'));
            match l.as_ref() {
                LabeledTerm::Operation(a, b) => {
                    assert_eq!(a.label(), Some(&'x'));
                    assert_eq!(b.label(), Some(&'y'));
                }
                LabeledTerm::Variable(_) => panic!("expected a branch"),
            }
        }
        LabeledTerm::Variable(_) => panic!("expected a branch"),
    }
    assert!(t.label(vec![1, 2]).is_none());
}

#[test]
fn label_with_numbers_leaves() {
    let t = op(leaf(), op(leaf(), leaf()));
    let labelled = t.label_with(|i| i * 10);
    match labelled {
        LabeledTerm::Operation(l, r) => {
            assert_eq!(l.label(), Some(&0));
            match *r {
                LabeledTerm::Operation(a, b) => {
                    assert_eq!(a.label(), Some(&10));
                    assert_eq!(b.label(), Some(&20));
                }
                LabeledTerm::Variable(_) => panic!("expected a branch"),
            }
        }
        LabeledTerm::Variable(_) => panic!("expected a branch"),
    }
}
