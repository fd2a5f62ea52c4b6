use termclasses::bidag::{BinaryChildren, FromChildren};
use termclasses::labeled::RuleError;
use termclasses::tree::DAG;

#[test]
fn test_eq() {
    assert_eq!(DAG::parse("a * (b * c)"), DAG::parse("a  * (b * c)"));
    assert_ne!(DAG::parse("a * (b * c)"), DAG::parse("a * (d * c)"));
}

#[test]
fn dag_parse_shape_and_errors() {
    let d = DAG::parse("(a*b)*c").unwrap();
    match d {
        DAG::Branch(l, r) => {
            assert_eq!(*r, DAG::Leaf('c'));
            assert_eq!(*l, DAG::Branch(Box::new(DAG::Leaf('a')), Box::new(DAG::Leaf('b'))));
        }
        DAG::Leaf(_) => panic!("expected a branch"),
    }
    assert_eq!(DAG::parse("a *"), Err(RuleError::Parse));
    assert_eq!(DAG::parse("(a * b"), Err(RuleError::Parse));
    assert_eq!(DAG::parse("a b"), Err(RuleError::Parse));
}

#[test]
fn dag_pattern_table() {
    let d = DAG::parse("(a*b)*(c*d)").unwrap();
    let table = d.build_pattern_table();
    assert_eq!(table.len(), 2);
    let leaf = DAG::parse("a").unwrap();
    assert_eq!(leaf.build_pattern_table().len(), 0);
}

#[test]
fn children_and_builders() {
    let leaf: DAG<char> = DAG::from_leaf('a');
    assert!(leaf.is_leaf());
    let branch = DAG::from_children(DAG::from_leaf('a'), DAG::from_leaf('b'));
    assert!(!branch.is_leaf());
    let (l, r) = branch.children().unwrap();
    assert_eq!(l, &DAG::Leaf('a'));
    assert_eq!(r, &DAG::Leaf('b'));
    assert!(leaf.children().is_none());
}
