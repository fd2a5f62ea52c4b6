use termclasses::perm::Permutation;

fn images(p: &Permutation) -> Vec<u16> {
    (0..p.len() as u16).map(|i| p.get(i)).collect()
}

#[test]
fn identity_fixes_everything() {
    let id = Permutation::identity();
    assert_eq!(id.len(), 0);
    assert_eq!(id.get(0), 0);
    assert_eq!(id.get(41), 41);
    assert!(id.is_identity());
    assert_eq!(id.nonfix_index(), None);
}

#[test]
fn get_past_end_is_fixed() {
    let p = Permutation::from(vec![1, 0]);
    assert_eq!(p.get(0), 1);
    assert_eq!(p.get(1), 0);
    assert_eq!(p.get(5), 5);
}

#[test]
fn inverse_of_cycle() {
    let p = Permutation::from(vec![1, 2, 0]);
    let q = p.inverse();
    assert_eq!(images(&q), vec![2, 0, 1]);
    assert_eq!(images(&q.inverse()), vec![1, 2, 0]);
}

#[test]
fn compose_applies_left_first() {
    let p = Permutation::from(vec![1, 2, 0]);
    let s = Permutation::from(vec![1, 0]);
    // i goes to s(p(i)); the result has the longer length
    assert_eq!(images(&p.compose(&s)), vec![0, 2, 1]);
    assert_eq!(images(&s.compose(&p)), vec![2, 1, 0]);
    let mut t = p.shallow_clone();
    t.compose_assign(&p.inverse());
    assert!(t.is_identity());
    assert_eq!(t.len(), 3);
}

#[test]
fn compose_is_associative_on_values() {
    let a = Permutation::from(vec![1, 2, 0, 3]);
    let b = Permutation::from(vec![3, 1, 2, 0]);
    let c = Permutation::from(vec![0, 2, 1]);
    let left = a.compose(&b.compose(&c));
    let right = a.compose(&b).compose(&c);
    assert_eq!(images(&left), images(&right));
}

#[test]
fn first_moved_index() {
    let p = Permutation::from(vec![0, 1, 3, 2]);
    assert_eq!(p.nonfix_index(), Some(2));
    assert!(!p.is_identity());
    let q = Permutation::from(vec![0, 1, 2]);
    assert_eq!(q.nonfix_index(), None);
    assert!(q.is_identity());
}
