use termclasses::group::PermutationGroup;
use termclasses::perm::Permutation;

#[test]
fn group() {
    let group = PermutationGroup::from_generators(vec![
        Permutation::from(vec![1, 2, 0]),
        Permutation::from(vec![3, 1, 2, 0]),
    ]);

    assert!(group.contains(&Permutation::from(vec![1, 2, 3, 0])));
    assert!(group.contains(&Permutation::from(vec![1, 0, 2, 3])));
}

#[test]
fn cyclic_group_excludes_transposition() {
    let group = PermutationGroup::from_generators(vec![Permutation::from(vec![1, 2, 0])]);
    assert!(group.contains(&Permutation::from(vec![2, 0, 1])));
    assert!(group.contains(&Permutation::identity()));
    assert!(!group.contains(&Permutation::from(vec![1, 0, 2])));
}

#[test]
fn extend_then_contains() {
    let mut group = PermutationGroup::new(0);
    let p = Permutation::from(vec![1, 0, 2]);
    assert!(!group.contains(&p));
    group.extend(p.shallow_clone());
    assert!(group.contains(&p));
    assert!(group.contains(&Permutation::identity()));
    assert!(!group.contains(&Permutation::from(vec![0, 2, 1])));
    group.extend(Permutation::from(vec![0, 2, 1]));
    for images in [[0u16, 1, 2], [0, 2, 1], [1, 0, 2], [1, 2, 0], [2, 0, 1], [2, 1, 0]] {
        assert!(group.contains(&Permutation::from(images.to_vec())));
    }
}

#[test]
fn membership_closed_under_composition() {
    let group = PermutationGroup::from_generators(vec![
        Permutation::from(vec![1, 0, 2, 3]),
        Permutation::from(vec![0, 1, 3, 2]),
    ]);
    let s = Permutation::from(vec![1, 0, 2, 3]);
    let p = Permutation::from(vec![0, 1, 3, 2]);
    assert!(group.contains(&s.compose(&p)));
    let outside = Permutation::from(vec![0, 2, 1, 3]);
    assert!(!group.contains(&outside));
    assert!(!group.contains(&s.compose(&outside)));
}

#[test]
fn products_of_members_are_members() {
    // h = (0 1)(2 3), g = (1 2)(4 5): the orbit of 0 under <h, g> is
    // {0, 1, 2, 3}, reached only by mixing both generators.
    let h = Permutation::from(vec![1, 0, 3, 2]);
    let g = Permutation::from(vec![0, 2, 1, 3, 5, 4]);
    let mut group = PermutationGroup::new(0);
    group.extend(h.shallow_clone());
    group.extend(g.shallow_clone());
    let gh = g.compose(&h);
    assert!(group.contains(&h));
    assert!(group.contains(&g));
    assert!(group.contains(&gh));
    assert!(group.contains(&h.compose(&gh)));
    assert!(group.contains(&gh.compose(&h)));
    assert!(group.contains(&gh.compose(&gh).compose(&gh)));
    // (0 1) alone is odd on {0..3} while fixing 4 and 5: not a member
    assert!(!group.contains(&Permutation::from(vec![1, 0, 2, 3, 4, 5])));
}

#[test]
fn extending_by_a_member_changes_nothing() {
    let mut group = PermutationGroup::new(0);
    group.extend(Permutation::from(vec![1, 2, 0]));
    assert_eq!(group.generators().len(), 1);
    group.extend(Permutation::from(vec![2, 0, 1]));
    assert_eq!(group.generators().len(), 1);
    group.extend(Permutation::identity());
    assert_eq!(group.generators().len(), 1);
    assert!(!group.contains(&Permutation::from(vec![1, 0, 2])));
}
