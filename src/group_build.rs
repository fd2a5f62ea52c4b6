use vstd::prelude::*;

use crate::group::PermutationGroup;
use crate::perm::{PermIndex, Permutation, is_identity_seq};

verus! {

impl PermutationGroup {
    /// The group generated by `generators`, based at the first point that
    /// one of them moves.
    pub fn from_generators(generators: Vec<Permutation>) -> (r: PermutationGroup)
        requires
            forall|k: int| 0 <= k < generators@.len() ==> (#[trigger] generators@[k]).wf(),
            exists|k: int| 0 <= k < generators@.len() && !is_identity_seq(#[trigger] generators@[k]@),
        ensures
            r.wf(),
            forall|k: int| 0 <= k < generators@.len() ==> r.contains_spec(#[trigger] generators@[k]@),
            forall|k: int|
                0 <= k < r.gens().len() ==> exists|j: int|
                    0 <= j < generators@.len() && #[trigger] r.gens()[k] == generators@[j]@,
    {
        let mut stab_point: Option<PermIndex> = None;
        let mut k: usize = 0;
        while k < generators.len() && stab_point.is_none()
            invariant
                k <= generators@.len(),
                forall|j: int| 0 <= j < generators@.len() ==> (#[trigger] generators@[j]).wf(),
                stab_point is None ==> forall|j: int| 0 <= j < k ==> is_identity_seq(#[trigger] generators@[j]@),
            decreases generators@.len() - k,
        {
            stab_point = generators[k].nonfix_index();
            k = k + 1;
        }
        let point = match stab_point {
            Some(p) => p,
            None => {
                proof {
                    let j = choose|j: int| 0 <= j < generators@.len() && !is_identity_seq(#[trigger] generators@[j]@);
                    assert(is_identity_seq(generators@[j]@));
                }
                0
            },
        };
        let mut group = Self::new(point);
        let mut k: usize = 0;
        while k < generators.len()
            invariant
                k <= generators@.len(),
                forall|j: int| 0 <= j < generators@.len() ==> (#[trigger] generators@[j]).wf(),
                group.wf(),
                forall|j: int| 0 <= j < k ==> group.contains_spec(#[trigger] generators@[j]@),
                forall|m: int|
                    0 <= m < group.gens().len() ==> exists|j: int|
                        0 <= j < generators@.len() && #[trigger] group.gens()[m] == generators@[j]@,
            decreases generators@.len() - k,
        {
            let ghost before = group;
            group.extend(generators[k].shallow_clone());
            proof {
                assert forall|j: int| 0 <= j < k + 1 implies group.contains_spec(#[trigger] generators@[j]@) by {
                    if j < k {
                        assert(before.contains_spec(generators@[j]@));
                    }
                }
                assert forall|m: int| 0 <= m < group.gens().len() implies exists|j: int|
                    0 <= j < generators@.len() && #[trigger] group.gens()[m] == generators@[j]@ by {
                    if m < before.gens().len() {
                        assert(group.gens()[m] == before.gens()[m]);
                    } else {
                        assert(group.gens()[m] == generators@[k as int]@);
                    }
                }
            }
            k = k + 1;
        }
        group
    }
}

} // verus!
