use vstd::prelude::*;

use crate::eqclass::EquivalenceClasses;
use crate::indexing::{IndexedTerm, lemma_sites_sound, match_at, sites};
use crate::iter::{TermIterator, trees};
use crate::maps::TermMap;
use crate::subst::rewritten;
use crate::term::{MAX_LEAVES, Term, leaf_count};

verus! {

/// Every rewrite step of `rule` on a tree that `all[..k]` lists: the tree
/// and its rewrite are in one class of `classes`.
pub open spec fn steps_joined(classes: EquivalenceClasses, rule: TermMap, all: Seq<Term>, k: int) -> bool {
    forall|i: int, q: int|
        0 <= i < k && 0 <= q < sites(rule@.source, all[i], Seq::empty()).len() ==> classes.joined(
            all[i],
            #[trigger] rewritten(all[i], sites(rule@.source, all[i], Seq::empty())[q], rule@),
        )
}

/// Rewrites every tree with `leaves` leaves at every match of the rule's left
/// side, and records each step in a new union–find.
pub fn explore(rule: &TermMap, leaves: usize) -> (r: EquivalenceClasses)
    requires
        rule.wf(),
        leaves <= MAX_LEAVES,
    ensures
        r.wf(),
        steps_joined(r, *rule, trees(leaves as int), trees(leaves as int).len() as int),
{
    let pattern = IndexedTerm::from(rule.source().copy());
    let mut classes = EquivalenceClasses::new();
    let mut terms = TermIterator::new(leaves);
    let ghost all = trees(leaves as int);
    let ghost mut k: int = 0;
    let mut next = terms.next();
    proof {
        assert(all.subrange(0, all.len() as int) =~= all);
        if all.len() > 0 {
            assert(all.subrange(1, all.len() as int) =~= all.subrange(0, all.len() as int).drop_first());
        }
    }
    while next.is_some()
        invariant
            rule.wf(),
            pattern.wf(),
            pattern.pattern() == rule@.source,
            classes.wf(),
            terms.wf(),
            terms.leaf_target() <= MAX_LEAVES,
            0 <= k <= all.len(),
            next matches Some(t) ==> k < all.len() && t == all[k] && terms.remaining() == all.subrange(
                k + 1,
                all.len() as int,
            ) && leaf_count(t) == terms.leaf_target(),
            next is None ==> k == all.len(),
            steps_joined(classes, *rule, all, k),
        decreases terms.remaining().len() + if next is Some {
            1int
        } else {
            0int
        },
    {
        let term = match next {
            Some(t) => t,
            None => vstd::pervasive::unreached(),
        };
        let found = pattern.matches(&term);
        let ghost ss = sites(rule@.source, term, Seq::empty());
        let mut m: usize = 0;
        while m < found.len()
            invariant
                rule.wf(),
                classes.wf(),
                m <= found@.len(),
                found@.map_values(|a: crate::byaddr::TermByAddress| a@) == ss,
                ss == sites(rule@.source, term, Seq::empty()),
                leaf_count(term) <= MAX_LEAVES,
                k < all.len(),
                term == all[k],
                steps_joined(classes, *rule, all, k),
                forall|q: int| 0 <= q < m ==> classes.joined(
                    term,
                    #[trigger] rewritten(term, ss[q], rule@),
                ),
            decreases found@.len() - m,
        {
            proof {
                lemma_sites_sound(rule@.source, term, Seq::empty(), m as int);
                let q = choose|q: Seq<bool>| ss[m as int] == Seq::<bool>::empty() + q && match_at(rule@.source, term, q);
                assert(Seq::<bool>::empty() + q =~= q);
                assert(found@[m as int]@ == ss[m as int]);
            }
            let step = term.substitute(&found[m], rule);
            let ghost before = classes;
            let ghost target = step@.target;
            classes.add_equiv(step);
            proof {
                assert forall|i: int, q: int|
                    0 <= i < k && 0 <= q < sites(rule@.source, all[i], Seq::empty()).len() implies classes.joined(
                        all[i],
                        #[trigger] rewritten(all[i], sites(rule@.source, all[i], Seq::empty())[q], rule@),
                    ) by {
                    before.lemma_add_keeps_joined(&classes, all[i], rewritten(all[i], sites(rule@.source, all[i], Seq::empty())[q], rule@));
                }
                assert forall|q: int| 0 <= q < m implies classes.joined(term, #[trigger] rewritten(term, ss[q], rule@)) by {
                    before.lemma_add_keeps_joined(&classes, term, rewritten(term, ss[q], rule@));
                }
                let i = choose|i: int| 0 <= i < classes.len_spec() && classes.term_at(i) == term;
                let j = choose|j: int| 0 <= j < classes.len_spec() && classes.term_at(j) == target;
                assert(classes.root_of(i) == classes.root_of(j));
                assert(classes.joined(term, rewritten(term, ss[m as int], rule@)));
            }
            m = m + 1;
        }
        next = terms.next();
        proof {
            k = k + 1;
            if k < all.len() {
                assert(all.subrange(k, all.len() as int)[0] == all[k]);
                assert(all.subrange(k + 1, all.len() as int) =~= all.subrange(k, all.len() as int).drop_first());
            }
            assert forall|i: int, q: int|
                0 <= i < k && 0 <= q < sites(rule@.source, all[i], Seq::empty()).len() implies classes.joined(
                    all[i],
                    #[trigger] rewritten(all[i], sites(rule@.source, all[i], Seq::empty())[q], rule@),
                ) by {
                if i == k - 1 {
                    assert(all[i] == term);
                }
            }
        }
    }
    classes
}

} // verus!
