use vstd::prelude::*;

use crate::byaddr::TermByAddress;
use crate::indexing::{IndexedTerm, sites};
use crate::maps::{MapView, TermMap, inverse_view};
use crate::perm::inverse_seq;
use crate::subst::{backward_positions, rewritten};
use crate::term::{MAX_LEAVES, Term, embeds, leaf_count, subterm_at};

verus! {

/// A rule read in one direction: from its left side to its right side, or
/// back.
pub struct TreeTransform {
    rule: TermMap,
    pattern: IndexedTerm,
}

/// The rule map read in the chosen direction.
pub open spec fn oriented(equivalence: MapView, source_left: bool) -> MapView {
    if source_left {
        equivalence
    } else {
        inverse_view(equivalence)
    }
}

impl TreeTransform {
    /// The map that each step applies.
    pub closed spec fn rule_view(&self) -> MapView {
        self.rule@
    }

    /// The transform is consistent.
    pub closed spec fn wf(&self) -> bool {
        self.rule.wf() && self.pattern.wf() && self.pattern.pattern() == self.rule@.source
    }

    /// The transform that rewrites with `equivalence` from its left side
    /// (`source_left`) or from its right side.
    pub fn new(equivalence: &TermMap, source_left: bool) -> (r: TreeTransform)
        requires
            equivalence.wf(),
        ensures
            r.wf(),
            r.rule_view() == oriented(equivalence@, source_left),
    {
        let rule = if source_left {
            TermMap::new(
                equivalence.source().copy(),
                equivalence.target().copy(),
                equivalence.perm().shallow_clone(),
            )
        } else {
            equivalence.backward()
        };
        let pattern = IndexedTerm::from(rule.source().copy());
        TreeTransform { rule, pattern }
    }

    /// The side that is searched for.
    pub fn source(&self) -> (r: &Term)
        ensures
            *r == self.rule_view().source,
    {
        self.rule.source()
    }

    /// The side that replaces it.
    pub fn target(&self) -> (r: &Term)
        ensures
            *r == self.rule_view().target,
    {
        self.rule.target()
    }

    /// The sites of `tree` where the source side fits, bottom-up.
    pub fn matches(&self, tree: &Term) -> (r: Vec<TermByAddress>)
        requires
            self.wf(),
        ensures
            r@.map_values(|a: TermByAddress| a@) == sites(self.rule_view().source, *tree, Seq::empty()),
    {
        self.pattern.matches(tree)
    }

    /// Rewrites `root` at `at`; returns the map from `root` to the result.
    pub fn apply(&self, root: &Term, at: &TermByAddress) -> (r: TermMap)
        requires
            self.wf(),
            subterm_at(*root, at@) matches Some(s) && embeds(self.rule_view().source, s),
            leaf_count(*root) <= MAX_LEAVES,
        ensures
            r.wf(),
            r@.source == *root,
            r@.target == rewritten(*root, at@, self.rule_view()),
            leaf_count(r@.target) == leaf_count(*root),
            r@.perm.len() == leaf_count(*root),
            r@.perm == inverse_seq(backward_positions(*root, at@, self.rule_view())),
    {
        root.substitute(at, &self.rule)
    }
}

} // verus!
