//! Equivalence classes of binary terms under a rewrite rule `L = R`.
//!
//! Terms are binary trees whose leaves are told apart by position; maps are
//! leaf bijections between terms. A pattern index finds where the rule's
//! left side fits in a host term, substitution rewrites there and returns
//! the leaf map of the step, and a union–find whose links carry leaf maps
//! gathers rewrite-connected terms into classes, keeping the automorphisms
//! that cycles of steps produce in a Schreier–Sims permutation group.
use vstd::prelude::*;

pub mod bidag;
pub mod byaddr;
pub mod eqclass;
pub mod explore;
pub mod group;
pub mod group_build;
pub mod indexing;
pub mod iter;
pub mod labeled;
pub mod maps;
pub mod perm;
pub mod subst;
pub mod term;
pub mod transform;
pub mod tree;

verus! {

} // verus!
