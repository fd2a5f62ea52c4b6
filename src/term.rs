use vstd::prelude::*;

use crate::maps::TermMap;
use crate::perm::{PermIndex, Permutation};

verus! {

/// A binary term whose leaves carry no payload; leaves are told apart by their
/// left-to-right position.
#[derive(Debug)]
pub enum Term {
    Variable,
    Operation(Box<Term>, Box<Term>),
}

/// An owned handle on a term.
pub type TermRef = Box<Term>;

/// Number of leaves of `t`.
pub open spec fn leaf_count(t: Term) -> nat
    decreases t,
{
    match t {
        Term::Variable => 1,
        Term::Operation(l, r) => leaf_count(*l) + leaf_count(*r),
    }
}

/// Largest leaf count that a term may have so that its leaf positions fit a
/// `PermIndex`.
pub const MAX_LEAVES: usize = 0xffff;

impl Term {
    /// Structural equality.
    pub fn equals(&self, other: &Term) -> (r: bool)
        ensures
            r == (*self == *other),
        decreases self,
    {
        match (self, other) {
            (Term::Variable, Term::Variable) => true,
            (Term::Operation(a, b), Term::Operation(c, d)) => a.equals(c) && b.equals(d),
            _ => false,
        }
    }

    /// A structural copy.
    pub fn copy(&self) -> (r: Term)
        ensures
            r == *self,
        decreases self,
    {
        match self {
            Term::Variable => Term::Variable,
            Term::Operation(l, r) => Term::Operation(Box::new(l.copy()), Box::new(r.copy())),
        }
    }

    /// Number of leaves.
    pub fn leaves(&self) -> (r: usize)
        requires
            leaf_count(*self) <= usize::MAX,
        ensures
            r == leaf_count(*self),
        decreases self,
    {
        match self {
            Term::Variable => 1,
            Term::Operation(l, r) => l.leaves() + r.leaves(),
        }
    }

    /// A copy of the term together with its number of leaves.
    pub fn counted_clone(&self) -> (r: (TermRef, PermIndex))
        requires
            leaf_count(*self) <= MAX_LEAVES,
        ensures
            *r.0 == *self,
            r.1 == leaf_count(*self),
    {
        let n = self.leaves();
        (Box::new(self.copy()), n as PermIndex)
    }

    /// The map from the term to itself that fixes every leaf.
    pub fn identity_map(&self) -> (r: TermMap)
        requires
            leaf_count(*self) <= MAX_LEAVES,
        ensures
            r.wf(),
            r@.source == *self,
            r@.target == *self,
            r@.perm.len() == leaf_count(*self),
            crate::perm::is_identity_seq(r@.perm),
    {
        let n = self.leaves();
        TermMap::new(self.copy(), self.copy(), Permutation::identity_of_len(n))
    }
}

impl PartialEq for Term {
    fn eq(&self, other: &Term) -> (r: bool) {
        self.equals(other)
    }
}

impl vstd::std_specs::cmp::PartialEqSpecImpl for Term {
    open spec fn obeys_eq_spec() -> bool {
        true
    }

    open spec fn eq_spec(&self, other: &Term) -> bool {
        *self == *other
    }
}

} // verus!

verus! {

/// Number of nodes of `t`.
pub open spec fn node_count(t: Term) -> nat
    decreases t,
{
    match t {
        Term::Variable => 1,
        Term::Operation(l, r) => 1 + node_count(*l) + node_count(*r),
    }
}

/// `pattern` overlays `host` from the root: each branch of the pattern falls
/// on a branch of the host, and each pattern leaf on some host subterm.
pub open spec fn embeds(pattern: Term, host: Term) -> bool
    decreases pattern,
{
    match pattern {
        Term::Variable => true,
        Term::Operation(pl, pr) => match host {
            Term::Variable => false,
            Term::Operation(hl, hr) => embeds(*pl, *hl) && embeds(*pr, *hr),
        },
    }
}

/// The subterm of `t` reached by following `path` from the root (`false`
/// goes left, `true` goes right), if the path stays inside `t`.
pub open spec fn subterm_at(t: Term, path: Seq<bool>) -> Option<Term>
    decreases path.len(),
{
    if path.len() == 0 {
        Some(t)
    } else {
        match t {
            Term::Variable => None,
            Term::Operation(l, r) => if path[0] {
                subterm_at(*r, path.drop_first())
            } else {
                subterm_at(*l, path.drop_first())
            },
        }
    }
}

} // verus!
