use vstd::prelude::*;

use crate::perm::{PermIndex, Permutation, compose_seq, inverse_seq, is_perm};
use crate::term::{Term, leaf_count};

verus! {

/// Leaf position inside a term.
pub type NodeIndex = PermIndex;

/// What a map denotes: leaf `i` of `source` is leaf `perm(i)` of `target`.
pub struct MapView {
    pub source: Term,
    pub target: Term,
    pub perm: Seq<PermIndex>,
}

/// A map is a bijection between the leaves of two terms of one leaf count.
pub open spec fn map_wf(m: MapView) -> bool {
    &&& is_perm(m.perm)
    &&& leaf_count(m.source) == leaf_count(m.target)
    &&& m.perm.len() <= leaf_count(m.source)
}

/// `a` followed by `b`.
pub open spec fn compose_view(a: MapView, b: MapView) -> MapView {
    MapView { source: a.source, target: b.target, perm: compose_seq(a.perm, b.perm) }
}

/// The map read backwards.
pub open spec fn inverse_view(m: MapView) -> MapView {
    MapView { source: m.target, target: m.source, perm: inverse_seq(m.perm) }
}

/// A source term, a target term of the same leaf count, and the bijection
/// between their leaves.
pub struct TermMap {
    source: Term,
    target: Term,
    perm: Permutation,
}

impl View for TermMap {
    type V = MapView;

    closed spec fn view(&self) -> MapView {
        MapView { source: self.source, target: self.target, perm: self.perm@ }
    }
}

impl TermMap {
    /// The map is a leaf bijection.
    pub open spec fn wf(&self) -> bool {
        map_wf(self@)
    }

    pub fn new(source: Term, target: Term, perm: Permutation) -> (r: TermMap)
        ensures
            r@ == (MapView { source, target, perm: perm@ }),
            perm.wf() && leaf_count(source) == leaf_count(target) && perm@.len() <= leaf_count(
                source,
            ) ==> r.wf(),
    {
        TermMap { source, target, perm }
    }

    pub fn source(&self) -> (r: &Term)
        ensures
            *r == self@.source,
    {
        &self.source
    }

    pub fn target(&self) -> (r: &Term)
        ensures
            *r == self@.target,
    {
        &self.target
    }

    /// The same bijection read from target to source.
    pub fn backward(&self) -> (r: TermMap)
        requires
            self.wf(),
        ensures
            r@ == inverse_view(self@),
            r.wf(),
    {
        proof {
            crate::perm::lemma_inverse_seq(self.perm@);
        }
        TermMap { perm: self.perm.inverse(), source: self.target.copy(), target: self.source.copy() }
    }

    pub fn perm(&self) -> (r: &Permutation)
        ensures
            r@ == self@.perm,
    {
        &self.perm
    }

    pub fn into_perm(self) -> (r: Permutation)
        ensures
            r@ == self@.perm,
    {
        self.perm
    }

    /// The same bijection read from target to source.
    pub fn into_backward(self) -> (r: TermMap)
        requires
            self.wf(),
        ensures
            r@ == inverse_view(self@),
            r.wf(),
    {
        proof {
            crate::perm::lemma_inverse_seq(self.perm@);
        }
        let perm = self.perm.inverse();
        TermMap { perm, source: self.target, target: self.source }
    }

    /// The leaf of the target that leaf `index` of the source goes to.
    pub fn index(&self, index: NodeIndex) -> (r: NodeIndex)
        ensures
            r as int == crate::perm::apply(self@.perm, index as int),
    {
        self.perm.get(index)
    }

    /// `self` followed by `rhs`; the target of `self` is the source of `rhs`.
    pub fn compose(&self, rhs: &TermMap) -> (r: TermMap)
        requires
            self.wf(),
            rhs.wf(),
            self@.target == rhs@.source,
        ensures
            r@ == compose_view(self@, rhs@),
            r.wf(),
    {
        proof {
            crate::perm::lemma_compose_seq(self.perm@, rhs.perm@);
        }
        TermMap {
            source: self.source.copy(),
            target: rhs.target.copy(),
            perm: self.perm.compose(&rhs.perm),
        }
    }

    /// Replaces `self` with `self` followed by `rhs`.
    pub fn compose_assign(&mut self, rhs: &TermMap)
        requires
            old(self).wf(),
            rhs.wf(),
            old(self)@.target == rhs@.source,
        ensures
            final(self)@ == compose_view(old(self)@, rhs@),
            final(self).wf(),
    {
        proof {
            crate::perm::lemma_compose_seq(self.perm@, rhs.perm@);
        }
        self.target = rhs.target.copy();
        self.perm.compose_assign(&rhs.perm);
    }
}

/// Composing maps is associative: for maps `a`, `b`, `c` that chain,
/// `a · (b · c)` and `(a · b) · c` are the same map.
pub proof fn lemma_map_compose_assoc(a: MapView, b: MapView, c: MapView)
    requires
        map_wf(a),
        map_wf(b),
        map_wf(c),
        a.target == b.source,
        b.target == c.source,
    ensures
        compose_view(a, compose_view(b, c)) == compose_view(compose_view(a, b), c),
{
    crate::perm::lemma_compose_assoc(a.perm, b.perm, c.perm);
}

/// Reading a map backwards twice gives the map back.
pub proof fn lemma_map_inverse_involutive(m: MapView)
    requires
        map_wf(m),
    ensures
        inverse_view(inverse_view(m)) == m,
{
    crate::perm::lemma_inverse_involutive(m.perm);
}

/// The inverse of a map is a map.
pub proof fn lemma_map_inverse_wf(m: MapView)
    requires
        map_wf(m),
    ensures
        map_wf(inverse_view(m)),
{
    crate::perm::lemma_inverse_seq(m.perm);
}

/// Composing or inverting maps keeps them bijections.
pub proof fn lemma_map_ops_wf(a: MapView, b: MapView)
    requires
        map_wf(a),
        map_wf(b),
        a.target == b.source,
    ensures
        map_wf(compose_view(a, b)),
        map_wf(inverse_view(a)),
{
    crate::perm::lemma_compose_seq(a.perm, b.perm);
    crate::perm::lemma_inverse_seq(a.perm);
}

} // verus!
