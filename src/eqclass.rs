use vstd::prelude::*;

use crate::group::PermutationGroup;
use crate::maps::{MapView, TermMap, compose_view, inverse_view, map_wf};
use crate::perm::{PermIndex, apply, compose_seq, inverse_seq, is_identity_seq, is_perm};
use crate::term::{MAX_LEAVES, Term, leaf_count};

verus! {

/// Index of an entry of the union–find.
pub type EqClassEntryIndex = usize;

/// The representative of a class, with the automorphisms found for it.
pub struct EqClassRootEntry {
    term: Term,
    rank: usize,
    automorphisms: Option<PermutationGroup>,
}

/// A term linked to a parent entry by a map from its leaves to the parent's.
pub struct EqClassChildEntry {
    term: Term,
    rank: usize,
    parent: EqClassEntryIndex,
    parent_map: TermMap,
}

/// An entry of the union–find: a class root or a child of another entry.
pub enum EqClassEntry {
    Root(EqClassRootEntry),
    Child(EqClassChildEntry),
}

impl EqClassRootEntry {
    /// The class representative.
    pub closed spec fn root_term(&self) -> Term {
        self.term
    }

    /// The rank of the root.
    pub closed spec fn root_rank(&self) -> int {
        self.rank as int
    }

    /// Turns the root into a child of `parent`, linked by `parent_map`; its
    /// automorphisms are dropped.
    pub fn into_child(self, parent: EqClassEntryIndex, parent_map: TermMap) -> (r: EqClassEntry)
        ensures
            r.term_spec() == self.root_term(),
            r.rank_spec() == self.root_rank(),
            r.parent_spec() == parent as int,
            r is Child,
            r.map_spec() == parent_map@,
            r.map_wf_spec() == parent_map.wf(),
    {
        EqClassEntry::Child(EqClassChildEntry { parent, parent_map, term: self.term, rank: self.rank })
    }
}

impl EqClassEntry {
    /// The term of the entry.
    pub closed spec fn term_spec(&self) -> Term {
        match self {
            EqClassEntry::Root(r) => r.term,
            EqClassEntry::Child(c) => c.term,
        }
    }

    /// The rank of the entry (frozen once it is a child).
    pub closed spec fn rank_spec(&self) -> int {
        match self {
            EqClassEntry::Root(r) => r.rank as int,
            EqClassEntry::Child(c) => c.rank as int,
        }
    }

    /// The parent index of a child; `-1` for a root.
    pub closed spec fn parent_spec(&self) -> int {
        match self {
            EqClassEntry::Root(_) => -1,
            EqClassEntry::Child(c) => c.parent as int,
        }
    }

    /// The map to the parent, for a child.
    pub closed spec fn map_spec(&self) -> MapView {
        match self {
            EqClassEntry::Root(r) => MapView { source: r.term, target: r.term, perm: Seq::empty() },
            EqClassEntry::Child(c) => c.parent_map@,
        }
    }

    /// The map to the parent is a bijection.
    pub closed spec fn map_wf_spec(&self) -> bool {
        match self {
            EqClassEntry::Root(_) => true,
            EqClassEntry::Child(c) => c.parent_map.wf(),
        }
    }

    /// The automorphism group of a root, if one was started.
    pub closed spec fn group_spec(&self) -> Option<PermutationGroup> {
        match self {
            EqClassEntry::Root(r) => r.automorphisms,
            EqClassEntry::Child(_) => None,
        }
    }

    /// A new class root for `term`, of rank 0 and with no automorphisms.
    pub fn new_root(term: &Term) -> (r: EqClassEntry)
        ensures
            r is Root,
            r.term_spec() == *term,
            r.rank_spec() == 0,
            r.group_spec() is None,
    {
        EqClassEntry::Root(EqClassRootEntry { term: term.copy(), rank: 0, automorphisms: None })
    }

    pub fn is_root(&self) -> (r: bool)
        ensures
            r == self is Root,
    {
        matches!(self, EqClassEntry::Root(_))
    }

    pub fn as_mut_root(&mut self) -> (r: &mut EqClassRootEntry)
        requires
            *old(self) is Root,
        ensures
            *old(self) == EqClassEntry::Root(*r),
            *final(self) == EqClassEntry::Root(*final(r)),
    {
        match self {
            EqClassEntry::Root(root) => root,
            EqClassEntry::Child(_) => vstd::pervasive::unreached(),
        }
    }

    pub fn as_mut_child(&mut self) -> (r: &mut EqClassChildEntry)
        requires
            *old(self) is Child,
        ensures
            *old(self) == EqClassEntry::Child(*r),
            *final(self) == EqClassEntry::Child(*final(r)),
    {
        match self {
            EqClassEntry::Child(child) => child,
            EqClassEntry::Root(_) => vstd::pervasive::unreached(),
        }
    }

    pub fn as_root(&self) -> (r: &EqClassRootEntry)
        requires
            self is Root,
        ensures
            *self == EqClassEntry::Root(*r),
    {
        match self {
            EqClassEntry::Root(root) => root,
            EqClassEntry::Child(_) => vstd::pervasive::unreached(),
        }
    }

    pub fn as_child(&self) -> (r: &EqClassChildEntry)
        requires
            self is Child,
        ensures
            *self == EqClassEntry::Child(*r),
    {
        match self {
            EqClassEntry::Child(child) => child,
            EqClassEntry::Root(_) => vstd::pervasive::unreached(),
        }
    }

    /// The term of the entry.
    pub fn term(&self) -> (r: &Term)
        ensures
            *r == self.term_spec(),
    {
        match self {
            EqClassEntry::Root(root) => &root.term,
            EqClassEntry::Child(child) => &child.term,
        }
    }
}

/// A class's automorphism group: consistent, and generated by permutations
/// of the leaf positions of a term with `n` leaves.
pub open spec fn group_ok(g: PermutationGroup, n: nat) -> bool {
    g.wf() && forall|k: int| 0 <= k < g.gens().len() ==> (#[trigger] g.gens()[k]).len() <= n
}

/// Number of roots among `s`.
pub closed spec fn num_roots(s: Seq<EqClassEntry>) -> nat
    decreases s.len(),
{
    if s.len() == 0 {
        0
    } else {
        num_roots(s.drop_last()) + if s.last() is Root {
            1nat
        } else {
            0nat
        }
    }
}

/// The root reached from entry `i` by parent links.
#[verifier::opaque]
pub closed spec fn seq_root(s: Seq<EqClassEntry>, i: int) -> int
    decreases usize::MAX - s[i].rank_spec(),
{
    if 0 <= i < s.len() && s[i] is Child {
        let p = s[i].parent_spec();
        if 0 <= p < s.len() && s[p].rank_spec() > s[i].rank_spec() && s[i].rank_spec() >= 0
            && s[p].rank_spec() <= usize::MAX {
            seq_root(s, p)
        } else {
            i
        }
    } else {
        i
    }
}

/// The leaf permutation from entry `i` to its root: the parent maps along the
/// way, composed.
#[verifier::opaque]
pub closed spec fn seq_path(s: Seq<EqClassEntry>, i: int) -> Seq<PermIndex>
    decreases usize::MAX - s[i].rank_spec(),
{
    if 0 <= i < s.len() && s[i] is Child {
        let p = s[i].parent_spec();
        if 0 <= p < s.len() && s[p].rank_spec() > s[i].rank_spec() && s[i].rank_spec() >= 0
            && s[p].rank_spec() <= usize::MAX {
            compose_seq(s[i].map_spec().perm, seq_path(s, p))
        } else {
            Seq::empty()
        }
    } else {
        Seq::empty()
    }
}

/// The entries form a forest of leaf bijections.
#[verifier::opaque]
pub closed spec fn seq_wf(s: Seq<EqClassEntry>) -> bool {
    &&& forall|i: int|
        0 <= i < s.len() ==> 0 <= (#[trigger] s[i]).rank_spec() && s[i].rank_spec() + num_roots(s)
            <= s.len() && leaf_count(s[i].term_spec()) <= MAX_LEAVES
    &&& forall|i: int|
        0 <= i < s.len() && (#[trigger] s[i]) is Child ==> {
            let p = s[i].parent_spec();
            &&& 0 <= p < s.len()
            &&& s[p].rank_spec() > s[i].rank_spec()
            &&& s[i].map_wf_spec()
            &&& map_wf(s[i].map_spec())
            &&& s[i].map_spec().source == s[i].term_spec()
            &&& s[i].map_spec().target == s[p].term_spec()
        }
    &&& forall|i: int|
        0 <= i < s.len() && (#[trigger] s[i]) is Root ==> (s[i].group_spec() matches Some(g)
            ==> group_ok(g, leaf_count(s[i].term_spec())))
    &&& forall|i: int, j: int|
        0 <= i < s.len() && 0 <= j < s.len() && i != j ==> (#[trigger] s[i]).term_spec() != (
        #[trigger] s[j]).term_spec()
}

proof fn lemma_num_roots_bound(s: Seq<EqClassEntry>)
    ensures
        num_roots(s) <= s.len(),
    decreases s.len(),
{
    if s.len() > 0 {
        lemma_num_roots_bound(s.drop_last());
    }
}

proof fn lemma_num_roots_push(s: Seq<EqClassEntry>, e: EqClassEntry)
    ensures
        num_roots(s.push(e)) == num_roots(s) + if e is Root {
            1nat
        } else {
            0nat
        },
{
    assert(s.push(e).drop_last() =~= s);
}

proof fn lemma_num_roots_update(s: Seq<EqClassEntry>, i: int, e: EqClassEntry)
    requires
        0 <= i < s.len(),
    ensures
        num_roots(s.update(i, e)) + (if s[i] is Root {
            1nat
        } else {
            0nat
        }) == num_roots(s) + if e is Root {
            1nat
        } else {
            0nat
        },
    decreases s.len(),
{
    if i == s.len() - 1 {
        assert(s.update(i, e).drop_last() =~= s.drop_last());
    } else {
        lemma_num_roots_update(s.drop_last(), i, e);
        assert(s.update(i, e).drop_last() =~= s.drop_last().update(i, e));
    }
}

proof fn lemma_two_roots(s: Seq<EqClassEntry>, i: int, j: int)
    requires
        0 <= i < s.len(),
        0 <= j < s.len(),
        i != j,
        s[i] is Root,
        s[j] is Root,
    ensures
        num_roots(s) >= 2,
    decreases s.len(),
{
    let t = s.drop_last();
    if i == s.len() - 1 {
        lemma_one_root(t, j);
    } else if j == s.len() - 1 {
        lemma_one_root(t, i);
    } else {
        lemma_two_roots(t, i, j);
    }
}

proof fn lemma_one_root(s: Seq<EqClassEntry>, i: int)
    requires
        0 <= i < s.len(),
        s[i] is Root,
    ensures
        num_roots(s) >= 1,
    decreases s.len(),
{
    if i < s.len() - 1 {
        lemma_one_root(s.drop_last(), i);
    }
}

/// One step up from a child entry.
proof fn lemma_step(s: Seq<EqClassEntry>, i: int)
    requires
        seq_wf(s),
        0 <= i < s.len(),
        s[i] is Child,
    ensures
        ({
            let p = s[i].parent_spec();
            &&& 0 <= p < s.len()
            &&& 0 <= s[i].rank_spec() < s[p].rank_spec() <= usize::MAX
            &&& s[i].map_wf_spec()
            &&& map_wf(s[i].map_spec())
            &&& s[i].map_spec().source == s[i].term_spec()
            &&& s[i].map_spec().target == s[p].term_spec()
            &&& seq_root(s, i) == seq_root(s, p)
            &&& seq_path(s, i) == compose_seq(s[i].map_spec().perm, seq_path(s, p))
        }),
{
    reveal(seq_wf);
    reveal(seq_root);
    reveal(seq_path);
    let p = s[i].parent_spec();
    assert(s[p].rank_spec() + num_roots(s) <= s.len());
}

/// Facts that hold of every entry.
proof fn lemma_entry(s: Seq<EqClassEntry>, i: int)
    requires
        seq_wf(s),
        0 <= i < s.len(),
    ensures
        0 <= s[i].rank_spec(),
        s[i].rank_spec() + num_roots(s) <= s.len(),
        leaf_count(s[i].term_spec()) <= MAX_LEAVES,
        s[i] is Root ==> seq_root(s, i) == i && seq_path(s, i) == Seq::<PermIndex>::empty(),
        s[i] is Root ==> (s[i].group_spec() matches Some(g) ==> group_ok(g, leaf_count(s[i].term_spec()))),
        forall|j: int| 0 <= j < s.len() && j != i ==> s[i].term_spec() != #[trigger] s[j].term_spec(),
{
    reveal(seq_wf);
    reveal(seq_root);
    reveal(seq_path);
}

/// Following parents from any entry ends at a root, and the composed parent
/// maps form a map from the entry's term to the root's term.
proof fn lemma_root_path(s: Seq<EqClassEntry>, i: int)
    requires
        seq_wf(s),
        0 <= i < s.len(),
    ensures
        0 <= seq_root(s, i) < s.len(),
        s[seq_root(s, i)] is Root,
        s[i] is Root ==> seq_root(s, i) == i && seq_path(s, i) == Seq::<PermIndex>::empty(),
        map_wf(MapView { source: s[i].term_spec(), target: s[seq_root(s, i)].term_spec(), perm: seq_path(s, i) }),
    decreases usize::MAX - s[i].rank_spec(),
{
    lemma_entry(s, i);
    if s[i] is Child {
        let p = s[i].parent_spec();
        lemma_step(s, i);
        lemma_root_path(s, p);
        let m = s[i].map_spec();
        let rest = MapView { source: s[p].term_spec(), target: s[seq_root(s, p)].term_spec(), perm: seq_path(s, p) };
        crate::maps::lemma_map_ops_wf(m, rest);
        assert(compose_view(m, rest).perm == seq_path(s, i));
    } else {
        assert(is_perm(Seq::<PermIndex>::empty()));
    }
}

/// Replacing entry `i` by a child of its grandparent, linked by the composed
/// map, leaves every root and every path map unchanged.
proof fn lemma_compress_preserves(s: Seq<EqClassEntry>, t: Seq<EqClassEntry>, i: int, j: int)
    requires
        seq_wf(s),
        seq_wf(t),
        0 <= i < s.len(),
        s.len() == t.len(),
        s[i] is Child,
        s[s[i].parent_spec()] is Child,
        t[i] is Child,
        t[i].parent_spec() == s[s[i].parent_spec()].parent_spec(),
        t[i].rank_spec() == s[i].rank_spec(),
        t[i].term_spec() == s[i].term_spec(),
        t[i].map_spec().perm == compose_seq(s[i].map_spec().perm, s[s[i].parent_spec()].map_spec().perm),
        forall|k: int| 0 <= k < s.len() && k != i ==> #[trigger] t[k] == s[k],
        0 <= j < s.len(),
    ensures
        seq_root(t, j) == seq_root(s, j),
        seq_path(t, j) == seq_path(s, j),
    decreases usize::MAX - s[j].rank_spec(),
{
    let p = s[j].parent_spec();
    lemma_entry(s, j);
    lemma_entry(t, j);
    if s[j] is Child {
        lemma_step(s, j);
        assert(t[j] is Child);
        lemma_step(t, j);
    }
    if j == i {
        let g = s[p].parent_spec();
        lemma_step(s, p);
        lemma_compress_preserves(s, t, i, p);
        lemma_compress_preserves(s, t, i, g);
        lemma_root_path(s, g);
        crate::perm::lemma_compose_assoc(s[i].map_spec().perm, s[p].map_spec().perm, seq_path(s, g));
        assert(t[g] == s[g] || g == i);
    } else if s[j] is Child {
        lemma_compress_preserves(s, t, i, p);
        assert(t[j] == s[j]);
    } else {
        assert(t[j] == s[j]);
    }
}

/// Pointing a child at its grandparent, with the composed map, keeps the
/// forest well formed.
proof fn lemma_compress_wf(s: Seq<EqClassEntry>, t: Seq<EqClassEntry>, i: int)
    requires
        seq_wf(s),
        0 <= i < s.len(),
        s[i] is Child,
        s[s[i].parent_spec()] is Child,
        t == s.update(i, t[i]),
        t[i] is Child,
        t[i].parent_spec() == s[s[i].parent_spec()].parent_spec(),
        t[i].rank_spec() == s[i].rank_spec(),
        t[i].term_spec() == s[i].term_spec(),
        t[i].map_wf_spec(),
        t[i].map_spec() == compose_view(s[i].map_spec(), s[s[i].parent_spec()].map_spec()),
    ensures
        seq_wf(t),
{
    reveal(seq_wf);
    let p = s[i].parent_spec();
    let g = s[p].parent_spec();
    lemma_num_roots_update(s, i, t[i]);
    assert(s[g].rank_spec() + num_roots(s) <= s.len());
    crate::maps::lemma_map_ops_wf(s[i].map_spec(), s[p].map_spec());
    assert forall|j: int| 0 <= j < t.len() implies 0 <= (#[trigger] t[j]).rank_spec() && t[j].rank_spec() + num_roots(t) <= t.len() && leaf_count(t[j].term_spec()) <= MAX_LEAVES by {
        if j != i {
            assert(t[j] == s[j]);
        }
    }
    assert forall|j: int| 0 <= j < t.len() && (#[trigger] t[j]) is Child implies ({
        let q = t[j].parent_spec();
        &&& 0 <= q < t.len()
        &&& t[q].rank_spec() > t[j].rank_spec()
        &&& t[j].map_wf_spec()
        &&& map_wf(t[j].map_spec())
        &&& t[j].map_spec().source == t[j].term_spec()
        &&& t[j].map_spec().target == t[q].term_spec()
    }) by {
        if j != i {
            assert(t[j] == s[j]);
            let q = s[j].parent_spec();
            if q != i {
                assert(t[q] == s[q]);
            }
        } else {
            assert(g != i);
            assert(t[g] == s[g]);
        }
    }
    assert forall|j: int| 0 <= j < t.len() && (#[trigger] t[j]) is Root implies (t[j].group_spec() matches Some(gr) ==> group_ok(gr, leaf_count(t[j].term_spec()))) by {
        assert(t[j] == s[j]);
    }
    assert forall|a: int, b: int| 0 <= a < t.len() && 0 <= b < t.len() && a != b implies (#[trigger] t[a]).term_spec() != (#[trigger] t[b]).term_spec() by {
        assert(t[a].term_spec() == s[a].term_spec());
        assert(t[b].term_spec() == s[b].term_spec());
    }
}

/// Appending a new root changes no root and no path map.
proof fn lemma_push_root(s: Seq<EqClassEntry>, e: EqClassEntry, j: int)
    requires
        seq_wf(s),
        e is Root,
        0 <= j < s.len(),
    ensures
        seq_root(s.push(e), j) == seq_root(s, j),
        seq_path(s.push(e), j) == seq_path(s, j),
    decreases usize::MAX - s[j].rank_spec(),
{
    reveal(seq_root);
    reveal(seq_path);
    let t = s.push(e);
    assert(t[j] == s[j]);
    lemma_entry(s, j);
    if s[j] is Child {
        lemma_step(s, j);
        let p = s[j].parent_spec();
        assert(t[p] == s[p]);
        lemma_push_root(s, e, p);
    }
}

/// Replacing a root by a root with the same term and no smaller rank changes
/// no root and no path map.
proof fn lemma_root_update(s: Seq<EqClassEntry>, t: Seq<EqClassEntry>, a: int, j: int)
    requires
        seq_wf(s),
        0 <= a < s.len(),
        s[a] is Root,
        t == s.update(a, t[a]),
        t[a] is Root,
        t[a].term_spec() == s[a].term_spec(),
        s[a].rank_spec() <= t[a].rank_spec() <= usize::MAX,
        0 <= j < s.len(),
    ensures
        seq_root(t, j) == seq_root(s, j),
        seq_path(t, j) == seq_path(s, j),
    decreases usize::MAX - s[j].rank_spec(),
{
    reveal(seq_root);
    reveal(seq_path);
    lemma_entry(s, j);
    if s[j] is Child {
        lemma_step(s, j);
        let p = s[j].parent_spec();
        assert(t[j] == s[j]);
        lemma_root_update(s, t, a, p);
    }
}

/// The forest stays well formed when a root gets a new group or a larger
/// rank that the count of roots allows.
proof fn lemma_root_update_wf(s: Seq<EqClassEntry>, t: Seq<EqClassEntry>, a: int)
    requires
        seq_wf(s),
        0 <= a < s.len(),
        s[a] is Root,
        t == s.update(a, t[a]),
        t[a] is Root,
        t[a].term_spec() == s[a].term_spec(),
        s[a].rank_spec() <= t[a].rank_spec(),
        t[a].rank_spec() + num_roots(s) <= s.len(),
        t[a].group_spec() matches Some(g) ==> group_ok(g, leaf_count(t[a].term_spec())),
    ensures
        seq_wf(t),
{
    reveal(seq_wf);
    lemma_num_roots_update(s, a, t[a]);
    assert forall|j: int| 0 <= j < t.len() implies 0 <= (#[trigger] t[j]).rank_spec() && t[j].rank_spec() + num_roots(t) <= t.len() && leaf_count(t[j].term_spec()) <= MAX_LEAVES by {
        if j != a {
            assert(t[j] == s[j]);
        }
    }
    assert forall|j: int| 0 <= j < t.len() && (#[trigger] t[j]) is Child implies ({
        let q = t[j].parent_spec();
        &&& 0 <= q < t.len()
        &&& t[q].rank_spec() > t[j].rank_spec()
        &&& t[j].map_wf_spec()
        &&& map_wf(t[j].map_spec())
        &&& t[j].map_spec().source == t[j].term_spec()
        &&& t[j].map_spec().target == t[q].term_spec()
    }) by {
        assert(t[j] == s[j]);
        let q = s[j].parent_spec();
        if q != a {
            assert(t[q] == s[q]);
        }
    }
    assert forall|j: int| 0 <= j < t.len() && (#[trigger] t[j]) is Root implies (t[j].group_spec() matches Some(gr) ==> group_ok(gr, leaf_count(t[j].term_spec()))) by {
        if j != a {
            assert(t[j] == s[j]);
        }
    }
    assert forall|x: int, y: int| 0 <= x < t.len() && 0 <= y < t.len() && x != y implies (#[trigger] t[x]).term_spec() != (#[trigger] t[y]).term_spec() by {
        assert(t[x].term_spec() == s[x].term_spec());
        assert(t[y].term_spec() == s[y].term_spec());
    }
}

/// Linking root `a` under root `b` of higher rank keeps the forest well
/// formed.
proof fn lemma_link_wf(s: Seq<EqClassEntry>, t: Seq<EqClassEntry>, a: int, b: int)
    requires
        seq_wf(s),
        0 <= a < s.len(),
        0 <= b < s.len(),
        a != b,
        s[a] is Root,
        s[b] is Root,
        t == s.update(a, t[a]).update(b, t[b]),
        t[a] is Child,
        t[a].parent_spec() == b,
        t[a].term_spec() == s[a].term_spec(),
        t[a].rank_spec() == s[a].rank_spec() < t[b].rank_spec(),
        t[b] is Root,
        t[b].term_spec() == s[b].term_spec(),
        s[b].rank_spec() <= t[b].rank_spec() <= s[b].rank_spec() + 1,
        t[b].group_spec() == s[b].group_spec(),
        t[a].map_wf_spec(),
        map_wf(t[a].map_spec()),
        t[a].map_spec().source == s[a].term_spec(),
        t[a].map_spec().target == s[b].term_spec(),
    ensures
        seq_wf(t),
        num_roots(t) + 1 == num_roots(s),
{
    reveal(seq_wf);
    let m = s.update(a, t[a]);
    lemma_num_roots_update(s, a, t[a]);
    lemma_num_roots_update(m, b, t[b]);
    assert(s[b].rank_spec() + num_roots(s) <= s.len());
    assert forall|j: int| 0 <= j < t.len() implies 0 <= (#[trigger] t[j]).rank_spec() && t[j].rank_spec() + num_roots(t) <= t.len() && leaf_count(t[j].term_spec()) <= MAX_LEAVES by {
        if j != a && j != b {
            assert(t[j] == s[j]);
        }
    }
    assert forall|j: int| 0 <= j < t.len() && (#[trigger] t[j]) is Child implies ({
        let q = t[j].parent_spec();
        &&& 0 <= q < t.len()
        &&& t[q].rank_spec() > t[j].rank_spec()
        &&& t[j].map_wf_spec()
        &&& map_wf(t[j].map_spec())
        &&& t[j].map_spec().source == t[j].term_spec()
        &&& t[j].map_spec().target == t[q].term_spec()
    }) by {
        if j != a {
            assert(j != b);
            assert(t[j] == s[j]);
            let q = s[j].parent_spec();
            if q != a && q != b {
                assert(t[q] == s[q]);
            }
        }
    }
    assert forall|j: int| 0 <= j < t.len() && (#[trigger] t[j]) is Root implies (t[j].group_spec() matches Some(gr) ==> group_ok(gr, leaf_count(t[j].term_spec()))) by {
        if j != b {
            assert(t[j] == s[j]);
        }
    }
    assert forall|x: int, y: int| 0 <= x < t.len() && 0 <= y < t.len() && x != y implies (#[trigger] t[x]).term_spec() != (#[trigger] t[y]).term_spec() by {
        assert(t[x].term_spec() == s[x].term_spec());
        assert(t[y].term_spec() == s[y].term_spec());
    }
}

/// After linking root `a` under root `b`, the class of `a` has root `b`;
/// every other root stays.
proof fn lemma_link_roots(s: Seq<EqClassEntry>, t: Seq<EqClassEntry>, a: int, b: int, j: int)
    requires
        seq_wf(s),
        seq_wf(t),
        0 <= a < s.len(),
        0 <= b < s.len(),
        a != b,
        s[a] is Root,
        s[b] is Root,
        t == s.update(a, t[a]).update(b, t[b]),
        t[a] is Child,
        t[a].parent_spec() == b,
        t[b] is Root,
        0 <= j < s.len(),
    ensures
        seq_root(t, j) == if seq_root(s, j) == a {
            b
        } else {
            seq_root(s, j)
        },
    decreases usize::MAX - s[j].rank_spec(),
{
    reveal(seq_root);
    lemma_entry(s, j);
    lemma_entry(t, b);
    if j == a {
        lemma_step(t, a);
    } else if s[j] is Child {
        lemma_step(s, j);
        assert(j != b);
        assert(t[j] == s[j]);
        lemma_step(t, j);
        lemma_link_roots(s, t, a, b, s[j].parent_spec());
    } else if j != b {
        assert(t[j] == s[j]);
        lemma_entry(t, j);
    }
}

/// `2` to the power `e`.
pub open spec fn pow2(e: nat) -> nat
    decreases e,
{
    if e == 0 {
        1
    } else {
        2 * pow2((e - 1) as nat)
    }
}

/// The entries whose root is `r`.
pub closed spec fn class_of(s: Seq<EqClassEntry>, r: int) -> Set<int> {
    Set::new(|j: int| 0 <= j < s.len() && seq_root(s, j) == r)
}

/// Each class holds at least `2^rank` entries of its root's rank.
#[verifier::opaque]
pub closed spec fn rank_sizes(s: Seq<EqClassEntry>) -> bool {
    forall|r: int|
        0 <= r < s.len() && s[r] is Root ==> pow2(s[r].rank_spec() as nat) <= #[trigger] class_of(
            s,
            r,
        ).len()
}

/// Number of parent links from entry `i` to its root.
pub closed spec fn seq_depth(s: Seq<EqClassEntry>, i: int) -> nat
    decreases usize::MAX - s[i].rank_spec(),
{
    if 0 <= i < s.len() && s[i] is Child {
        let p = s[i].parent_spec();
        if 0 <= p < s.len() && s[p].rank_spec() > s[i].rank_spec() && s[i].rank_spec() >= 0
            && s[p].rank_spec() <= usize::MAX {
            1 + seq_depth(s, p)
        } else {
            0
        }
    } else {
        0
    }
}

proof fn lemma_class_finite(s: Seq<EqClassEntry>, r: int)
    ensures
        class_of(s, r).finite(),
        class_of(s, r).len() <= s.len(),
{
    vstd::set_lib::lemma_int_range(0, s.len() as int);
    let range = vstd::set_lib::set_int_range(0, s.len() as int);
    assert(class_of(s, r).subset_of(range));
    vstd::set_lib::lemma_len_subset(class_of(s, r), range);
}

proof fn lemma_pow2_mono(a: nat, b: nat)
    requires
        a <= b,
    ensures
        pow2(a) <= pow2(b),
    decreases b,
{
    if a < b {
        lemma_pow2_mono(a, (b - 1) as nat);
    }
}

/// A chain from entry `i` climbs at least one rank per link.
proof fn lemma_depth_rank(s: Seq<EqClassEntry>, i: int)
    requires
        seq_wf(s),
        0 <= i < s.len(),
    ensures
        seq_depth(s, i) + s[i].rank_spec() <= s[seq_root(s, i)].rank_spec(),
    decreases usize::MAX - s[i].rank_spec(),
{
    lemma_entry(s, i);
    if s[i] is Child {
        lemma_step(s, i);
        lemma_depth_rank(s, s[i].parent_spec());
    }
}

/// With the same roots, root entries and ranks, the class sizes agree.
proof fn lemma_rank_sizes_same_roots(s: Seq<EqClassEntry>, t: Seq<EqClassEntry>)
    requires
        rank_sizes(s),
        t.len() == s.len(),
        forall|j: int| 0 <= j < s.len() ==> #[trigger] seq_root(t, j) == seq_root(s, j),
        forall|j: int| 0 <= j < s.len() ==> (#[trigger] t[j] is Root) == s[j] is Root,
        forall|j: int| 0 <= j < s.len() && s[j] is Root ==> (#[trigger] t[j]).rank_spec() == s[j].rank_spec(),
    ensures
        rank_sizes(t),
{
    reveal(rank_sizes);
    assert forall|r: int| 0 <= r < t.len() && t[r] is Root implies pow2(t[r].rank_spec() as nat) <= #[trigger] class_of(t, r).len() by {
        assert(class_of(t, r) =~= class_of(s, r));
        assert(s[r] is Root);
        assert(pow2(s[r].rank_spec() as nat) <= class_of(s, r).len());
    }
}

/// A new root of rank 0 is a class of one.
proof fn lemma_rank_sizes_push(s: Seq<EqClassEntry>, e: EqClassEntry)
    requires
        seq_wf(s),
        seq_wf(s.push(e)),
        rank_sizes(s),
        e is Root,
        e.rank_spec() == 0,
    ensures
        rank_sizes(s.push(e)),
{
    reveal(rank_sizes);
    let t = s.push(e);
    assert forall|j: int| 0 <= j < s.len() implies #[trigger] seq_root(t, j) == seq_root(s, j) by {
        lemma_push_root(s, e, j);
    }
    lemma_entry(t, s.len() as int);
    assert forall|r: int| 0 <= r < t.len() && t[r] is Root implies pow2(t[r].rank_spec() as nat) <= #[trigger] class_of(t, r).len() by {
        if r < s.len() {
            assert(t[r] == s[r]);
            assert forall|j: int| class_of(t, r).contains(j) <==> class_of(s, r).contains(j) by {
                if 0 <= j < s.len() {
                    assert(seq_root(t, j) == seq_root(s, j));
                }
                if j == s.len() {
                    assert(seq_root(t, j) == j);
                }
            }
            assert(class_of(t, r) =~= class_of(s, r));
            assert(pow2(s[r].rank_spec() as nat) <= class_of(s, r).len());
        } else {
            assert(class_of(t, r).contains(r));
            assert(class_of(t, r).len() >= 1) by {
                lemma_class_finite(t, r);
                vstd::set_lib::lemma_len_subset(set![r], class_of(t, r));
            }
        }
    }
}

/// Linking root `lo` under root `hi` joins their classes; the rank of `hi`
/// grows only when both ranks were equal.
proof fn lemma_rank_sizes_link(s: Seq<EqClassEntry>, t: Seq<EqClassEntry>, lo: int, hi: int)
    requires
        seq_wf(s),
        seq_wf(t),
        rank_sizes(s),
        0 <= lo < s.len(),
        0 <= hi < s.len(),
        lo != hi,
        s[lo] is Root,
        s[hi] is Root,
        t == s.update(lo, t[lo]).update(hi, t[hi]),
        t[lo] is Child,
        t[lo].parent_spec() == hi,
        t[hi] is Root,
        t[hi].rank_spec() == s[hi].rank_spec() || (t[hi].rank_spec() == s[hi].rank_spec() + 1
            && s[lo].rank_spec() == s[hi].rank_spec()),
    ensures
        rank_sizes(t),
{
    reveal(rank_sizes);
    assert forall|j: int| 0 <= j < s.len() implies #[trigger] seq_root(t, j) == (if seq_root(s, j) == lo { hi } else { seq_root(s, j) }) by {
        lemma_link_roots(s, t, lo, hi, j);
    }
    lemma_class_finite(s, lo);
    lemma_class_finite(s, hi);
    assert forall|r: int| 0 <= r < t.len() && t[r] is Root implies pow2(t[r].rank_spec() as nat) <= #[trigger] class_of(t, r).len() by {
        if r == hi {
            assert(class_of(t, hi) =~= class_of(s, hi) + class_of(s, lo));
            assert(class_of(s, hi).disjoint(class_of(s, lo)));
            vstd::set_lib::lemma_set_disjoint_lens(class_of(s, hi), class_of(s, lo));
            assert(pow2(s[hi].rank_spec() as nat) <= class_of(s, hi).len());
            assert(pow2(s[lo].rank_spec() as nat) <= class_of(s, lo).len());
            lemma_entry(s, hi);
            if t[hi].rank_spec() == s[hi].rank_spec() + 1 {
                assert(pow2(t[hi].rank_spec() as nat) == 2 * pow2(s[hi].rank_spec() as nat));
            }
        } else {
            assert(r != lo);
            assert(t[r] == s[r]);
            assert(class_of(t, r) =~= class_of(s, r)) by {
                assert forall|j: int| class_of(t, r).contains(j) <==> class_of(s, r).contains(j) by {
                    if 0 <= j < s.len() && seq_root(s, j) == lo {
                        lemma_entry(s, lo);
                    }
                }
            }
        }
    }
}

/// The group `after` is `before` extended by the permutation `a`: a
/// member already changes nothing; otherwise `a` joins the generators, and
/// a class without a group gets one generated by `a` alone.
pub open spec fn group_step(before: Option<PermutationGroup>, after: PermutationGroup, a: Seq<PermIndex>) -> bool {
    match before {
        Some(g0) => {
            &&& g0.contains_spec(a) ==> after == g0
            &&& !g0.contains_spec(a) ==> after.gens() == g0.gens().push(a)
            &&& forall|q: Seq<PermIndex>| #[trigger] g0.contains_spec(q) ==> after.contains_spec(q)
        },
        None => after.gens() == seq![a],
    }
}

/// After linking root `lo` under root `hi` by the map `t[lo]`, the path
/// map of each member of `lo`'s class gains that link; other paths stay.
proof fn lemma_link_paths(s: Seq<EqClassEntry>, t: Seq<EqClassEntry>, lo: int, hi: int, j: int)
    requires
        seq_wf(s),
        seq_wf(t),
        0 <= lo < s.len(),
        0 <= hi < s.len(),
        lo != hi,
        s[lo] is Root,
        s[hi] is Root,
        t == s.update(lo, t[lo]).update(hi, t[hi]),
        t[lo] is Child,
        t[lo].parent_spec() == hi,
        t[hi] is Root,
        0 <= j < s.len(),
    ensures
        seq_path(t, j) == if seq_root(s, j) == lo {
            compose_seq(seq_path(s, j), t[lo].map_spec().perm)
        } else {
            seq_path(s, j)
        },
    decreases usize::MAX - s[j].rank_spec(),
{
    reveal(seq_root);
    reveal(seq_path);
    lemma_entry(s, j);
    lemma_entry(t, hi);
    let l = t[lo].map_spec().perm;
    if j == lo {
        lemma_step(t, lo);
        assert(is_perm(l));
        assert(compose_seq(l, Seq::<PermIndex>::empty()) =~= l);
        assert(compose_seq(Seq::<PermIndex>::empty(), l) =~= l);
    } else if s[j] is Child {
        lemma_step(s, j);
        assert(j != hi);
        assert(t[j] == s[j]);
        lemma_step(t, j);
        let p = s[j].parent_spec();
        lemma_link_paths(s, t, lo, hi, p);
        lemma_link_roots(s, t, lo, hi, p);
        if seq_root(s, p) == lo {
            lemma_step(t, lo);
            lemma_root_path(s, p);
            crate::perm::lemma_compose_assoc(s[j].map_spec().perm, seq_path(s, p), l);
        }
    } else if j != hi {
        assert(t[j] == s[j]);
        lemma_entry(t, j);
    }
}

/// Linking one class under another by the cycle map closes that cycle: read
/// again through the new link it is the identity, whichever way the link
/// points.
proof fn lemma_link_closes_cycle(m: Seq<PermIndex>, pt: Seq<PermIndex>, ps: Seq<PermIndex>)
    requires
        is_perm(m),
        is_perm(pt),
        is_perm(ps),
    ensures
        ({
            let cyc = compose_seq(inverse_seq(compose_seq(m, pt)), ps);
            &&& is_identity_seq(compose_seq(inverse_seq(compose_seq(m, compose_seq(pt, cyc))), ps))
            &&& is_identity_seq(compose_seq(inverse_seq(compose_seq(m, pt)), compose_seq(ps, inverse_seq(cyc))))
        }),
{
    let mp = compose_seq(m, pt);
    crate::perm::lemma_compose_seq(m, pt);
    crate::perm::lemma_inverse_seq(mp);
    let cyc = compose_seq(inverse_seq(mp), ps);
    crate::perm::lemma_compose_seq(inverse_seq(mp), ps);
    crate::perm::lemma_compose_seq(pt, cyc);
    let q = compose_seq(m, compose_seq(pt, cyc));
    crate::perm::lemma_compose_seq(m, compose_seq(pt, cyc));
    crate::perm::lemma_inverse_seq(q);
    let a1 = compose_seq(inverse_seq(q), ps);
    crate::perm::lemma_compose_seq(inverse_seq(q), ps);
    assert forall|x: int| 0 <= x < a1.len() implies #[trigger] a1[x] as int == x by {
        crate::perm::lemma_apply_perm(inverse_seq(q));
        let y = apply(inverse_seq(q), x);
        crate::perm::lemma_apply_inverse(q, x);
        crate::perm::lemma_apply_perm(mp);
        crate::perm::lemma_apply_inverse(mp, apply(mp, y));
        assert(apply(q, y) == apply(ps, y));
        assert(apply(a1, x) == apply(ps, y));
    }
    crate::perm::lemma_inverse_seq(cyc);
    crate::perm::lemma_compose_seq(ps, inverse_seq(cyc));
    let a2 = compose_seq(inverse_seq(mp), compose_seq(ps, inverse_seq(cyc)));
    crate::perm::lemma_compose_seq(inverse_seq(mp), compose_seq(ps, inverse_seq(cyc)));
    assert forall|x: int| 0 <= x < a2.len() implies #[trigger] a2[x] as int == x by {
        crate::perm::lemma_apply_perm(inverse_seq(mp));
        let y = apply(inverse_seq(mp), x);
        assert(apply(cyc, x) == apply(ps, y));
        crate::perm::lemma_apply_inverse(cyc, x);
        assert(apply(a2, x) == apply(inverse_seq(cyc), apply(ps, y)));
    }
}

/// A union–find over terms whose links carry leaf bijections; a cycle of
/// links at a root yields an automorphism of the root's term.
pub struct EquivalenceClasses {
    entries: Vec<EqClassEntry>,
}

impl EquivalenceClasses {
    /// The entries form a forest of leaf bijections.
    pub closed spec fn wf(&self) -> bool {
        seq_wf(self.entries@) && rank_sizes(self.entries@)
    }

    /// Number of entries.
    pub closed spec fn len_spec(&self) -> nat {
        self.entries@.len()
    }

    /// The term of entry `i`.
    pub closed spec fn term_at(&self, i: int) -> Term {
        self.entries@[i].term_spec()
    }

    /// The root of the class of entry `i`.
    pub closed spec fn root_of(&self, i: int) -> int {
        seq_root(self.entries@, i)
    }

    /// The leaf permutation from entry `i` to its root.
    pub closed spec fn path_perm(&self, i: int) -> Seq<PermIndex> {
        seq_path(self.entries@, i)
    }

    /// The entry `i` is a class root.
    pub closed spec fn is_root_at(&self, i: int) -> bool {
        self.entries@[i] is Root
    }

    /// The automorphism group recorded at entry `i`, if any.
    pub closed spec fn group_at(&self, i: int) -> Option<PermutationGroup> {
        self.entries@[i].group_spec()
    }

    /// The rank of entry `i`.
    pub closed spec fn rank_at(&self, i: int) -> int {
        self.entries@[i].rank_spec()
    }

    /// The parent of entry `i`, for a child.
    pub closed spec fn parent_at(&self, i: int) -> int {
        self.entries@[i].parent_spec()
    }

    /// The map from entry `i`'s term to its parent's term, for a child.
    pub closed spec fn link_at(&self, i: int) -> MapView {
        self.entries@[i].map_spec()
    }

    /// The index of the entry of `t`, if `t` has one.
    pub open spec fn has_term(&self, t: Term) -> bool {
        exists|i: int| 0 <= i < self.len_spec() && self.term_at(i) == t
    }

    pub fn new() -> (r: EquivalenceClasses)
        ensures
            r.wf(),
            r.len_spec() == 0,
    {
        let r = EquivalenceClasses { entries: Vec::new() };
        proof {
            reveal(seq_wf);
            reveal(rank_sizes);
        }
        r
    }

    fn parent_of(&self, index: EqClassEntryIndex) -> (r: Option<EqClassEntryIndex>)
        requires
            index < self.entries@.len(),
        ensures
            self.entries@[index as int] is Root ==> r is None,
            self.entries@[index as int] is Child ==> r == Some(self.entries@[index as int].parent_spec() as usize),
    {
        match &self.entries[index] {
            EqClassEntry::Root(_) => None,
            EqClassEntry::Child(child) => Some(child.parent),
        }
    }

    /// The entry of `term`, made as a new class root if there is none.
    fn entry_for_term(&mut self, term: &Term) -> (r: EqClassEntryIndex)
        requires
            old(self).wf(),
            leaf_count(*term) <= MAX_LEAVES,
        ensures
            final(self).wf(),
            r < final(self).len_spec(),
            final(self).term_at(r as int) == *term,
            old(self).has_term(*term) ==> final(self).entries@ == old(self).entries@,
            !old(self).has_term(*term) ==> final(self).entries@ == old(self).entries@.push(
                final(self).entries@[r as int],
            ) && r == old(self).len_spec() && final(self).entries@[r as int] is Root
                && final(self).entries@[r as int].rank_spec() == 0
                && final(self).entries@[r as int].group_spec() is None,
    {
        let mut i: usize = 0;
        while i < self.entries.len()
            invariant
                i <= self.entries@.len(),
                self.wf(),
                self.entries@ == old(self).entries@,
                forall|j: int| 0 <= j < i ==> #[trigger] self.entries@[j].term_spec() != *term,
            decreases self.entries@.len() - i,
        {
            if self.entries[i].term().equals(term) {
                return i;
            }
            i = i + 1;
        }
        let entry = EqClassEntry::new_root(term);
        let ghost s = self.entries@;
        self.entries.push(entry);
        proof {
            reveal(seq_wf);
            let t = self.entries@;
            lemma_num_roots_push(s, entry);
            assert forall|j: int| 0 <= j < t.len() implies 0 <= (#[trigger] t[j]).rank_spec() && t[j].rank_spec() + num_roots(t) <= t.len() && leaf_count(t[j].term_spec()) <= MAX_LEAVES by {
                if j < s.len() {
                    assert(t[j] == s[j]);
                }
            }
            assert forall|j: int| 0 <= j < t.len() && (#[trigger] t[j]) is Child implies ({
                let p = t[j].parent_spec();
                &&& 0 <= p < t.len()
                &&& t[p].rank_spec() > t[j].rank_spec()
                &&& t[j].map_wf_spec()
                &&& map_wf(t[j].map_spec())
                &&& t[j].map_spec().source == t[j].term_spec()
                &&& t[j].map_spec().target == t[p].term_spec()
            }) by {
                assert(j < s.len());
                assert(t[j] == s[j]);
                assert(t[s[j].parent_spec()] == s[s[j].parent_spec()]);
            }
            assert forall|j: int| 0 <= j < t.len() && (#[trigger] t[j]) is Root implies (t[j].group_spec() matches Some(g) ==> group_ok(g, leaf_count(t[j].term_spec()))) by {
                if j < s.len() {
                    assert(t[j] == s[j]);
                }
            }
            assert forall|a: int, b: int| 0 <= a < t.len() && 0 <= b < t.len() && a != b implies (#[trigger] t[a]).term_spec() != (#[trigger] t[b]).term_spec() by {
                if a < s.len() && b < s.len() {
                    assert(t[a] == s[a] && t[b] == s[b]);
                } else if a < s.len() {
                    assert(t[a] == s[a]);
                } else if b < s.len() {
                    assert(t[b] == s[b]);
                }
            }
            if old(self).has_term(*term) {
                let j = choose|j: int| 0 <= j < old(self).len_spec() && old(self).term_at(j) == *term;
                assert(s[j].term_spec() != *term);
            }
            assert(seq_wf(t));
            assert(t == s.push(entry));
            lemma_rank_sizes_push(s, entry);
        }
        self.entries.len() - 1
    }
}

impl EquivalenceClasses {
    /// Finds the root of entry `index`, pointing each entry on the way at its
    /// grandparent, and composes onto `tracking` the map from the entry to
    /// the root. No root and no path map changes.
    fn find(&mut self, index: EqClassEntryIndex, tracking: &mut TermMap) -> (r: EqClassEntryIndex)
        requires
            old(self).wf(),
            index < old(self).len_spec(),
            old(tracking).wf(),
            old(tracking)@.target == old(self).term_at(index as int),
        ensures
            final(self).wf(),
            final(self).entries@.len() == old(self).entries@.len(),
            forall|j: int|
                0 <= j < old(self).entries@.len() ==> #[trigger] final(self).entries@[j].term_spec()
                    == old(self).entries@[j].term_spec() && final(self).entries@[j] is Root
                    == old(self).entries@[j] is Root && (old(self).entries@[j] is Root
                    ==> final(self).entries@[j] == old(self).entries@[j]) && final(self).root_of(j)
                    == old(self).root_of(j) && final(self).path_perm(j) == old(self).path_perm(j),
            r == old(self).root_of(index as int),
            final(tracking).wf(),
            final(tracking)@.source == old(tracking)@.source,
            final(tracking)@.target == old(self).term_at(r as int),
            final(tracking)@.perm == compose_seq(old(tracking)@.perm, old(self).path_perm(index as int)),
    {
        let ghost init = self.entries@;
        let ghost i0 = index as int;
        let ghost t0 = tracking@;
        let mut index = index;
        proof {
            lemma_root_path(init, i0);
        }
        while !self.entries[index].is_root()
            invariant
                seq_wf(self.entries@),
                self.entries@.len() == init.len(),
                forall|j: int|
                    0 <= j < init.len() ==> #[trigger] self.entries@[j].term_spec() == init[j].term_spec()
                        && self.entries@[j] is Root == init[j] is Root && (init[j] is Root
                        ==> self.entries@[j] == init[j]) && seq_root(self.entries@, j) == seq_root(init, j)
                        && seq_path(self.entries@, j) == seq_path(init, j),
                index < init.len(),
                0 <= i0 < init.len(),
                seq_root(self.entries@, index as int) == seq_root(init, i0),
                tracking.wf(),
                tracking@.source == t0.source,
                tracking@.target == self.entries@[index as int].term_spec(),
                compose_seq(tracking@.perm, seq_path(self.entries@, index as int)) == compose_seq(
                    t0.perm,
                    seq_path(init, i0),
                ),
            decreases usize::MAX - self.entries@[index as int].rank_spec(),
        {
            let ghost s = self.entries@;
            let parent = self.parent_of(index).unwrap();
            proof {
                lemma_step(s, index as int);
            }
            if !self.entries[parent].is_root() {
                proof {
                    lemma_step(s, parent as int);
                }
                let (new_map, grandparent) = {
                    let child = self.entries[index].as_child();
                    let parent_entry = self.entries[parent].as_child();
                    (child.parent_map.compose(&parent_entry.parent_map), parent_entry.parent)
                };
                let mut taken = EqClassEntry::new_root(&Term::Variable);
                self.entries.set_and_swap(index, &mut taken);
                match taken {
                    EqClassEntry::Child(c) => {
                        let updated = EqClassEntry::Child(
                            EqClassChildEntry { term: c.term, rank: c.rank, parent: grandparent, parent_map: new_map },
                        );
                        self.entries.set(index, updated);
                    },
                    EqClassEntry::Root(_) => {
                        proof {
                            assert(false);
                        }
                    },
                }
                proof {
                    let t = self.entries@;
                    assert(t =~= s.update(index as int, t[index as int]));
                    lemma_compress_wf(s, t, index as int);
                    assert forall|j: int| 0 <= j < init.len() implies #[trigger] t[j].term_spec() == init[j].term_spec() && t[j] is Root == init[j] is Root && (init[j] is Root ==> t[j] == init[j]) && seq_root(t, j) == seq_root(init, j) && seq_path(t, j) == seq_path(init, j) by {
                        lemma_compress_preserves(s, t, index as int, j);
                        if j != index {
                            assert(t[j] == s[j]);
                        }
                    }
                }
            }
            let ghost grown = self.entries@;
            let next = self.entries[index].as_child().parent;
            proof {
                lemma_step(grown, index as int);
                lemma_root_path(grown, next as int);
                let m = grown[index as int].map_spec().perm;
                crate::perm::lemma_compose_assoc(tracking@.perm, m, seq_path(grown, next as int));
            }
            tracking.compose_assign(&self.entries[index].as_child().parent_map);
            index = next;
        }
        proof {
            lemma_entry(self.entries@, index as int);
            let p = tracking@.perm;
            assert(compose_seq(p, Seq::<PermIndex>::empty()) =~= p);
            let t = self.entries@;
            assert forall|j: int| 0 <= j < init.len() implies #[trigger] seq_root(t, j) == seq_root(init, j) && (t[j] is Root) == init[j] is Root by {
                assert(t[j].term_spec() == init[j].term_spec());
            }
            assert forall|j: int| 0 <= j < init.len() implies (#[trigger] t[j] is Root) == init[j] is Root by {
                assert(t[j].term_spec() == init[j].term_spec());
            }
            assert forall|j: int| 0 <= j < init.len() && init[j] is Root implies (#[trigger] t[j]).rank_spec() == init[j].rank_spec() by {
                assert(t[j].term_spec() == init[j].term_spec());
            }
            lemma_rank_sizes_same_roots(init, t);
        }
        index
    }

    /// The root of entry `index`, with the map from the entry to the root
    /// composed onto `tracking`; nothing is changed.
    fn find_immut(&self, index: EqClassEntryIndex, tracking: &mut TermMap) -> (r: EqClassEntryIndex)
        requires
            self.wf(),
            index < self.len_spec(),
            old(tracking).wf(),
            old(tracking)@.target == self.term_at(index as int),
        ensures
            r == self.root_of(index as int),
            final(tracking).wf(),
            final(tracking)@.source == old(tracking)@.source,
            final(tracking)@.target == self.term_at(r as int),
            final(tracking)@.perm == compose_seq(old(tracking)@.perm, self.path_perm(index as int)),
    {
        let ghost s = self.entries@;
        let ghost i0 = index as int;
        let ghost t0 = tracking@;
        let mut index = index;
        proof {
            lemma_root_path(s, i0);
        }
        while !self.entries[index].is_root()
            invariant
                seq_wf(s),
                s == self.entries@,
                index < s.len(),
                0 <= i0 < s.len(),
                seq_root(s, index as int) == seq_root(s, i0),
                tracking.wf(),
                tracking@.source == t0.source,
                tracking@.target == s[index as int].term_spec(),
                compose_seq(tracking@.perm, seq_path(s, index as int)) == compose_seq(t0.perm, seq_path(s, i0)),
            decreases usize::MAX - s[index as int].rank_spec(),
        {
            let next = self.entries[index].as_child().parent;
            proof {
                lemma_step(s, index as int);
                lemma_root_path(s, next as int);
                let m = s[index as int].map_spec().perm;
                crate::perm::lemma_compose_assoc(tracking@.perm, m, seq_path(s, next as int));
            }
            tracking.compose_assign(&self.entries[index].as_child().parent_map);
            index = next;
        }
        proof {
            lemma_entry(self.entries@, index as int);
            let p = tracking@.perm;
            assert(compose_seq(p, Seq::<PermIndex>::empty()) =~= p);
        }
        index
    }
}

impl EquivalenceClasses {
    /// The root of entry `k` before a call that appends entries: appended
    /// entries are roots of their own.
    pub open spec fn prior_root(&self, k: int) -> int {
        if k < self.len_spec() {
            self.root_of(k)
        } else {
            k
        }
    }

    /// The rank of entry `r` before a call that appends roots of rank 0.
    pub open spec fn prior_rank(&self, r: int) -> int {
        if r < self.len_spec() {
            self.rank_at(r)
        } else {
            0
        }
    }

    /// The group of entry `r` before a call that appends roots without one.
    pub open spec fn prior_group(&self, r: int) -> Option<PermutationGroup> {
        if r < self.len_spec() {
            self.group_at(r)
        } else {
            None
        }
    }

    /// Some entry of `after` whose term is `src` or `tgt` had root `r` before
    /// the call.
    pub open spec fn touched(&self, after: &EquivalenceClasses, r: int, src: Term, tgt: Term) -> bool {
        exists|k: int|
            0 <= k < after.len_spec() && (after.term_at(k) == src || after.term_at(k) == tgt)
                && #[trigger] self.prior_root(k) == r
    }

    /// Classes that a call does not reach keep their root, rank and group.
    #[verifier::opaque]
    pub open spec fn untouched_kept(&self, after: &EquivalenceClasses, src: Term, tgt: Term) -> bool {
        forall|r: int|
            0 <= r < after.len_spec() && !self.touched(after, r, src, tgt)
                ==> (#[trigger] after.is_root_at(r) == (r >= self.len_spec() || self.is_root_at(r)))
                && (after.is_root_at(r) ==> after.group_at(r) == self.prior_group(r)
                && after.rank_at(r) == self.prior_rank(r))
    }

    /// When the two terms were in one class, the cycle read through the
    /// parent maps is absorbed (the identity) or extends the root's group.
    #[verifier::opaque]
    pub open spec fn cycle_recorded(&self, after: &EquivalenceClasses, m: MapView) -> bool {
        let src = m.source;
        let tgt = m.target;
        forall|i: int, j: int|
            0 <= i < after.len_spec() && 0 <= j < after.len_spec() && #[trigger] after.term_at(i)
                == src && #[trigger] after.term_at(j) == tgt && self.prior_root(i)
                == self.prior_root(j) ==> ({
                let r = self.prior_root(i);
                let a = compose_seq(
                    inverse_seq(compose_seq(m.perm, after.path_perm(j))),
                    after.path_perm(i),
                );
                &&& after.is_root_at(r)
                &&& after.root_of(i) == r
                &&& after.rank_at(r) == self.prior_rank(r)
                &&& is_identity_seq(a) ==> after.group_at(r) == self.prior_group(r)
                &&& !is_identity_seq(a) ==> (after.group_at(r) matches Some(g) && g.wf() && group_step(
                    self.prior_group(r),
                    g,
                    a,
                ))
            })
    }

    /// When the two terms were in different classes, the root of higher rank
    /// (the source's on a tie, whose rank then grows by one) survives with
    /// its group, and the other becomes its child, linked by a leaf map chosen
    /// so that the cycle through the step reads as the identity.
    #[verifier::opaque]
    pub open spec fn union_by_rank(&self, after: &EquivalenceClasses, m: MapView) -> bool {
        let src = m.source;
        let tgt = m.target;
        forall|i: int, j: int|
            0 <= i < after.len_spec() && 0 <= j < after.len_spec() && #[trigger] after.term_at(i)
                == src && #[trigger] after.term_at(j) == tgt && self.prior_root(i)
                != self.prior_root(j) ==> ({
                let rs = self.prior_root(i);
                let rt = self.prior_root(j);
                let hi = if self.prior_rank(rs) < self.prior_rank(rt) { rt } else { rs };
                let lo = if self.prior_rank(rs) < self.prior_rank(rt) { rs } else { rt };
                &&& after.is_root_at(hi)
                &&& after.group_at(hi) == self.prior_group(hi)
                &&& after.rank_at(hi) == self.prior_rank(hi) + if self.prior_rank(rs)
                    == self.prior_rank(rt) {
                    1int
                } else {
                    0int
                }
                &&& !after.is_root_at(lo)
                &&& after.rank_at(lo) == self.prior_rank(lo)
                &&& after.parent_at(lo) == hi
                &&& map_wf(after.link_at(lo))
                &&& after.link_at(lo).source == after.term_at(lo)
                &&& after.link_at(lo).target == after.term_at(hi)
                &&& is_identity_seq(
                    compose_seq(inverse_seq(compose_seq(m.perm, after.path_perm(j))), after.path_perm(i)),
                )
            })
    }

    /// Before the call, entry `x` of `after` was in the class of an entry of
    /// `after` whose term is `src` or `tgt`.
    pub open spec fn linked(&self, after: &EquivalenceClasses, x: int, src: Term, tgt: Term) -> bool {
        exists|k: int|
            0 <= k < after.len_spec() && (after.term_at(k) == src || after.term_at(k) == tgt)
                && #[trigger] self.prior_root(k) == self.prior_root(x)
    }

    /// Records that the source and the target of `map` are equivalent, the
    /// leaves corresponding by `map`. Their classes are merged; if they
    /// already were one class, the permutation read around the cycle is
    /// added to the automorphisms of the class root.
    #[verifier::rlimit(100)]
    #[verifier::spinoff_prover]
    pub fn add_equiv(&mut self, map: TermMap)
        requires
            old(self).wf(),
            map.wf(),
            leaf_count(map@.source) <= MAX_LEAVES,
        ensures
            final(self).wf(),
            old(self).len_spec() <= final(self).len_spec() <= old(self).len_spec() + 2,
            forall|i: int|
                0 <= i < old(self).len_spec() ==> #[trigger] final(self).term_at(i) == old(self).term_at(i),
            forall|i: int|
                old(self).len_spec() <= i < final(self).len_spec() ==> #[trigger] final(self).term_at(i)
                    == map@.source || final(self).term_at(i) == map@.target,
            final(self).has_term(map@.source),
            final(self).has_term(map@.target),
            forall|i: int, j: int|
                0 <= i < old(self).len_spec() && 0 <= j < old(self).len_spec() && #[trigger] old(self).root_of(i)
                    == #[trigger] old(self).root_of(j) ==> final(self).root_of(i) == final(self).root_of(j),
            forall|i: int, j: int|
                0 <= i < final(self).len_spec() && 0 <= j < final(self).len_spec() && #[trigger] final(self).term_at(i)
                    == map@.source && #[trigger] final(self).term_at(j) == map@.target ==> final(self).root_of(i)
                    == final(self).root_of(j),
            forall|i: int, j: int|
                0 <= i < final(self).len_spec() && 0 <= j < final(self).len_spec() && #[trigger] final(self).root_of(i)
                    == #[trigger] final(self).root_of(j) ==> old(self).prior_root(i) == old(self).prior_root(j)
                    || (old(self).linked(final(self), i, map@.source, map@.target) && old(self).linked(
                    final(self),
                    j,
                    map@.source,
                    map@.target,
                )),
            forall|i: int, j: int|
                0 <= i < final(self).len_spec() && 0 <= j < final(self).len_spec() && #[trigger] final(self).term_at(i)
                    == map@.source && #[trigger] final(self).term_at(j) == map@.target && old(self).prior_root(i)
                    == old(self).prior_root(j) ==> ({
                    let a = compose_seq(
                        inverse_seq(compose_seq(map@.perm, final(self).path_perm(j))),
                        final(self).path_perm(i),
                    );
                    !is_identity_seq(a) ==> (final(self).group_at(final(self).root_of(i)) matches Some(g)
                        && g.contains_spec(a))
                }),
            old(self).untouched_kept(final(self), map@.source, map@.target),
            old(self).cycle_recorded(final(self), map@),
            old(self).union_by_rank(final(self), map@),
    {
        let ghost init = self.entries@;
        let ghost src = map@.source;
        let ghost tgt = map@.target;
        let target = self.entry_for_term(map.target());
        let ghost sa = self.entries@;
        let source = self.entry_for_term(map.source());
        let ghost grown = self.entries@;
        proof {
            // roots before the finds are the prior roots
            assert forall|j: int| 0 <= j < grown.len() implies #[trigger] seq_root(grown, j) == old(self).prior_root(j) && (j < init.len() ==> seq_path(grown, j) == seq_path(init, j)) by {
                if j < init.len() {
                    if sa != init {
                        lemma_push_root(init, sa[init.len() as int], j);
                        assert(sa == init.push(sa[init.len() as int]));
                    }
                    if grown != sa {
                        lemma_push_root(sa, grown[sa.len() as int], j);
                        assert(grown == sa.push(grown[sa.len() as int]));
                    }
                } else {
                    lemma_entry(grown, j);
                    if j < sa.len() {
                        assert(grown[j] == sa[j]);
                    }
                }
            }
            assert(grown[target as int].term_spec() == tgt);
            // the roots before the finds, and what they held before the call
            assert forall|r: int| 0 <= r < grown.len() implies (#[trigger] grown[r] is Root) == (r >= init.len() || init[r] is Root) && (r < init.len() ==> grown[r] == init[r]) && (r >= init.len() ==> grown[r].rank_spec() == 0 && grown[r].group_spec() is None) by {
                if r < sa.len() {
                    assert(grown[r] == sa[r]);
                }
            }
        }
        let mut source_to_target_root = map;
        let target_root = self.find(target, &mut source_to_target_root);
        let ghost half = self.entries@;
        let mut target_root_to_source_root = source_to_target_root.into_backward();
        let source_root = self.find(source, &mut target_root_to_source_root);
        let ghost settled = self.entries@;
        let ghost cyc = target_root_to_source_root@;
        proof {
            assert forall|j: int| 0 <= j < grown.len() implies #[trigger] seq_root(settled, j) == seq_root(grown, j) && seq_path(settled, j) == seq_path(grown, j) && settled[j].term_spec() == grown[j].term_spec() && (grown[j] is Root ==> settled[j] == grown[j]) && (settled[j] is Root) == (grown[j] is Root) by {
                assert(half[j].term_spec() == grown[j].term_spec());
                assert(settled[j].term_spec() == half[j].term_spec());
            }
            lemma_root_path(grown, source as int);
            lemma_root_path(grown, target as int);
            lemma_entry(settled, source as int);
            lemma_entry(settled, target as int);
            lemma_entry(grown, source as int);
            lemma_entry(grown, target as int);
            assert(cyc.perm == compose_seq(inverse_seq(compose_seq(map@.perm, seq_path(grown, target as int))), seq_path(grown, source as int)));
        }
        if target_root == source_root {
            let ghost mut recorded: Option<PermutationGroup> = None;
            let perm = target_root_to_source_root.into_perm();
            match perm.nonfix_index() {
                Some(non_fixpoint) => {
                    let mut taken = EqClassEntry::new_root(&Term::Variable);
                    self.entries.set_and_swap(target_root, &mut taken);
                    match taken {
                        EqClassEntry::Root(mut root) => {
                            proof {
                                lemma_entry(settled, target_root as int);
                            }
                            let ghost before_group = root.automorphisms;
                            let mut group = match root.automorphisms {
                                Some(g) => g,
                                None => PermutationGroup::new(non_fixpoint),
                            };
                            let ghost g_pre = group;
                            let ghost a = perm@;
                            group.extend(perm);
                            proof {
                                if before_group is None {
                                    assert(!g_pre.contains_spec(a));
                                    assert(group.gens() =~= seq![a]);
                                }
                                assert(group_step(before_group, group, a));
                                recorded = Some(group);
                            }
                            root.automorphisms = Some(group);
                            self.entries.set(target_root, EqClassEntry::Root(root));
                        },
                        EqClassEntry::Child(_) => {
                            proof {
                                assert(false);
                            }
                        },
                    }
                    proof {
                        let t = self.entries@;
                        assert(t =~= settled.update(target_root as int, t[target_root as int]));
                        lemma_entry(settled, target_root as int);
                        lemma_root_update_wf(settled, t, target_root as int);
                        assert forall|j: int| 0 <= j < t.len() implies #[trigger] seq_root(t, j) == seq_root(grown, j) && seq_path(t, j) == seq_path(grown, j) && t[j].term_spec() == grown[j].term_spec() by {
                            lemma_root_update(settled, t, target_root as int, j);
                            assert(seq_root(settled, j) == seq_root(grown, j));
                        }
                        assert forall|j: int| 0 <= j < settled.len() implies #[trigger] seq_root(t, j) == seq_root(settled, j) by {
                            lemma_root_update(settled, t, target_root as int, j);
                        }
                        assert forall|j: int| 0 <= j < settled.len() implies (#[trigger] t[j] is Root) == settled[j] is Root by {
                            if j != target_root {
                                assert(t[j] == settled[j]);
                            }
                        }
                        assert forall|j: int| 0 <= j < settled.len() && settled[j] is Root implies (#[trigger] t[j]).rank_spec() == settled[j].rank_spec() by {
                            if j != target_root {
                                assert(t[j] == settled[j]);
                            }
                        }
                        lemma_rank_sizes_same_roots(settled, t);
                        assert(t[target_root as int].group_spec() matches Some(g) && g.contains_spec(cyc.perm));
                        assert(t[target_root as int].group_spec() == recorded);
                        assert(t[target_root as int].rank_spec() == settled[target_root as int].rank_spec());
                        assert(recorded matches Some(g) && g.wf() && group_step(settled[target_root as int].group_spec(), g, cyc.perm));
                        assert(!is_identity_seq(cyc.perm));
                    }
                },
                None => {
                    proof {
                        let t = self.entries@;
                        assert forall|j: int| 0 <= j < t.len() implies #[trigger] seq_root(t, j) == seq_root(grown, j) && seq_path(t, j) == seq_path(grown, j) && t[j].term_spec() == grown[j].term_spec() by {
                            assert(seq_root(settled, j) == seq_root(grown, j));
                        }
                        assert(is_identity_seq(cyc.perm));
                        assert(t == settled);
                    }
                },
            }
            proof {
                let t = self.entries@;
                assert forall|j: int| 0 <= j < t.len() implies #[trigger] seq_root(t, j) == old(self).prior_root(j) by {
                    assert(seq_root(t, j) == seq_root(grown, j));
                    assert(seq_root(grown, j) == old(self).prior_root(j));
                }
                assert(t[source as int].term_spec() == src);
                assert(t[target as int].term_spec() == tgt);
                assert forall|i: int| 0 <= i < t.len() && t[i].term_spec() == src implies i == source as int by {
                    lemma_entry(t, source as int);
                }
                assert forall|i: int| 0 <= i < t.len() && t[i].term_spec() == tgt implies i == target as int by {
                    lemma_entry(t, target as int);
                }
                assert(self.term_at(source as int) == src);
                assert(self.term_at(target as int) == tgt);
                assert(self.has_term(src) && self.has_term(tgt));
                assert forall|i: int, j: int| 0 <= i < t.len() && 0 <= j < t.len() && #[trigger] self.term_at(i) == src && #[trigger] self.term_at(j) == tgt && old(self).prior_root(i) == old(self).prior_root(j) implies ({
                    let a = compose_seq(inverse_seq(compose_seq(map@.perm, self.path_perm(j))), self.path_perm(i));
                    !is_identity_seq(a) ==> (self.group_at(self.root_of(i)) matches Some(g) && g.contains_spec(a))
                }) by {
                    assert(i == source as int);
                    assert(j == target as int);
                    assert(seq_root(t, j) == seq_root(grown, j));
                    assert(seq_root(t, i) == seq_root(grown, i));
                    assert(self.path_perm(j) == seq_path(grown, j));
                    assert(self.path_perm(i) == seq_path(grown, i));
                }
                let rt = target_root as int;
                assert(old(self).prior_root(source as int) == rt);
                assert(t =~= settled.update(rt, t[rt]));
                reveal(EquivalenceClasses::untouched_kept);
                reveal(EquivalenceClasses::cycle_recorded);
                reveal(EquivalenceClasses::union_by_rank);
                assert forall|r: int| 0 <= r < t.len() && !old(self).touched(self, r, src, tgt) implies (#[trigger] self.is_root_at(r) == (r >= old(self).len_spec() || old(self).is_root_at(r))) && (self.is_root_at(r) ==> self.group_at(r) == old(self).prior_group(r) && self.rank_at(r) == old(self).prior_rank(r)) by {
                    if r == rt {
                        assert(self.term_at(source as int) == src);
                        assert(old(self).touched(self, r, src, tgt));
                    }
                    assert(t[r] == settled[r]);
                    assert(seq_root(settled, r) == seq_root(grown, r));
                }
                assert forall|i: int, j: int| 0 <= i < t.len() && 0 <= j < t.len() && #[trigger] self.term_at(i) == src && #[trigger] self.term_at(j) == tgt && old(self).prior_root(i) == old(self).prior_root(j) implies ({
                    let r = old(self).prior_root(i);
                    let a = compose_seq(inverse_seq(compose_seq(map@.perm, self.path_perm(j))), self.path_perm(i));
                    &&& self.is_root_at(r)
                    &&& self.root_of(i) == r
                    &&& self.rank_at(r) == old(self).prior_rank(r)
                    &&& is_identity_seq(a) ==> self.group_at(r) == old(self).prior_group(r)
                    &&& !is_identity_seq(a) ==> (self.group_at(r) matches Some(g) && g.wf() && group_step(old(self).prior_group(r), g, a))
                }) by {
                    assert(i == source as int);
                    assert(j == target as int);
                    assert(seq_root(t, j) == seq_root(grown, j));
                    assert(seq_root(t, i) == seq_root(grown, i));
                    assert(self.path_perm(j) == seq_path(grown, j));
                    assert(self.path_perm(i) == seq_path(grown, i));
                    assert(seq_root(settled, rt) == seq_root(grown, rt));
                }
                assert forall|i: int, j: int| 0 <= i < t.len() && 0 <= j < t.len() && #[trigger] self.term_at(i) == src && #[trigger] self.term_at(j) == tgt implies old(self).prior_root(i) == old(self).prior_root(j) by {
                    assert(i == source as int);
                    assert(j == target as int);
                }
            }
            return;
        }
        // union by rank
        proof {
            assert(seq_root(settled, target_root as int) == seq_root(grown, target_root as int));
            assert(seq_root(settled, source_root as int) == seq_root(grown, source_root as int));
        }
        let source_rank = self.entries[source_root].as_root().rank;
        let target_rank = self.entries[target_root].as_root().rank;
        proof {
            lemma_entry(settled, source_root as int);
            lemma_entry(settled, target_root as int);
            lemma_two_roots(settled, source_root as int, target_root as int);
        }
        let (high, low, link) = if source_rank < target_rank {
            (target_root, source_root, target_root_to_source_root.into_backward())
        } else {
            (source_root, target_root, target_root_to_source_root)
        };
        let len = self.entries.len();
        if source_rank == target_rank {
            proof {
                assert(settled[high as int].rank_spec() + 2 <= settled.len());
            }
            let mut taken = EqClassEntry::new_root(&Term::Variable);
            self.entries.set_and_swap(high, &mut taken);
            match taken {
                EqClassEntry::Root(mut root) => {
                    root.rank = root.rank + 1;
                    self.entries.set(high, EqClassEntry::Root(root));
                },
                EqClassEntry::Child(_) => {
                    proof {
                        assert(false);
                    }
                },
            }
        }
        let mut taken = EqClassEntry::new_root(&Term::Variable);
        self.entries.set_and_swap(low, &mut taken);
        match taken {
            EqClassEntry::Root(root) => {
                self.entries.set(low, root.into_child(high, link));
            },
            EqClassEntry::Child(_) => {
                proof {
                    assert(false);
                }
            },
        }
        proof {
            let t = self.entries@;
            let hi = high as int;
            let lo = low as int;
            assert(t =~= settled.update(lo, t[lo]).update(hi, t[hi]));
            lemma_link_wf(settled, t, lo, hi);
            lemma_rank_sizes_link(settled, t, lo, hi);
            let rs = source_root as int;
            let rt = target_root as int;
            assert(old(self).prior_root(source as int) == rs);
            assert(old(self).prior_root(target as int) == rt);
            assert(seq_root(settled, rs) == seq_root(grown, rs));
            assert(seq_root(settled, rt) == seq_root(grown, rt));
            assert(old(self).prior_rank(rs) == settled[rs].rank_spec());
            assert(old(self).prior_rank(rt) == settled[rt].rank_spec());
            assert(old(self).prior_group(hi) == settled[hi].group_spec());
            assert(t[hi].group_spec() == settled[hi].group_spec());
            assert(t[hi].rank_spec() == settled[hi].rank_spec() + if source_rank == target_rank { 1int } else { 0int });
            assert(t[lo].rank_spec() == settled[lo].rank_spec());
            assert(t[lo].parent_spec() == hi);
            assert(map_wf(t[lo].map_spec()));
            assert(t[lo].map_spec().source == settled[lo].term_spec());
            assert(t[lo].map_spec().target == settled[hi].term_spec());
            reveal(EquivalenceClasses::untouched_kept);
            reveal(EquivalenceClasses::cycle_recorded);
            reveal(EquivalenceClasses::union_by_rank);
            assert forall|r: int| 0 <= r < t.len() && !old(self).touched(self, r, src, tgt) implies (#[trigger] self.is_root_at(r) == (r >= old(self).len_spec() || old(self).is_root_at(r))) && (self.is_root_at(r) ==> self.group_at(r) == old(self).prior_group(r) && self.rank_at(r) == old(self).prior_rank(r)) by {
                if r == rs {
                    assert(self.term_at(source as int) == src);
                    assert(old(self).touched(self, r, src, tgt));
                }
                if r == rt {
                    assert(self.term_at(target as int) == tgt);
                    assert(old(self).touched(self, r, src, tgt));
                }
                assert(t[r] == settled[r]);
                assert(seq_root(settled, r) == seq_root(grown, r));
            }
            assert forall|i: int, j: int| 0 <= i < t.len() && 0 <= j < t.len() && #[trigger] self.term_at(i) == src && #[trigger] self.term_at(j) == tgt implies old(self).prior_root(i) != old(self).prior_root(j) by {
                assert(i == source as int);
                assert(j == target as int);
            }
            assert(is_perm(map@.perm));
            lemma_root_path(grown, source as int);
            lemma_root_path(grown, target as int);
            let ps = seq_path(grown, source as int);
            let pt = seq_path(grown, target as int);
            lemma_link_closes_cycle(map@.perm, pt, ps);
            lemma_link_paths(settled, t, lo, hi, source as int);
            lemma_link_paths(settled, t, lo, hi, target as int);
            assert(seq_path(settled, source as int) == ps);
            assert(seq_path(settled, target as int) == pt);
            assert(seq_root(settled, source as int) == rs);
            assert(seq_root(settled, target as int) == rt);
            if source_rank < target_rank {
                assert(t[lo].map_spec().perm == inverse_seq(cyc.perm));
            } else {
                assert(t[lo].map_spec().perm == cyc.perm);
            }
            assert(is_identity_seq(compose_seq(inverse_seq(compose_seq(map@.perm, self.path_perm(target as int))), self.path_perm(source as int))));
            assert(old(self).union_by_rank(self, map@)) by {
                assert forall|i: int, j: int| 0 <= i < t.len() && 0 <= j < t.len() && #[trigger] self.term_at(i) == src && #[trigger] self.term_at(j) == tgt && old(self).prior_root(i) != old(self).prior_root(j) implies i == source as int && j == target as int by {}
            }
            assert forall|j: int| 0 <= j < t.len() implies #[trigger] seq_root(t, j) == (if old(self).prior_root(j) == lo { hi } else { old(self).prior_root(j) }) by {
                lemma_link_roots(settled, t, lo, hi, j);
                assert(seq_root(grown, j) == old(self).prior_root(j));
            }
            assert forall|i: int| 0 <= i < t.len() && t[i].term_spec() == src implies i == source as int by {
                lemma_entry(t, source as int);
            }
            assert forall|i: int| 0 <= i < t.len() && t[i].term_spec() == tgt implies i == target as int by {
                lemma_entry(t, target as int);
            }
            assert(t[source as int].term_spec() == settled[source as int].term_spec());
            assert(t[target as int].term_spec() == settled[target as int].term_spec());
            assert(self.term_at(source as int) == src);
            assert(self.term_at(target as int) == tgt);
            assert(self.has_term(src) && self.has_term(tgt));
            assert forall|i: int, j: int|
                0 <= i < t.len() && 0 <= j < t.len() && #[trigger] self.root_of(i) == #[trigger] self.root_of(j)
                implies old(self).prior_root(i) == old(self).prior_root(j) || (old(self).linked(self, i, src, tgt) && old(self).linked(self, j, src, tgt)) by {
                if old(self).prior_root(i) != old(self).prior_root(j) {
                    assert(old(self).prior_root(source as int) == source_root as int);
                    assert(old(self).prior_root(target as int) == target_root as int);
                    if old(self).prior_root(i) == lo || old(self).prior_root(i) == hi {
                        if old(self).prior_root(i) == source_root as int {
                            assert(t[source as int].term_spec() == src);
                        } else {
                            assert(t[target as int].term_spec() == tgt);
                        }
                    }
                    if old(self).prior_root(j) == lo || old(self).prior_root(j) == hi {
                        if old(self).prior_root(j) == source_root as int {
                            assert(t[source as int].term_spec() == src);
                        } else {
                            assert(t[target as int].term_spec() == tgt);
                        }
                    }
                }
            }
        }
    }
}

impl EquivalenceClasses {
    /// `a` and `b` both have entries, in one class.
    pub open spec fn joined(&self, a: Term, b: Term) -> bool {
        exists|i: int, j: int|
            0 <= i < self.len_spec() && 0 <= j < self.len_spec() && #[trigger] self.term_at(i) == a
                && #[trigger] self.term_at(j) == b && self.root_of(i) == self.root_of(j)
    }

    /// Adding an equivalence keeps every pair that was joined joined.
    pub proof fn lemma_add_keeps_joined(&self, after: &EquivalenceClasses, a: Term, b: Term)
        requires
            self.joined(a, b),
            self.len_spec() <= after.len_spec(),
            forall|i: int| 0 <= i < self.len_spec() ==> #[trigger] after.term_at(i) == self.term_at(i),
            forall|i: int, j: int|
                0 <= i < self.len_spec() && 0 <= j < self.len_spec() && #[trigger] self.root_of(i)
                    == #[trigger] self.root_of(j) ==> after.root_of(i) == after.root_of(j),
        ensures
            after.joined(a, b),
    {
        let (i, j) = choose|i: int, j: int|
            0 <= i < self.len_spec() && 0 <= j < self.len_spec() && #[trigger] self.term_at(i) == a
                && #[trigger] self.term_at(j) == b && self.root_of(i) == self.root_of(j);
        assert(after.term_at(i) == a && after.term_at(j) == b);
    }

    /// Number of entries.
    pub fn len(&self) -> (r: usize)
        ensures
            r == self.len_spec(),
    {
        self.entries.len()
    }

    /// The term of entry `index`.
    pub fn term_of(&self, index: EqClassEntryIndex) -> (r: &Term)
        requires
            index < self.len_spec(),
        ensures
            *r == self.term_at(index as int),
    {
        self.entries[index].term()
    }

    /// The root of the class of entry `index`.
    pub fn root_index(&self, index: EqClassEntryIndex) -> (r: EqClassEntryIndex)
        requires
            self.wf(),
            index < self.len_spec(),
        ensures
            r == self.root_of(index as int),
            r < self.len_spec(),
            self.is_root_at(r as int),
    {
        let ghost s = self.entries@;
        let ghost i0 = index as int;
        let mut index = index;
        proof {
            lemma_root_path(s, i0);
        }
        while !self.entries[index].is_root()
            invariant
                seq_wf(s),
                s == self.entries@,
                index < s.len(),
                0 <= i0 < s.len(),
                seq_root(s, index as int) == seq_root(s, i0),
            decreases usize::MAX - s[index as int].rank_spec(),
        {
            proof {
                lemma_step(s, index as int);
            }
            index = self.entries[index].as_child().parent;
        }
        proof {
            lemma_entry(s, index as int);
        }
        index
    }

    /// The automorphism group recorded at the root of entry `index`'s class.
    pub fn automorphisms(&self, index: EqClassEntryIndex) -> (r: Option<&PermutationGroup>)
        requires
            self.wf(),
            index < self.len_spec(),
        ensures
            match self.group_at(self.root_of(index as int)) {
                Some(g) => r == Some(&g),
                None => r is None,
            },
            r matches Some(g) ==> g.wf(),
    {
        let root = self.root_index(index);
        proof {
            lemma_entry(self.entries@, root as int);
        }
        match self.entries[root].as_root().automorphisms {
            Some(ref g) => Some(g),
            None => None,
        }
    }

    /// The entry of `term`, if it has one.
    pub fn index_of(&self, term: &Term) -> (r: Option<EqClassEntryIndex>)
        ensures
            r matches Some(i) ==> i < self.len_spec() && self.term_at(i as int) == *term,
            self.wf() && r is Some ==> forall|j: int|
                0 <= j < self.len_spec() && #[trigger] self.term_at(j) == *term ==> j == r->Some_0,
            r is None ==> !self.has_term(*term),
    {
        let mut i: usize = 0;
        while i < self.entries.len()
            invariant
                i <= self.entries@.len(),
                forall|j: int| 0 <= j < i ==> #[trigger] self.entries@[j].term_spec() != *term,
            decreases self.entries@.len() - i,
        {
            if self.entries[i].term().equals(term) {
                proof {
                    if self.wf() {
                        lemma_entry(self.entries@, i as int);
                    }
                }
                return Some(i);
            }
            i = i + 1;
        }
        proof {
            if self.has_term(*term) {
                let j = choose|j: int| 0 <= j < self.len_spec() && self.term_at(j) == *term;
                assert(self.entries@[j].term_spec() == *term);
            }
        }
        None
    }

    /// Number of class roots.
    pub closed spec fn class_count_spec(&self) -> nat {
        num_roots(self.entries@)
    }

    /// Number of classes.
    pub fn class_count(&self) -> (r: usize)
        ensures
            r == self.class_count_spec(),
    {
        let mut count: usize = 0;
        let mut i: usize = 0;
        while i < self.entries.len()
            invariant
                i <= self.entries@.len(),
                count == num_roots(self.entries@.subrange(0, i as int)),
                count <= i,
            decreases self.entries@.len() - i,
        {
            proof {
                assert(self.entries@.subrange(0, i + 1).drop_last() =~= self.entries@.subrange(0, i as int));
            }
            proof {
                lemma_num_roots_bound(self.entries@.subrange(0, i + 1));
            }
            if self.entries[i].is_root() {
                count = count + 1;
            }
            i = i + 1;
        }
        proof {
            assert(self.entries@.subrange(0, self.entries@.len() as int) =~= self.entries@);
        }
        count
    }
}

impl EquivalenceClasses {
    /// The map from entry `i`'s term to its root's term along the parent
    /// links.
    pub open spec fn path_map(&self, i: int) -> MapView {
        MapView { source: self.term_at(i), target: self.term_at(self.root_of(i)), perm: self.path_perm(i) }
    }

    /// An automorphism recorded for a class comes from a map of the root term
    /// onto itself: going from the root back to the source of a step, across
    /// the step, and up to the root again gives a leaf bijection whose
    /// source and target are both the root's term.
    pub proof fn lemma_cycle_is_automorphism(&self, m: MapView, i: int, j: int)
        requires
            self.wf(),
            map_wf(m),
            0 <= i < self.len_spec(),
            0 <= j < self.len_spec(),
            self.term_at(i) == m.source,
            self.term_at(j) == m.target,
            self.root_of(i) == self.root_of(j),
        ensures
            ({
                let cycle = compose_view(inverse_view(compose_view(m, self.path_map(j))), self.path_map(i));
                &&& map_wf(cycle)
                &&& cycle.source == self.term_at(self.root_of(i))
                &&& cycle.target == self.term_at(self.root_of(i))
                &&& cycle.perm == compose_seq(
                    inverse_seq(compose_seq(m.perm, self.path_perm(j))),
                    self.path_perm(i),
                )
            }),
    {
        lemma_root_path(self.entries@, i);
        lemma_root_path(self.entries@, j);
        let pj = self.path_map(j);
        let pi = self.path_map(i);
        crate::maps::lemma_map_ops_wf(m, pj);
        let mj = compose_view(m, pj);
        crate::maps::lemma_map_inverse_wf(mj);
        crate::maps::lemma_map_ops_wf(inverse_view(mj), pi);
    }
}

impl EquivalenceClasses {
    /// Number of parent links from entry `j` to its root.
    pub closed spec fn depth(&self, j: int) -> nat {
        seq_depth(self.entries@, j)
    }

    /// Union by rank keeps chains short: from any entry, the number `d` of
    /// parent links up to its root satisfies `2^d <= n` for `n` entries, so
    /// `d <= log2 n`.
    pub proof fn lemma_height_bound(&self, j: int)
        requires
            self.wf(),
            0 <= j < self.len_spec(),
        ensures
            pow2(self.depth(j)) <= self.len_spec(),
    {
        let s = self.entries@;
        lemma_root_path(s, j);
        lemma_depth_rank(s, j);
        lemma_entry(s, j);
        let r = seq_root(s, j);
        lemma_entry(s, r);
        lemma_pow2_mono(seq_depth(s, j), s[r].rank_spec() as nat);
        reveal(rank_sizes);
        assert(pow2(s[r].rank_spec() as nat) <= class_of(s, r).len());
        lemma_class_finite(s, r);
    }
}

impl EquivalenceClasses {
    /// The map from entry `index`'s term to the term of its class root, the
    /// parent maps along the way composed.
    pub fn map_to_root(&self, index: EqClassEntryIndex) -> (r: TermMap)
        requires
            self.wf(),
            index < self.len_spec(),
        ensures
            r.wf(),
            r@ == self.path_map(index as int),
    {
        let term = self.entries[index].term();
        proof {
            lemma_entry(self.entries@, index as int);
        }
        let mut tracking = TermMap::new(term.copy(), term.copy(), crate::perm::Permutation::identity());
        let ghost start = tracking@;
        proof {
            assert(start.perm =~= Seq::<PermIndex>::empty());
        }
        let root = self.find_immut(index, &mut tracking);
        proof {
            let p = self.path_perm(index as int);
            assert(compose_seq(Seq::<PermIndex>::empty(), p) =~= p);
            assert(tracking@.perm == p);
            assert(tracking@.source == self.term_at(index as int));
            assert(tracking@.target == self.term_at(self.root_of(index as int)));
        }
        tracking
    }
}

impl EquivalenceClasses {
    /// A class's automorphisms move only the leaf positions of the root's
    /// term: every member of the root's group fixes each position from the
    /// term's leaf count on.
    pub proof fn lemma_automorphisms_within_term(&self, r: int, p: Seq<PermIndex>, x: int)
        requires
            self.wf(),
            0 <= r < self.len_spec(),
            self.is_root_at(r),
            self.group_at(r) matches Some(g) && g.contains_spec(p),
            is_perm(p),
            leaf_count(self.term_at(r)) <= x,
        ensures
            apply(p, x) == x,
    {
        lemma_entry(self.entries@, r);
        let g = self.group_at(r).unwrap();
        g.lemma_members_generated(p);
        crate::group::lemma_generated_fixes(g.gens(), p, leaf_count(self.term_at(r)) as int, x);
    }
}

impl EquivalenceClasses {
    /// Following parents from any entry ends at a root; a root is its own
    /// root; terms are unique; and the path map leads from the entry's term
    /// to its root's term.
    pub proof fn lemma_roots(&self, i: int)
        requires
            self.wf(),
            0 <= i < self.len_spec(),
        ensures
            0 <= self.root_of(i) < self.len_spec(),
            self.is_root_at(self.root_of(i)),
            self.is_root_at(i) ==> self.root_of(i) == i,
            map_wf(self.path_map(i)),
            forall|j: int| 0 <= j < self.len_spec() && j != i ==> self.term_at(i) != #[trigger] self.term_at(j),
    {
        lemma_root_path(self.entries@, i);
        lemma_entry(self.entries@, i);
    }
}

} // verus!
