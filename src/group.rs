use vstd::prelude::*;

use crate::perm::{
    PermIndex,
    Permutation,
    apply,
    compose_seq,
    inverse_seq,
    is_identity_seq,
    is_perm,
};

verus! {

/// `p` fixes every point of `fixed`.
pub open spec fn fixes_all(p: Seq<PermIndex>, fixed: Set<int>) -> bool {
    forall|f: int| fixed.contains(f) ==> #[trigger] apply(p, f) == f
}

/// `p` and `q` move every point alike.
pub open spec fn same_action(p: Seq<PermIndex>, q: Seq<PermIndex>) -> bool {
    forall|i: int| 0 <= i ==> #[trigger] apply(p, i) == apply(q, i)
}

/// Every listed permutation is a bijection.
pub open spec fn all_perms(gens: Seq<Seq<PermIndex>>) -> bool {
    forall|k: int| 0 <= k < gens.len() ==> is_perm(#[trigger] gens[k])
}

/// Each letter names a listed generator (`.1` marks its inverse).
pub open spec fn valid_word(gens: Seq<Seq<PermIndex>>, w: Seq<(int, bool)>) -> bool {
    forall|i: int| 0 <= i < w.len() ==> 0 <= (#[trigger] w[i]).0 < gens.len()
}

/// The letter `l` over `gens`.
pub open spec fn letter(gens: Seq<Seq<PermIndex>>, l: (int, bool)) -> Seq<PermIndex> {
    if l.1 {
        inverse_seq(gens[l.0])
    } else {
        gens[l.0]
    }
}

/// The product of the letters of `w`, first letter applied first.
pub open spec fn word_value(gens: Seq<Seq<PermIndex>>, w: Seq<(int, bool)>) -> Seq<PermIndex>
    decreases w.len(),
{
    if w.len() == 0 {
        Seq::empty()
    } else {
        compose_seq(word_value(gens, w.drop_last()), letter(gens, w.last()))
    }
}

/// `p` lies in the group generated by `gens`: some word over them and their
/// inverses moves every point as `p` does.
pub open spec fn generated(gens: Seq<Seq<PermIndex>>, p: Seq<PermIndex>) -> bool {
    exists|w: Seq<(int, bool)>| valid_word(gens, w) && same_action(#[trigger] word_value(gens, w), p)
}

/// The inverse word: letters reversed, each inverted.
pub open spec fn inverse_word(w: Seq<(int, bool)>) -> Seq<(int, bool)>
    decreases w.len(),
{
    if w.len() == 0 {
        w
    } else {
        seq![(w.last().0, !w.last().1)] + inverse_word(w.drop_last())
    }
}

proof fn lemma_letter_perm(gens: Seq<Seq<PermIndex>>, l: (int, bool))
    requires
        all_perms(gens),
        0 <= l.0 < gens.len(),
    ensures
        is_perm(letter(gens, l)),
{
    assert(is_perm(gens[l.0]));
    crate::perm::lemma_inverse_seq(gens[l.0]);
}

proof fn lemma_word_perm(gens: Seq<Seq<PermIndex>>, w: Seq<(int, bool)>)
    requires
        all_perms(gens),
        valid_word(gens, w),
    ensures
        is_perm(word_value(gens, w)),
    decreases w.len(),
{
    if w.len() > 0 {
        assert(valid_word(gens, w.drop_last()));
        lemma_word_perm(gens, w.drop_last());
        lemma_letter_perm(gens, w.last());
        crate::perm::lemma_compose_seq(word_value(gens, w.drop_last()), letter(gens, w.last()));
    } else {
        assert(is_perm(Seq::<PermIndex>::empty()));
    }
}

proof fn lemma_word_concat(gens: Seq<Seq<PermIndex>>, w1: Seq<(int, bool)>, w2: Seq<(int, bool)>, i: int)
    requires
        all_perms(gens),
        valid_word(gens, w1),
        valid_word(gens, w2),
        0 <= i,
    ensures
        valid_word(gens, w1 + w2),
        apply(word_value(gens, w1 + w2), i) == apply(word_value(gens, w2), apply(word_value(gens, w1), i)),
    decreases w2.len(),
{
    assert(valid_word(gens, w1 + w2));
    lemma_word_perm(gens, w1);
    crate::perm::lemma_apply_perm(word_value(gens, w1));
    if w2.len() == 0 {
        assert(w1 + w2 =~= w1);
    } else {
        let w2p = w2.drop_last();
        assert((w1 + w2).drop_last() =~= w1 + w2p);
        assert((w1 + w2).last() == w2.last());
        assert(valid_word(gens, w2p));
        lemma_word_concat(gens, w1, w2p, i);
        lemma_word_perm(gens, w1 + w2p);
        lemma_word_perm(gens, w2p);
        lemma_letter_perm(gens, w2.last());
        crate::perm::lemma_compose_seq(word_value(gens, w1 + w2p), letter(gens, w2.last()));
        crate::perm::lemma_compose_seq(word_value(gens, w2p), letter(gens, w2.last()));
    }
}

proof fn lemma_inverse_word(gens: Seq<Seq<PermIndex>>, w: Seq<(int, bool)>, i: int)
    requires
        all_perms(gens),
        valid_word(gens, w),
        0 <= i,
    ensures
        valid_word(gens, inverse_word(w)),
        apply(word_value(gens, inverse_word(w)), apply(word_value(gens, w), i)) == i,
    decreases w.len(),
{
    if w.len() == 0 {
    } else {
        let wp = w.drop_last();
        let l = w.last();
        let li = (l.0, !l.1);
        let g = gens[l.0];
        assert(valid_word(gens, wp));
        lemma_inverse_word(gens, wp, i);
        let iw = inverse_word(wp);
        assert(inverse_word(w) == seq![li] + iw);
        assert(valid_word(gens, seq![li]));
        lemma_word_perm(gens, wp);
        crate::perm::lemma_apply_perm(word_value(gens, wp));
        lemma_letter_perm(gens, l);
        lemma_letter_perm(gens, li);
        crate::perm::lemma_compose_seq(word_value(gens, wp), letter(gens, l));
        let x = apply(word_value(gens, wp), i);
        assert(0 <= x);
        let y = apply(letter(gens, l), x);
        assert(apply(word_value(gens, w), i) == y);
        crate::perm::lemma_apply_perm(letter(gens, l));
        assert(0 <= y);
        lemma_word_concat(gens, seq![li], iw, y);
        assert(valid_word(gens, inverse_word(w)));
        assert(seq![li].drop_last() =~= Seq::<(int, bool)>::empty());
        assert(word_value(gens, seq![li].drop_last()) == Seq::<PermIndex>::empty());
        assert(seq![li].last() == li);
        assert(word_value(gens, seq![li]) == compose_seq(Seq::<PermIndex>::empty(), letter(gens, li)));
        crate::perm::lemma_compose_seq(Seq::<PermIndex>::empty(), letter(gens, li));
        assert(apply(word_value(gens, seq![li]), y) == apply(letter(gens, li), y));
        assert(is_perm(g));
        if l.1 {
            assert(letter(gens, l) == inverse_seq(g));
            assert(letter(gens, li) == g);
            crate::perm::lemma_apply_inverse(g, x);
        } else {
            assert(letter(gens, l) == g);
            assert(letter(gens, li) == inverse_seq(g));
            crate::perm::lemma_apply_inverse(g, x);
        }
        assert(apply(letter(gens, li), y) == x);
    }
}

/// Products of members of a generated group are members.
pub proof fn lemma_generated_compose(gens: Seq<Seq<PermIndex>>, p: Seq<PermIndex>, q: Seq<PermIndex>)
    requires
        all_perms(gens),
        is_perm(p),
        is_perm(q),
        generated(gens, p),
        generated(gens, q),
    ensures
        generated(gens, compose_seq(p, q)),
{
    let w1 = choose|w: Seq<(int, bool)>| valid_word(gens, w) && same_action(#[trigger] word_value(gens, w), p);
    let w2 = choose|w: Seq<(int, bool)>| valid_word(gens, w) && same_action(#[trigger] word_value(gens, w), q);
    crate::perm::lemma_compose_seq(p, q);
    crate::perm::lemma_apply_perm(p);
    assert forall|i: int| 0 <= i implies #[trigger] apply(word_value(gens, w1 + w2), i) == apply(compose_seq(p, q), i) by {
        lemma_word_concat(gens, w1, w2, i);
        assert(apply(word_value(gens, w1), i) == apply(p, i));
        assert(apply(word_value(gens, w2), apply(p, i)) == apply(q, apply(p, i)));
    }
    lemma_word_concat(gens, w1, w2, 0);
    assert(valid_word(gens, w1 + w2) && same_action(word_value(gens, w1 + w2), compose_seq(p, q)));
}

/// Inverses of members of a generated group are members.
pub proof fn lemma_generated_inverse(gens: Seq<Seq<PermIndex>>, p: Seq<PermIndex>)
    requires
        all_perms(gens),
        is_perm(p),
        generated(gens, p),
    ensures
        generated(gens, inverse_seq(p)),
{
    let w = choose|w: Seq<(int, bool)>| valid_word(gens, w) && same_action(#[trigger] word_value(gens, w), p);
    crate::perm::lemma_inverse_seq(p);
    assert forall|j: int| 0 <= j implies #[trigger] apply(word_value(gens, inverse_word(w)), j) == apply(inverse_seq(p), j) by {
        let i = apply(inverse_seq(p), j);
        crate::perm::lemma_apply_inverse(p, j);
        crate::perm::lemma_apply_perm(inverse_seq(p));
        lemma_inverse_word(gens, w, i);
        assert(apply(word_value(gens, w), i) == apply(p, i));
    }
    lemma_inverse_word(gens, w, 0);
    assert(valid_word(gens, inverse_word(w)) && same_action(word_value(gens, inverse_word(w)), inverse_seq(p)));
}

/// Everything that fixes every point is in every generated group.
pub proof fn lemma_generated_identity(gens: Seq<Seq<PermIndex>>, p: Seq<PermIndex>)
    requires
        is_identity_seq(p),
    ensures
        generated(gens, p),
{
    let w = Seq::<(int, bool)>::empty();
    assert(word_value(gens, w) == Seq::<PermIndex>::empty());
    assert(same_action(word_value(gens, w), p));
}

/// Each generator is in the group it generates.
pub proof fn lemma_generated_gen(gens: Seq<Seq<PermIndex>>, k: int)
    requires
        0 <= k < gens.len(),
    ensures
        generated(gens, gens[k]),
{
    let w = seq![(k, false)];
    assert(w.drop_last() =~= Seq::<(int, bool)>::empty());
    assert(valid_word(gens, w));
    assert(word_value(gens, w.drop_last()) == Seq::<PermIndex>::empty());
    assert(w.last() == (k, false));
    assert(word_value(gens, w) == compose_seq(Seq::<PermIndex>::empty(), gens[k]));
    assert forall|i: int| 0 <= i implies #[trigger] apply(word_value(gens, w), i) == apply(gens[k], i) by {
        let c = compose_seq(Seq::<PermIndex>::empty(), gens[k]);
        if i < c.len() {
            assert(c[i] == apply(gens[k], apply(Seq::<PermIndex>::empty(), i)) as PermIndex);
        }
    }
}

proof fn lemma_word_push(gens: Seq<Seq<PermIndex>>, x: Seq<PermIndex>, w: Seq<(int, bool)>)
    requires
        valid_word(gens, w),
    ensures
        valid_word(gens.push(x), w),
        word_value(gens.push(x), w) == word_value(gens, w),
    decreases w.len(),
{
    if w.len() > 0 {
        assert(valid_word(gens, w.drop_last()));
        lemma_word_push(gens, x, w.drop_last());
        assert(gens.push(x)[w.last().0] == gens[w.last().0]);
    }
}

/// A member of a generated group stays one when a generator is added.
pub proof fn lemma_generated_push(gens: Seq<Seq<PermIndex>>, x: Seq<PermIndex>, p: Seq<PermIndex>)
    requires
        generated(gens, p),
    ensures
        generated(gens.push(x), p),
{
    let w = choose|w: Seq<(int, bool)>| valid_word(gens, w) && same_action(#[trigger] word_value(gens, w), p);
    lemma_word_push(gens, x, w);
    assert(valid_word(gens.push(x), w) && same_action(word_value(gens.push(x), w), p));
}

/// Words over permutations that fix every point from `n` on fix them too.
pub proof fn lemma_word_fixes(gens: Seq<Seq<PermIndex>>, w: Seq<(int, bool)>, n: int, i: int)
    requires
        all_perms(gens),
        forall|k: int| 0 <= k < gens.len() ==> (#[trigger] gens[k]).len() <= n,
        valid_word(gens, w),
        n <= i,
    ensures
        apply(word_value(gens, w), i) == i,
    decreases w.len(),
{
    if w.len() > 0 {
        assert(valid_word(gens, w.drop_last()));
        lemma_word_fixes(gens, w.drop_last(), n, i);
        lemma_word_perm(gens, w.drop_last());
        lemma_letter_perm(gens, w.last());
        crate::perm::lemma_compose_seq(word_value(gens, w.drop_last()), letter(gens, w.last()));
        crate::perm::lemma_inverse_seq(gens[w.last().0]);
    }
}

/// A member of the group generated by permutations of `[0, n)` fixes every
/// point from `n` on.
pub proof fn lemma_generated_fixes(gens: Seq<Seq<PermIndex>>, p: Seq<PermIndex>, n: int, i: int)
    requires
        all_perms(gens),
        forall|k: int| 0 <= k < gens.len() ==> (#[trigger] gens[k]).len() <= n,
        generated(gens, p),
        n <= i,
    ensures
        apply(p, i) == i,
{
    let w = choose|w: Seq<(int, bool)>| valid_word(gens, w) && same_action(#[trigger] word_value(gens, w), p);
    lemma_word_fixes(gens, w, n, i);
}

/// A permutation group kept by the Schreier–Sims method: a base point, the
/// inverses of a transversal of its orbit, and the stabiliser of the base
/// point as a group of the same kind, built on demand.
pub struct PermutationGroup {
    stab_point: PermIndex,
    stab_subgroup: Option<Box<PermutationGroup>>,
    generators: Vec<Permutation>,
    /// Entry `x`, for `x` in the orbit, sends `x` back to the base point.
    transversal_inv: Vec<Option<Permutation>>,
    orbits: Vec<PermIndex>,
}

/// Distinct points below `0x10000` that miss `z` number fewer than
/// `0x10000`.
proof fn lemma_orbit_room(s: Seq<PermIndex>, z: PermIndex)
    requires
        s.no_duplicates(),
        !s.contains(z),
    ensures
        s.len() < 0x10000,
{
    let m = s.push(z).map_values(|x: PermIndex| x as int);
    assert(m.no_duplicates()) by {
        assert forall|i: int, j: int| 0 <= i < m.len() && 0 <= j < m.len() && i != j implies m[i]
            != m[j] by {
            if i < s.len() && j < s.len() {
                assert(s[i] != s[j]);
            } else if i < s.len() {
                assert(s.push(z)[i] == s[i]);
            } else if j < s.len() {
                assert(s.push(z)[j] == s[j]);
            }
        }
    }
    m.unique_seq_to_set();
    vstd::set_lib::lemma_int_range(0, 0x10000);
    let r = vstd::set_lib::set_int_range(0, 0x10000);
    assert(m.to_set().subset_of(r));
    vstd::set_lib::lemma_len_subset(m.to_set(), r);
}

impl PermutationGroup {
    /// The chain is consistent, for a level whose elements fix `fixed`.
    pub closed spec fn wf_at(&self, fixed: Set<int>) -> bool
        decreases self,
    {
        let b = self.stab_point as int;
        let tr = self.transversal_inv@;
        &&& fixed.finite()
        &&& forall|f: int| fixed.contains(f) ==> 0 <= f < 0x10000
        &&& !fixed.contains(b)
        &&& b < tr.len() <= 0x10000
        &&& tr[b] matches Some(t) && t@.len() == 0
        &&& forall|x: int|
            0 <= x < tr.len() ==> (#[trigger] tr[x] matches Some(t) ==> t.wf() && apply(t@, x) == b
                && fixes_all(t@, fixed))
        &&& self.orbits@.no_duplicates()
        &&& 1 <= self.orbits@.len() <= 0x10000
        &&& self.orbits@[0] == self.stab_point
        &&& forall|k: int|
            0 <= k < self.orbits@.len() ==> (#[trigger] self.orbits@[k]) < tr.len() && tr[self.orbits@[k] as int] is Some
        &&& forall|k: int|
            0 <= k < self.generators@.len() ==> (#[trigger] self.generators@[k]).wf() && fixes_all(
                self.generators@[k]@,
                fixed,
            )
        &&& match self.stab_subgroup {
            Some(sub) => sub.wf_at(fixed.insert(b)),
            None => true,
        }
    }

    /// The generators added to the top level, in order.
    pub closed spec fn gens(&self) -> Seq<Seq<PermIndex>> {
        self.generators@.map_values(|p: Permutation| p@)
    }

    /// `z` is in the orbit of the base point: it has a transversal element.
    pub closed spec fn in_orbit(&self, z: int) -> bool {
        0 <= z < self.transversal_inv@.len() && self.transversal_inv@[z] is Some
    }

    /// At every level the orbit is closed under the level's generators.
    pub closed spec fn closed_chain(&self) -> bool
        decreases self,
    {
        &&& forall|a: int, m: int|
            0 <= a < self.orbits@.len() && 0 <= m < self.generators@.len() ==> self.in_orbit(
                apply(#[trigger] self.generators@[m]@, #[trigger] self.orbits@[a] as int),
            )
        &&& match self.stab_subgroup {
            Some(sub) => sub.closed_chain(),
            None => true,
        }
    }

    /// Every transversal element and generator stored in the chain lies in
    /// the group generated by `gens`.
    pub closed spec fn sound(&self, gens: Seq<Seq<PermIndex>>) -> bool
        decreases self,
    {
        let tr = self.transversal_inv@;
        &&& forall|x: int| 0 <= x < tr.len() ==> (#[trigger] tr[x] matches Some(t) ==> generated(gens, t@))
        &&& forall|k: int| 0 <= k < self.generators@.len() ==> generated(gens, (#[trigger] self.generators@[k])@)
        &&& match self.stab_subgroup {
            Some(sub) => sub.sound(gens),
            None => true,
        }
    }

    /// The chain is consistent, and it holds nothing outside the group
    /// generated by its generators.
    pub open spec fn wf(&self) -> bool {
        &&& self.wf_at(Set::empty())
        &&& all_perms(self.gens())
        &&& self.sound(self.gens())
        &&& self.closed_chain()
    }

    /// What sifting accepts lies in the group generated by `gens`.
    proof fn lemma_contains_generated(&self, fixed: Set<int>, gens: Seq<Seq<PermIndex>>, p: Seq<PermIndex>)
        requires
            self.wf_at(fixed),
            self.sound(gens),
            all_perms(gens),
            is_perm(p),
            self.contains_spec(p),
        ensures
            generated(gens, p),
        decreases self,
    {
        let b = self.stab_point as int;
        let x = apply(p, b);
        let tr = self.transversal_inv@;
        let t = tr[x].unwrap()@;
        assert(tr[x] matches Some(tt) && tt.wf());
        assert(generated(gens, t));
        let q = compose_seq(p, t);
        crate::perm::lemma_compose_seq(p, t);
        match self.stab_subgroup {
            Some(sub) => {
                sub.lemma_contains_generated(fixed.insert(b), gens, q);
            },
            None => {
                lemma_generated_identity(gens, q);
            },
        }
        crate::perm::lemma_inverse_seq(t);
        lemma_generated_inverse(gens, t);
        lemma_generated_compose(gens, q, inverse_seq(t));
        crate::perm::lemma_compose_seq(q, inverse_seq(t));
        crate::perm::lemma_apply_perm(p);
        assert forall|i: int| 0 <= i implies #[trigger] apply(compose_seq(q, inverse_seq(t)), i) == apply(p, i) by {
            crate::perm::lemma_apply_inverse(t, apply(p, i));
        }
        let w = choose|w: Seq<(int, bool)>| valid_word(gens, w) && same_action(#[trigger] word_value(gens, w), compose_seq(q, inverse_seq(t)));
        assert(valid_word(gens, w) && same_action(word_value(gens, w), p));
    }

    /// Adding a generator keeps the chain inside the larger generated group.
    proof fn lemma_sound_push(&self, gens: Seq<Seq<PermIndex>>, x: Seq<PermIndex>)
        requires
            self.sound(gens),
        ensures
            self.sound(gens.push(x)),
        decreases self,
    {
        let tr = self.transversal_inv@;
        assert forall|i: int| 0 <= i < tr.len() implies (#[trigger] tr[i] matches Some(t) ==> generated(gens.push(x), t@)) by {
            if let Some(t) = tr[i] {
                lemma_generated_push(gens, x, t@);
            }
        }
        assert forall|k: int| 0 <= k < self.generators@.len() implies generated(gens.push(x), (#[trigger] self.generators@[k])@) by {
            lemma_generated_push(gens, x, self.generators@[k]@);
        }
        match &self.stab_subgroup {
            Some(sub) => {
                sub.lemma_sound_push(gens, x);
            },
            None => {},
        }
    }

    /// Whether sifting `p` through the chain ends in the identity.
    pub closed spec fn contains_spec(&self, p: Seq<PermIndex>) -> bool
        decreases self,
    {
        let x = apply(p, self.stab_point as int);
        let tr = self.transversal_inv@;
        if 0 <= x < tr.len() && tr[x] is Some {
            let q = compose_seq(p, tr[x].unwrap()@);
            match self.stab_subgroup {
                Some(sub) => sub.contains_spec(q),
                None => is_identity_seq(q),
            }
        } else {
            false
        }
    }

    /// Every chain holds the identity, however long its listing.
    proof fn lemma_contains_identity(&self, fixed: Set<int>, p: Seq<PermIndex>)
        requires
            self.wf_at(fixed),
            is_identity_seq(p),
        ensures
            self.contains_spec(p),
        decreases self,
    {
        let b = self.stab_point as int;
        let tr = self.transversal_inv@;
        let t = tr[b].unwrap()@;
        let q = compose_seq(p, t);
        assert(apply(p, b) == b);
        assert(is_identity_seq(q)) by {
            assert forall|i: int| 0 <= i < q.len() implies #[trigger] q[i] as int == i by {
                assert(apply(p, i) == i);
            }
        }
        match self.stab_subgroup {
            Some(sub) => {
                sub.lemma_contains_identity(fixed.insert(b), q);
            },
            None => {},
        }
    }

    /// The inverse transversal element for `orbit`, if `orbit` is in the
    /// orbit of the base point.
    fn inv_coset_repr(&self, orbit: PermIndex) -> (r: Option<&Permutation>)
        ensures
            (orbit as int) < self.transversal_inv@.len() ==> (match self.transversal_inv@[orbit as int] {
                Some(t) => r == Some(&t),
                None => r is None,
            }),
            (orbit as int) >= self.transversal_inv@.len() ==> r is None,
    {
        if orbit as usize >= self.transversal_inv.len() {
            None
        } else {
            self.transversal_inv[orbit as usize].as_ref()
        }
    }

    /// The trivial group with base point `stab_point`.
    pub fn new(stab_point: PermIndex) -> (r: PermutationGroup)
        ensures
            r.wf(),
            r.gens() == Seq::<Seq<PermIndex>>::empty(),
            forall|gens: Seq<Seq<PermIndex>>| #[trigger] r.sound(gens),
            r.closed_chain(),
            forall|fixed: Set<int>|
                fixed.finite() && (forall|f: int| fixed.contains(f) ==> 0 <= f < 0x10000)
                    && !fixed.contains(stab_point as int) ==> #[trigger] r.wf_at(fixed),
            forall|p: Seq<PermIndex>| #[trigger] r.contains_spec(p) <==> is_identity_seq(p),
    {
        let mut transversal_inv: Vec<Option<Permutation>> = Vec::new();
        let mut i: usize = 0;
        while i < stab_point as usize
            invariant
                i <= stab_point,
                transversal_inv@.len() == i,
                forall|x: int| 0 <= x < i ==> #[trigger] transversal_inv@[x] is None,
            decreases stab_point - i,
        {
            transversal_inv.push(None);
            i = i + 1;
        }
        transversal_inv.push(Some(Permutation::identity()));
        let mut orbits: Vec<PermIndex> = Vec::new();
        orbits.push(stab_point);
        let r = PermutationGroup {
            stab_subgroup: None,
            stab_point,
            generators: Vec::new(),
            transversal_inv,
            orbits,
        };
        proof {
            assert(r.orbits@.no_duplicates());
            assert(r.gens() =~= Seq::<Seq<PermIndex>>::empty());
            assert forall|gens: Seq<Seq<PermIndex>>| #[trigger] r.sound(gens) by {
                assert forall|x: int| 0 <= x < r.transversal_inv@.len() implies (#[trigger] r.transversal_inv@[x] matches Some(t) ==> generated(gens, t@)) by {
                    if x < stab_point as int {
                        assert(r.transversal_inv@[x] == transversal_inv@[x]);
                    } else {
                        lemma_generated_identity(gens, r.transversal_inv@[x].unwrap()@);
                    }
                }
            }
            assert forall|x: int| 0 <= x < stab_point implies #[trigger] r.transversal_inv@[x] is None by {
                assert(r.transversal_inv@[x] == transversal_inv@[x]);
            }
            assert forall|p: Seq<PermIndex>| #[trigger] r.contains_spec(p) <==> is_identity_seq(p) by {
                let x = apply(p, stab_point as int);
                if r.contains_spec(p) {
                    assert(r.transversal_inv@[stab_point as int].unwrap()@ =~= Seq::<PermIndex>::empty());
                    let q = compose_seq(p, Seq::<PermIndex>::empty());
                    if x < stab_point as int {
                        assert(r.transversal_inv@[x] is None);
                    }
                    assert(x == stab_point as int);
                    assert(r.transversal_inv@[x].unwrap()@.len() == 0);
                    assert(is_identity_seq(q));
                    assert forall|i: int| 0 <= i < p.len() implies #[trigger] p[i] as int == i by {
                        assert(q[i] as int == apply(p, i));
                    }
                }
                if is_identity_seq(p) {
                    assert(r.transversal_inv@[stab_point as int].unwrap()@ =~= Seq::<PermIndex>::empty());
                    let q = compose_seq(p, Seq::<PermIndex>::empty());
                    assert(is_identity_seq(q)) by {
                        assert forall|i: int| 0 <= i < q.len() implies #[trigger] q[i] as int == i by {
                            assert(apply(p, i) == i);
                        }
                    }
                }
            }
        }
        r
    }

    /// Whether `perm` lies in the group.
    pub fn contains(&self, perm: &Permutation) -> (r: bool)
        requires
            self.wf(),
            perm.wf(),
        ensures
            r == self.contains_spec(perm@),
            r ==> generated(self.gens(), perm@),
    {
        let r = self.contains_owned(perm.shallow_clone(), Ghost(Set::empty()));
        proof {
            if r {
                self.lemma_contains_generated(Set::empty(), self.gens(), perm@);
            }
        }
        r
    }

    /// Every member lies in the group generated by the generators.
    pub proof fn lemma_members_generated(&self, p: Seq<PermIndex>)
        requires
            self.wf(),
            is_perm(p),
            self.contains_spec(p),
        ensures
            generated(self.gens(), p),
    {
        self.lemma_contains_generated(Set::empty(), self.gens(), p);
    }

    /// Sifts `perm` through the chain.
    pub fn contains_owned(&self, perm: Permutation, Ghost(fixed): Ghost<Set<int>>) -> (r: bool)
        requires
            self.wf_at(fixed),
            perm.wf(),
        ensures
            r == self.contains_spec(perm@),
        decreases self,
    {
        let mut perm = perm;
        let orbit = perm.get(self.stab_point);
        match self.inv_coset_repr(orbit) {
            Some(inv_coset_repr) => {
                proof {
                    assert(self.transversal_inv@[orbit as int] is Some);
                }
                perm.compose_assign(inv_coset_repr);
                match &self.stab_subgroup {
                    Some(subgroup) => subgroup.contains_owned(
                        perm,
                        Ghost(fixed.insert(self.stab_point as int)),
                    ),
                    None => perm.is_identity(),
                }
            },
            None => false,
        }
    }
}

impl PermutationGroup {
    /// Adds `generator` to this level of the chain, whose elements fix
    /// `fixed`.
    fn extend_at(
        &mut self,
        generator: Permutation,
        Ghost(fixed): Ghost<Set<int>>,
        Ghost(gens): Ghost<Seq<Seq<PermIndex>>>,
    )
        requires
            old(self).wf_at(fixed),
            old(self).sound(gens),
            old(self).closed_chain(),
            all_perms(gens),
            generated(gens, generator@),
            generator.wf(),
            fixes_all(generator@, fixed),
        ensures
            final(self).wf_at(fixed),
            final(self).sound(gens),
            final(self).closed_chain(),
            final(self).contains_spec(generator@),
            forall|q: Seq<PermIndex>| #[trigger] old(self).contains_spec(q) ==> final(self).contains_spec(q),
            old(self).contains_spec(generator@) ==> *final(self) == *old(self),
            !old(self).contains_spec(generator@) ==> final(self).gens() == old(self).gens().push(generator@),
            final(self).stab_point == old(self).stab_point,
        decreases 0x10000 - fixed.len(),
    {
        if self.contains_owned(generator.shallow_clone(), Ghost(fixed)) {
            return;
        }
        let ghost g = generator@;
        let ghost b = self.stab_point as int;
        proof {
            let r = vstd::set_lib::set_int_range(0, 0x10000);
            vstd::set_lib::lemma_int_range(0, 0x10000);
            assert(fixed.insert(b).subset_of(r));
            vstd::set_lib::lemma_len_subset(fixed.insert(b), r);
            crate::perm::lemma_inverse_seq(g);
            assert forall|f: int| fixed.contains(f) implies #[trigger] apply(inverse_seq(g), f) == f by {
                crate::perm::lemma_apply_inverse(g, f);
            }
        }
        let ghost before_push = *self;
        self.generators.push(generator.shallow_clone());
        let ghost gl = self.generators@;
        proof {
            assert forall|k: int| 0 <= k < self.generators@.len() implies generated(gens, (#[trigger] self.generators@[k])@) by {
                if k < before_push.generators@.len() {
                    assert(self.generators@[k] == before_push.generators@[k]);
                }
            }
            assert(self.sound(gens));
        }
        let n_old = self.orbits.len();
        let mut i: usize = 0;
        while i < self.orbits.len()
            invariant
                self.wf_at(fixed),
                self.sound(gens),
                all_perms(gens),
                n_old <= self.orbits@.len(),
                forall|a: int, m: int|
                    0 <= a < n_old && 0 <= m < gl.len() - 1 ==> self.in_orbit(
                        apply(#[trigger] gl[m]@, #[trigger] self.orbits@[a] as int),
                    ),
                forall|a: int, m: int|
                    0 <= a < i && 0 <= m < gl.len() ==> self.in_orbit(
                        apply(#[trigger] gl[m]@, #[trigger] self.orbits@[a] as int),
                    ),
                match self.stab_subgroup {
                    Some(sub) => sub.closed_chain(),
                    None => true,
                },
                fixed.len() < 0x10000,
                generator@ == g,
                gl.len() >= 1,
                gl[gl.len() - 1]@ == g,
                self.generators@ == gl,
                gl == old(self).generators@.push(gl[gl.len() - 1]),
                1 <= n_old,
                fixes_all(g, fixed),
                self.stab_point as int == b,
                forall|q: Seq<PermIndex>| #[trigger] old(self).contains_spec(q) ==> self.contains_spec(q),
                i > 0 ==> self.contains_spec(g),
                i <= self.orbits@.len() <= 0x10000,
            decreases 0x10000 - i,
        {
            let ghost start = *self;
            // points already in the orbit met every earlier generator
            let mut k: usize = if i < n_old {
                self.generators.len() - 1
            } else {
                0
            };
            let ghost kstart = k as int;
            let ghost oi = self.orbits@[i as int];
            while k < self.generators.len()
                invariant
                    self.wf_at(fixed),
                    self.sound(gens),
                    all_perms(gens),
                    n_old <= self.orbits@.len(),
                    self.orbits@[i as int] == oi,
                    forall|a: int, m: int|
                        0 <= a < n_old && 0 <= m < gl.len() - 1 ==> self.in_orbit(
                            apply(#[trigger] gl[m]@, #[trigger] self.orbits@[a] as int),
                        ),
                    forall|a: int, m: int|
                        0 <= a < i && 0 <= m < gl.len() ==> self.in_orbit(
                            apply(#[trigger] gl[m]@, #[trigger] self.orbits@[a] as int),
                        ),
                    forall|m: int| kstart <= m < k ==> self.in_orbit(apply(#[trigger] gl[m]@, oi as int)),
                    match self.stab_subgroup {
                        Some(sub) => sub.closed_chain(),
                        None => true,
                    },
                    fixed.len() < 0x10000,
                    i < self.orbits@.len() <= 0x10000,
                    1 <= n_old,
                    i < n_old ==> kstart == gl.len() - 1,
                    kstart <= k <= gl.len(),
                    gl.len() >= 1,
                    gl[gl.len() - 1]@ == g,
                    self.generators@ == gl,
                    fixes_all(g, fixed),
                    self.stab_point as int == b,
                    forall|q: Seq<PermIndex>| #[trigger] old(self).contains_spec(q) ==> self.contains_spec(q),
                    (i > 0 || k > kstart) ==> self.contains_spec(g),
                decreases gl.len() - k,
            {
                let gen = self.generators[k].shallow_clone();
                let ghost gg = gen@;
                proof {
                    assert(generated(gens, self.generators@[k as int]@));
                    assert(self.generators@[k as int].wf() && fixes_all(self.generators@[k as int]@, fixed));
                    crate::perm::lemma_inverse_seq(gg);
                    assert forall|f: int| fixed.contains(f) implies #[trigger] apply(inverse_seq(gg), f) == f by {
                        crate::perm::lemma_apply_inverse(gg, f);
                    }
                    if i == 0 && k as int == kstart {
                        assert(gg == g);
                    }
                }
                let gen_inv = gen.inverse();
                let ghost start_k = *self;
                let orbit = self.orbits[i];
                let ghost y = orbit as int;
                let inv_coset_repr = self.inv_coset_repr(orbit).unwrap().shallow_clone();
                let ghost ty = inv_coset_repr@;
                let new_orbit = gen.get(orbit);
                let ghost z = new_orbit as int;
                let known = match self.inv_coset_repr(new_orbit) {
                    Some(t) => Some(t.shallow_clone()),
                    None => None,
                };
                proof {
                    assert(self.transversal_inv@[y] is Some);
                    assert(generated(gens, ty));
                    assert(apply(ty, y) == b);
                    crate::perm::lemma_apply_inverse(ty, y);
                    crate::perm::lemma_apply_inverse(gg, y);
                    if i == 0 && gg == g {
                        assert(y == b);
                        assert(ty.len() == 0);
                    }
                }
                match known {
                    Some(new_inv_coset_repr) => {
                        let ghost tz = new_inv_coset_repr@;
                        let subgroup_generator = inv_coset_repr.inverse().compose(&gen).compose(
                            &new_inv_coset_repr,
                        );
                        let ghost sg = subgroup_generator@;
                        proof {
                            assert(self.transversal_inv@[z] is Some);
                            assert(generated(gens, tz));
                            crate::perm::lemma_inverse_seq(ty);
                            crate::perm::lemma_compose_seq(inverse_seq(ty), gg);
                            crate::perm::lemma_compose_seq(compose_seq(inverse_seq(ty), gg), tz);
                            lemma_generated_inverse(gens, ty);
                            lemma_generated_compose(gens, inverse_seq(ty), gg);
                            lemma_generated_compose(gens, compose_seq(inverse_seq(ty), gg), tz);
                            assert(apply(sg, b) == b);
                            assert forall|f: int| fixed.insert(b).contains(f) implies #[trigger] apply(sg, f) == f by {
                                if f != b {
                                    crate::perm::lemma_apply_inverse(ty, f);
                                }
                            }
                            // at the base point, the gen sifts to this Schreier gen
                            if i == 0 && gg == g {
                                assert(inverse_seq(ty) =~= Seq::<PermIndex>::empty());
                                assert(compose_seq(inverse_seq(ty), gg) =~= gg);
                            }
                        }
                        match subgroup_generator.nonfix_index() {
                            Some(non_fixpoint) => {
                                let ghost level0 = *self;
                                let mut subgroup = match self.stab_subgroup.take() {
                                    Some(sub) => *sub,
                                    None => PermutationGroup::new(non_fixpoint),
                                };
                                let ghost before = subgroup;
                                proof {
                                    assert(apply(sg, non_fixpoint as int) != non_fixpoint as int);
                                    assert(!fixed.insert(b).contains(non_fixpoint as int));
                                }
                                subgroup.extend_at(subgroup_generator, Ghost(fixed.insert(b)), Ghost(gens));
                                self.stab_subgroup = Some(Box::new(subgroup));
                                proof {
                                    assert(self.transversal_inv == level0.transversal_inv);
                                    assert(self.generators == level0.generators);
                                    assert(self.sound(gens));
                                    assert forall|q: Seq<PermIndex>| #[trigger] level0.contains_spec(q) implies self.contains_spec(q) by {
                                        let x = apply(q, b);
                                        if 0 <= x < self.transversal_inv@.len() && self.transversal_inv@[x] is Some {
                                            let q2 = compose_seq(q, self.transversal_inv@[x].unwrap()@);
                                            if level0.stab_subgroup is Some {
                                                assert(before.contains_spec(q2));
                                            } else {
                                                subgroup.lemma_contains_identity(fixed.insert(b), q2);
                                            }
                                        }
                                    }
                                    if i == 0 && gg == g {
                                        assert(compose_seq(gg, tz) == sg);
                                    }
                                }
                            },
                            None => {
                                proof {
                                    if i == 0 && gg == g {
                                        assert(compose_seq(gg, tz) == sg);
                                        match &self.stab_subgroup {
                                            Some(sub) => {
                                                sub.lemma_contains_identity(fixed.insert(b), sg);
                                            },
                                            None => {},
                                        }
                                    }
                                }
                            },
                        }
                    },
                    None => {
                        let translated_inv_coset_repr = gen_inv.compose(&inv_coset_repr);
                        let ghost tn = translated_inv_coset_repr@;
                        let ghost old_level = *self;
                        proof {
                            crate::perm::lemma_compose_seq(inverse_seq(gg), ty);
                            lemma_generated_inverse(gens, gg);
                            lemma_generated_compose(gens, inverse_seq(gg), ty);
                            assert(generated(gens, tn));
                            assert(apply(tn, z) == b);
                            assert forall|f: int| fixed.contains(f) implies #[trigger] apply(tn, f) == f by {
                                assert(apply(inverse_seq(gg), f) == f);
                            }
                            assert(!self.orbits@.contains(new_orbit));
                            lemma_orbit_room(self.orbits@, new_orbit);
                        }
                        let len0 = self.transversal_inv.len();
                        while self.transversal_inv.len() <= new_orbit as usize
                            invariant
                                self.transversal_inv@.len() <= z + 1 || self.transversal_inv@.len() == len0,
                                len0 == old_level.transversal_inv@.len(),
                                z == new_orbit as int,
                                old_level.transversal_inv@.len() <= self.transversal_inv@.len(),
                                forall|x: int| 0 <= x < old_level.transversal_inv@.len() ==> #[trigger] self.transversal_inv@[x] == old_level.transversal_inv@[x],
                                forall|x: int| old_level.transversal_inv@.len() <= x < self.transversal_inv@.len() ==> #[trigger] self.transversal_inv@[x] is None,
                                self.stab_point == old_level.stab_point,
                                self.stab_subgroup == old_level.stab_subgroup,
                                self.orbits == old_level.orbits,
                                self.generators == old_level.generators,
                            decreases 0x10000 - self.transversal_inv@.len(),
                        {
                            self.transversal_inv.push(None);
                        }
                        self.transversal_inv.set(new_orbit as usize, Some(translated_inv_coset_repr));
                        self.orbits.push(new_orbit);
                        proof {
                            assert forall|k: int| 0 <= k < self.orbits@.len() implies (#[trigger] self.orbits@[k]) < self.transversal_inv@.len() && self.transversal_inv@[self.orbits@[k] as int] is Some by {
                                if k < old_level.orbits@.len() {
                                    assert(self.orbits@[k] == old_level.orbits@[k]);
                                }
                            }
                            assert forall|x: int| 0 <= x < self.transversal_inv@.len() implies (#[trigger] self.transversal_inv@[x] matches Some(t) ==> t.wf() && apply(t@, x) == b && fixes_all(t@, fixed)) by {
                                if x != z && x < old_level.transversal_inv@.len() {
                                    assert(self.transversal_inv@[x] == old_level.transversal_inv@[x]);
                                }
                            }
                            assert(self.transversal_inv@[b] == old_level.transversal_inv@[b]);
                            assert(self.orbits@.no_duplicates()) by {
                                assert forall|k1: int, k2: int| 0 <= k1 < self.orbits@.len() && 0 <= k2 < self.orbits@.len() && k1 != k2 implies self.orbits@[k1] != self.orbits@[k2] by {
                                    if k1 < old_level.orbits@.len() && k2 < old_level.orbits@.len() {
                                        assert(old_level.orbits@[k1] != old_level.orbits@[k2]);
                                    } else if k1 < old_level.orbits@.len() {
                                        assert(old_level.orbits@.contains(self.orbits@[k1]));
                                    } else if k2 < old_level.orbits@.len() {
                                        assert(old_level.orbits@.contains(self.orbits@[k2]));
                                    }
                                }
                            }
                            assert(self.orbits@[0] == old_level.orbits@[0]);
                            assert forall|x: int| 0 <= x < self.transversal_inv@.len() implies (#[trigger] self.transversal_inv@[x] matches Some(t) ==> generated(gens, t@)) by {
                                if x != z && x < old_level.transversal_inv@.len() {
                                    assert(self.transversal_inv@[x] == old_level.transversal_inv@[x]);
                                }
                            }
                            assert(self.sound(gens));
                            assert(self.wf_at(fixed));
                            assert forall|q: Seq<PermIndex>| #[trigger] old_level.contains_spec(q) implies self.contains_spec(q) by {
                                let x = apply(q, b);
                                if 0 <= x < old_level.transversal_inv@.len() && old_level.transversal_inv@[x] is Some {
                                    assert(x != z);
                                    assert(self.transversal_inv@[x] == old_level.transversal_inv@[x]);
                                }
                            }
                            if i == 0 && gg == g {
                                let q2 = compose_seq(gg, tn);
                                crate::perm::lemma_compose_seq(gg, tn);
                                assert(is_identity_seq(q2)) by {
                                    assert forall|k: int| 0 <= k < q2.len() implies #[trigger] q2[k] as int == k by {
                                        assert(apply(q2, k) == apply(tn, apply(gg, k)));
                                        crate::perm::lemma_apply_inverse(gg, k);
                                    }
                                }
                                match &self.stab_subgroup {
                                    Some(sub) => {
                                        sub.lemma_contains_identity(fixed.insert(b), q2);
                                    },
                                    None => {},
                                }
                            }
                        }
                    },
                }
                proof {
                    assert forall|q: Seq<PermIndex>| #[trigger] old(self).contains_spec(q) implies self.contains_spec(q) by {
                        assert(start_k.contains_spec(q));
                    }
                    if i == 0 && k as int == kstart {
                        assert(self.contains_spec(g));
                    } else if i > 0 || k > kstart {
                        assert(start_k.contains_spec(g));
                    }
                    assert(start_k.orbits@.len() <= self.orbits@.len());
                    assert forall|a: int| 0 <= a < start_k.orbits@.len() implies #[trigger] self.orbits@[a] == start_k.orbits@[a] by {}
                    assert forall|z: int| start_k.in_orbit(z) implies #[trigger] self.in_orbit(z) by {}
                    assert(self.in_orbit(z));
                    assert forall|a: int, m: int|
                        0 <= a < n_old && 0 <= m < gl.len() - 1 implies self.in_orbit(
                            apply(#[trigger] gl[m]@, #[trigger] self.orbits@[a] as int),
                        ) by {
                        assert(start_k.in_orbit(apply(gl[m]@, start_k.orbits@[a] as int)));
                    }
                    assert forall|a: int, m: int|
                        0 <= a < i && 0 <= m < gl.len() implies self.in_orbit(
                            apply(#[trigger] gl[m]@, #[trigger] self.orbits@[a] as int),
                        ) by {
                        assert(start_k.in_orbit(apply(gl[m]@, start_k.orbits@[a] as int)));
                    }
                    assert forall|m: int| kstart <= m < k + 1 implies self.in_orbit(apply(#[trigger] gl[m]@, oi as int)) by {
                        if m < k {
                            assert(start_k.in_orbit(apply(gl[m]@, oi as int)));
                        }
                    }
                }
                k = k + 1;
            }
            i = i + 1;
        }
        proof {
            assert(self.gens() =~= old(self).gens().push(generator@));
        }
    }

    /// Adds `generator` to the group; it is then a member, and every former
    /// member stays one. A generator that is already a member changes
    /// nothing; any other is appended to the generators.
    pub fn extend(&mut self, generator: Permutation)
        requires
            old(self).wf(),
            generator.wf(),
        ensures
            final(self).wf(),
            final(self).contains_spec(generator@),
            forall|q: Seq<PermIndex>| #[trigger] old(self).contains_spec(q) ==> final(self).contains_spec(q),
            old(self).contains_spec(generator@) ==> *final(self) == *old(self),
            !old(self).contains_spec(generator@) ==> final(self).gens() == old(self).gens().push(generator@),
            forall|p: Seq<PermIndex>|
                is_perm(p) && #[trigger] final(self).contains_spec(p) ==> generated(
                    old(self).gens().push(generator@),
                    p,
                ),
    {
        let ghost gens = old(self).gens().push(generator@);
        proof {
            old(self).lemma_sound_push(old(self).gens(), generator@);
            lemma_generated_gen(gens, gens.len() - 1);
            assert(gens[gens.len() - 1] == generator@);
            assert forall|k: int| 0 <= k < gens.len() implies is_perm(#[trigger] gens[k]) by {
                if k < old(self).gens().len() {
                    assert(gens[k] == old(self).gens()[k]);
                }
            }
        }
        let ghost g = generator@;
        self.extend_at(generator, Ghost(Set::empty()), Ghost(gens));
        proof {
            assert forall|p: Seq<PermIndex>| is_perm(p) && #[trigger] self.contains_spec(p) implies generated(gens, p) by {
                self.lemma_contains_generated(Set::empty(), gens, p);
            }
        }
    }
}


impl PermutationGroup {
    /// The generators added at this level of the chain.
    pub fn generators(&self) -> (r: &Vec<Permutation>)
        requires
            self.wf(),
        ensures
            forall|k: int| 0 <= k < r@.len() ==> (#[trigger] r@[k]).wf(),
    {
        &self.generators
    }
}

} // verus!
