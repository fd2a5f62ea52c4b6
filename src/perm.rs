use vstd::prelude::*;
use vstd::set_lib::{lemma_int_range, lemma_subset_equality, set_int_range};

verus! {

/// Index of a point moved by a permutation (a leaf position).
pub type PermIndex = u16;

/// Image of `i` under the permutation stored in `s`; indices past the end are
/// fixed.
pub open spec fn apply(s: Seq<PermIndex>, i: int) -> int {
    if 0 <= i < s.len() {
        s[i] as int
    } else {
        i
    }
}

/// `s` lists a bijection of `[0, s.len())` onto itself.
pub open spec fn is_perm(s: Seq<PermIndex>) -> bool {
    &&& s.len() <= 0x10000
    &&& forall|i: int| 0 <= i < s.len() ==> (#[trigger] s[i]) < s.len()
    &&& forall|i: int, j: int|
        0 <= i < s.len() && 0 <= j < s.len() && i != j ==> #[trigger] s[i] != #[trigger] s[j]
}

/// `a` followed by `b`: `i` goes to `b(a(i))`, over the longer of the two.
pub open spec fn compose_seq(a: Seq<PermIndex>, b: Seq<PermIndex>) -> Seq<PermIndex> {
    let n = if a.len() >= b.len() {
        a.len()
    } else {
        b.len()
    };
    Seq::new(n, |i: int| apply(b, apply(a, i)) as PermIndex)
}

/// The inverse of the bijection `s`: the point that `s` sends to each index.
pub open spec fn inverse_seq(s: Seq<PermIndex>) -> Seq<PermIndex> {
    Seq::new(s.len(), |v: int| (choose|k: int| 0 <= k < s.len() && s[k] as int == v) as PermIndex)
}

/// Every index of `s` is fixed.
pub open spec fn is_identity_seq(s: Seq<PermIndex>) -> bool {
    forall|i: int| 0 <= i < s.len() ==> #[trigger] s[i] as int == i
}

/// A permutation hits every index below its length.
pub proof fn lemma_perm_onto(s: Seq<PermIndex>, v: int)
    requires
        is_perm(s),
        0 <= v < s.len(),
    ensures
        exists|k: int| 0 <= k < s.len() && s[k] as int == v,
{
    let m = s.map_values(|x: PermIndex| x as int);
    assert(m.no_duplicates()) by {
        assert forall|i: int, j: int| 0 <= i < m.len() && 0 <= j < m.len() && i != j implies m[i]
            != m[j] by {
            assert(s[i] != s[j]);
        }
    }
    m.unique_seq_to_set();
    lemma_int_range(0, s.len() as int);
    let r = set_int_range(0, s.len() as int);
    assert(m.to_set().subset_of(r)) by {
        assert forall|x: int| m.to_set().contains(x) implies r.contains(x) by {
            let k = choose|k: int| 0 <= k < m.len() && m[k] == x;
            assert(s[k] < s.len());
        }
    }
    vstd::set_lib::lemma_len_subset(m.to_set(), r);
    lemma_subset_equality(m.to_set(), r);
    assert(r.contains(v));
    assert(m.to_set().contains(v));
    let k = choose|k: int| 0 <= k < m.len() && m[k] == v;
    assert(s[k] as int == v);
}

/// Facts about `apply` on a permutation: it stays below the length and is
/// injective on all indices.
pub proof fn lemma_apply_perm(s: Seq<PermIndex>)
    requires
        is_perm(s),
    ensures
        forall|i: int| 0 <= i < s.len() ==> 0 <= #[trigger] apply(s, i) < s.len(),
        forall|i: int| 0 <= i ==> 0 <= #[trigger] apply(s, i),
        forall|i: int, j: int|
            0 <= i && 0 <= j && #[trigger] apply(s, i) == #[trigger] apply(s, j) ==> i == j,
{
}

/// The inverse of a permutation is a permutation, and undoes it on both sides.
pub proof fn lemma_inverse_seq(s: Seq<PermIndex>)
    requires
        is_perm(s),
    ensures
        is_perm(inverse_seq(s)),
        inverse_seq(s).len() == s.len(),
        forall|k: int| 0 <= k < s.len() ==> inverse_seq(s)[s[k] as int] as int == k,
        forall|v: int| 0 <= v < s.len() ==> s[inverse_seq(s)[v] as int] as int == v,
{
    let t = inverse_seq(s);
    assert forall|v: int| 0 <= v < s.len() implies 0 <= #[trigger] t[v] < s.len() && s[t[v] as int]
        as int == v by {
        lemma_perm_onto(s, v);
        let k = choose|k: int| 0 <= k < s.len() && s[k] as int == v;
        assert(k < 0x10000);
    }
    assert forall|k: int| 0 <= k < s.len() implies t[s[k] as int] as int == k by {
        let v = s[k] as int;
        let k2 = t[v] as int;
        assert(s[k2] as int == v);
    }
    assert forall|i: int, j: int|
        0 <= i < t.len() && 0 <= j < t.len() && i != j implies #[trigger] t[i] != #[trigger] t[j] by {
        if t[i] == t[j] {
            assert(s[t[i] as int] as int == i);
            assert(s[t[j] as int] as int == j);
        }
    }
}

/// `apply` of the inverse undoes `apply`, on both sides.
pub proof fn lemma_apply_inverse(s: Seq<PermIndex>, y: int)
    requires
        is_perm(s),
        0 <= y,
    ensures
        apply(inverse_seq(s), apply(s, y)) == y,
        apply(s, apply(inverse_seq(s), y)) == y,
{
    lemma_inverse_seq(s);
}

/// Composing two permutations yields a permutation.
pub proof fn lemma_compose_seq(a: Seq<PermIndex>, b: Seq<PermIndex>)
    requires
        is_perm(a),
        is_perm(b),
    ensures
        is_perm(compose_seq(a, b)),
        forall|i: int| 0 <= i ==> #[trigger] apply(compose_seq(a, b), i) == apply(b, apply(a, i)),
{
    let c = compose_seq(a, b);
    lemma_apply_perm(a);
    lemma_apply_perm(b);
    assert forall|i: int| 0 <= i < c.len() implies (#[trigger] c[i]) < c.len() && c[i] as int
        == apply(b, apply(a, i)) by {
        let x = apply(a, i);
        assert(0 <= x < c.len());
        assert(0 <= apply(b, x) < c.len());
    }
    assert forall|i: int, j: int|
        0 <= i < c.len() && 0 <= j < c.len() && i != j implies #[trigger] c[i] != #[trigger] c[j] by {
        assert(c[i] as int == apply(b, apply(a, i)));
        assert(c[j] as int == apply(b, apply(a, j)));
    }
}

/// Composition of permutations is associative.
pub proof fn lemma_compose_assoc(a: Seq<PermIndex>, b: Seq<PermIndex>, c: Seq<PermIndex>)
    requires
        is_perm(a),
        is_perm(b),
        is_perm(c),
    ensures
        compose_seq(a, compose_seq(b, c)) == compose_seq(compose_seq(a, b), c),
{
    lemma_compose_seq(a, b);
    lemma_compose_seq(b, c);
    lemma_compose_seq(a, compose_seq(b, c));
    lemma_compose_seq(compose_seq(a, b), c);
    let l = compose_seq(a, compose_seq(b, c));
    let r = compose_seq(compose_seq(a, b), c);
    assert forall|i: int| 0 <= i < l.len() implies l[i] == r[i] by {
        assert(apply(l, i) == apply(r, i));
    }
    assert(l =~= r);
}

/// Inverting a permutation twice gives it back.
pub proof fn lemma_inverse_involutive(s: Seq<PermIndex>)
    requires
        is_perm(s),
    ensures
        inverse_seq(inverse_seq(s)) == s,
{
    let t = inverse_seq(s);
    lemma_inverse_seq(s);
    lemma_inverse_seq(t);
    let u = inverse_seq(t);
    assert forall|k: int| 0 <= k < s.len() implies u[k] == s[k] by {
        assert(t[s[k] as int] as int == k);
        assert(u[t[s[k] as int] as int] == s[k]);
    }
    assert(u =~= s);
}

/// A bijection of the leaf positions `[0, n)`, stored as the image of each
/// position; positions past the end are fixed.
pub struct Permutation {
    perm: Vec<PermIndex>,
}

impl View for Permutation {
    type V = Seq<PermIndex>;

    closed spec fn view(&self) -> Seq<PermIndex> {
        self.perm@
    }
}

impl Permutation {
    /// The permutation is a bijection of its positions.
    pub open spec fn wf(&self) -> bool {
        is_perm(self@)
    }

    /// Wraps an image vector that lists a bijection.
    pub fn from(perm: Vec<PermIndex>) -> (r: Permutation)
        requires
            is_perm(perm@),
        ensures
            r@ == perm@,
            r.wf(),
    {
        Permutation { perm }
    }

    /// The identity on `[0, n)`, stored in full.
    pub fn identity_of_len(n: usize) -> (r: Permutation)
        requires
            n <= 0x10000,
        ensures
            r@.len() == n,
            is_identity_seq(r@),
            r.wf(),
    {
        let mut v: Vec<PermIndex> = Vec::new();
        let mut i: usize = 0;
        while i < n
            invariant
                i <= n <= 0x10000,
                v@.len() == i,
                forall|k: int| 0 <= k < i ==> #[trigger] v@[k] as int == k,
            decreases n - i,
        {
            v.push(i as PermIndex);
            i = i + 1;
        }
        Permutation { perm: v }
    }

    /// A copy of this permutation.
    pub fn shallow_clone(&self) -> (r: Permutation)
        ensures
            r@ == self@,
    {
        let v = self.perm.clone();
        assert(v@ =~= self.perm@);
        Permutation { perm: v }
    }

    /// The first position that the permutation moves, if any.
    pub fn nonfix_index(&self) -> (r: Option<PermIndex>)
        requires
            self.wf(),
        ensures
            r is None <==> is_identity_seq(self@),
            r matches Some(i) ==> i < self@.len() && self@[i as int] as int != i as int && forall|
                j: int,
            | 0 <= j < i ==> #[trigger] self@[j] as int == j,
    {
        let mut i: usize = 0;
        while i < self.perm.len()
            invariant
                i <= self.perm@.len(),
                self.perm@.len() <= 0x10000,
                forall|j: int| 0 <= j < i ==> #[trigger] self.perm@[j] as int == j,
            decreases self.perm@.len() - i,
        {
            if self.perm[i] as usize != i {
                return Some(i as PermIndex);
            }
            i = i + 1;
        }
        None
    }

    /// Whether every position is fixed.
    pub fn is_identity(&self) -> (r: bool)
        requires
            self.wf(),
        ensures
            r == is_identity_seq(self@),
    {
        self.nonfix_index().is_none()
    }

    /// Number of positions stored.
    pub fn len(&self) -> (r: usize)
        ensures
            r == self@.len(),
    {
        self.perm.len()
    }

    /// The image of `index`.
    pub fn get(&self, index: PermIndex) -> (r: PermIndex)
        ensures
            r as int == apply(self@, index as int),
    {
        if (index as usize) >= self.perm.len() {
            index
        } else {
            self.perm[index as usize]
        }
    }

    /// The empty permutation, which fixes every position.
    pub fn identity() -> (r: Permutation)
        ensures
            r@.len() == 0,
            r.wf(),
    {
        Permutation { perm: Vec::new() }
    }

    /// The inverse bijection.
    pub fn inverse(&self) -> (r: Permutation)
        requires
            self.wf(),
        ensures
            r@ == inverse_seq(self@),
            r.wf(),
    {
        let n = self.perm.len();
        let mut inv: Vec<PermIndex> = Vec::new();
        let mut i: usize = 0;
        while i < n
            invariant
                i <= n,
                n == self.perm@.len(),
                inv@.len() == i,
            decreases n - i,
        {
            inv.push(0);
            i = i + 1;
        }
        let ghost s = self@;
        let mut k: usize = 0;
        while k < n
            invariant
                k <= n,
                n == s.len(),
                s == self@,
                is_perm(s),
                inv@.len() == n,
                forall|j: int| 0 <= j < k ==> #[trigger] inv@[s[j] as int] as int == j,
            decreases n - k,
        {
            let v = self.perm[k];
            inv.set(v as usize, k as PermIndex);
            assert forall|j: int| 0 <= j < k + 1 implies #[trigger] inv@[s[j] as int] as int == j by {
                if j < k {
                    assert(s[j] != s[k as int]);
                }
            }
            k = k + 1;
        }
        proof {
            lemma_inverse_seq(s);
            let t = inverse_seq(s);
            assert forall|v: int| 0 <= v < n implies inv@[v] == t[v] by {
                let j = t[v] as int;
                assert(s[j] as int == v);
                assert(inv@[s[j] as int] as int == j);
            }
            assert(inv@ =~= t);
        }
        Permutation { perm: inv }
    }

    /// `self` followed by `rhs`: position `i` goes to `rhs(self(i))`.
    pub fn compose(&self, rhs: &Permutation) -> (r: Permutation)
        requires
            self.wf(),
            rhs.wf(),
        ensures
            r@ == compose_seq(self@, rhs@),
            r.wf(),
    {
        let n = if self.perm.len() >= rhs.perm.len() {
            self.perm.len()
        } else {
            rhs.perm.len()
        };
        let mut v: Vec<PermIndex> = Vec::new();
        let mut i: usize = 0;
        proof {
            lemma_apply_perm(self@);
            lemma_apply_perm(rhs@);
        }
        while i < n
            invariant
                i <= n,
                n <= 0x10000,
                n == compose_seq(self@, rhs@).len(),
                self.wf(),
                rhs.wf(),
                v@.len() == i,
                forall|k: int| 0 <= k < i ==> #[trigger] v@[k] == compose_seq(self@, rhs@)[k],
            decreases n - i,
        {
            let x = self.get(i as PermIndex);
            let y = rhs.get(x);
            v.push(y);
            i = i + 1;
        }
        proof {
            lemma_compose_seq(self@, rhs@);
            assert(v@ =~= compose_seq(self@, rhs@));
        }
        Permutation { perm: v }
    }

    /// Replaces `self` with `self` followed by `rhs`.
    pub fn compose_assign(&mut self, rhs: &Permutation)
        requires
            old(self).wf(),
            rhs.wf(),
        ensures
            final(self)@ == compose_seq(old(self)@, rhs@),
            final(self).wf(),
    {
        let r = self.compose(rhs);
        *self = r;
    }
}

} // verus!
