use vstd::prelude::*;

use crate::byaddr::TermByAddress;
use crate::maps::{MapView, TermMap, map_wf};
use crate::perm::{PermIndex, Permutation, apply, inverse_seq, is_perm};
use crate::term::{MAX_LEAVES, Term, embeds, leaf_count, subterm_at};

verus! {

/// Number of leaves of `t` that come before the subterm at `path`.
pub open spec fn leaves_before(t: Term, path: Seq<bool>) -> nat
    decreases path.len(),
{
    if path.len() == 0 {
        0
    } else {
        match t {
            Term::Variable => 0,
            Term::Operation(l, r) => if path[0] {
                leaf_count(*l) + leaves_before(*r, path.drop_first())
            } else {
                leaves_before(*l, path.drop_first())
            },
        }
    }
}

/// `t` with the subterm at `path` replaced by `new`.
pub open spec fn replace_at(t: Term, path: Seq<bool>, new: Term) -> Term
    decreases path.len(),
{
    if path.len() == 0 {
        new
    } else {
        match t {
            Term::Variable => t,
            Term::Operation(l, r) => if path[0] {
                Term::Operation(l, Box::new(replace_at(*r, path.drop_first(), new)))
            } else {
                Term::Operation(Box::new(replace_at(*l, path.drop_first(), new)), r)
            },
        }
    }
}

/// The subterms of `h` that the leaves of `p` fall on, left to right.
pub open spec fn embedded(p: Term, h: Term) -> Seq<Term>
    decreases p,
{
    match p {
        Term::Variable => seq![h],
        Term::Operation(a, b) => match h {
            Term::Variable => Seq::empty(),
            Term::Operation(c, d) => embedded(*a, *c) + embedded(*b, *d),
        },
    }
}

/// `r` with its leaves, numbered from `start`, replaced by `subs`.
pub open spec fn instantiate(r: Term, subs: Seq<Term>, start: int) -> Term
    decreases r,
{
    match r {
        Term::Variable => subs[start],
        Term::Operation(a, b) => Term::Operation(
            Box::new(instantiate(*a, subs, start)),
            Box::new(instantiate(*b, subs, start + leaf_count(*a))),
        ),
    }
}

/// The subterms placed on the leaves of the rule's right side: leaf `j` gets
/// what the left side's leaf `m⁻¹(j)` fell on.
pub open spec fn reordered(es: Seq<Term>, perm: Seq<PermIndex>) -> Seq<Term> {
    Seq::new(es.len(), |j: int| es[apply(inverse_seq(perm), j)])
}

/// The result of rewriting `h` at `path` with the map `m` from the rule's
/// left side to its right side.
pub open spec fn rewritten(h: Term, path: Seq<bool>, m: MapView) -> Term {
    let s = subterm_at(h, path).unwrap();
    replace_at(h, path, instantiate(m.target, reordered(embedded(m.source, s), m.perm), 0))
}

/// Total leaf count of `subs[a..b)`.
pub open spec fn ssum(subs: Seq<Term>, a: int, b: int) -> int
    decreases b - a,
{
    if b <= a {
        0
    } else {
        ssum(subs, a, b - 1) + leaf_count(subs[b - 1])
    }
}

/// The leaf positions of the rewritten region, listed in the order of the
/// right side's leaves: for right leaf `j`, the host positions of the
/// subterm it received.
pub open spec fn middle(es: Seq<Term>, inv: Seq<PermIndex>, off: int, j: int) -> Seq<PermIndex>
    decreases j,
{
    if j <= 0 {
        Seq::empty()
    } else {
        let i = apply(inv, j - 1);
        middle(es, inv, off, j - 1) + Seq::new(
            leaf_count(es[i]),
            |x: int| (off + ssum(es, 0, i) + x) as PermIndex,
        )
    }
}

/// For each leaf of the rewritten term, the host leaf it came from.
pub open spec fn backward_positions(h: Term, path: Seq<bool>, m: MapView) -> Seq<PermIndex> {
    let s = subterm_at(h, path).unwrap();
    let es = embedded(m.source, s);
    let off = leaves_before(h, path) as int;
    let n = leaf_count(h) as int;
    let t = leaf_count(s) as int;
    Seq::new(off as nat, |x: int| x as PermIndex) + middle(es, inverse_seq(m.perm), off, es.len() as int)
        + Seq::new((n - off - t) as nat, |x: int| (off + t + x) as PermIndex)
}

proof fn lemma_ssum_split(subs: Seq<Term>, a: int, b: int, c: int)
    requires
        a <= b <= c,
    ensures
        ssum(subs, a, b) + ssum(subs, b, c) == ssum(subs, a, c),
    decreases c - b,
{
    if b < c {
        lemma_ssum_split(subs, a, b, c - 1);
    }
}

proof fn lemma_ssum_nonneg(subs: Seq<Term>, a: int, b: int)
    ensures
        ssum(subs, a, b) >= 0,
        forall|x: int, y: int| a <= x <= y <= b ==> #[trigger] ssum(subs, a, x) <= #[trigger] ssum(subs, a, y),
    decreases b - a,
{
    if a < b {
        lemma_ssum_nonneg(subs, a, b - 1);
        assert forall|x: int, y: int| a <= x <= y <= b implies #[trigger] ssum(subs, a, x) <= #[trigger] ssum(
            subs,
            a,
            y,
        ) by {
            if y == b && x < b {
                assert(ssum(subs, a, x) <= ssum(subs, a, b - 1));
            }
        }
    }
}

proof fn lemma_ssum_ge0(subs: Seq<Term>, a: int, b: int)
    ensures
        ssum(subs, a, b) >= 0,
    decreases b - a,
{
    if a < b {
        lemma_ssum_ge0(subs, a, b - 1);
    }
}

proof fn lemma_ssum_ge_len(subs: Seq<Term>, a: int, b: int)
    requires
        a <= b,
    ensures
        ssum(subs, a, b) >= b - a,
    decreases b - a,
{
    if a < b {
        lemma_ssum_ge_len(subs, a, b - 1);
        lemma_leaf_count_pos(subs[b - 1]);
    }
}

proof fn lemma_leaf_count_pos(t: Term)
    ensures
        leaf_count(t) >= 1,
    decreases t,
{
    match t {
        Term::Variable => {},
        Term::Operation(l, r) => {
            lemma_leaf_count_pos(*l);
        },
    }
}

proof fn lemma_ssum_concat(x: Seq<Term>, y: Seq<Term>)
    ensures
        ssum(x + y, 0, (x.len() + y.len()) as int) == ssum(x, 0, x.len() as int) + ssum(y, 0, y.len() as int),
{
    lemma_ssum_split(x + y, 0, x.len() as int, (x.len() + y.len()) as int);
    lemma_ssum_prefix(x, y, x.len() as int);
    lemma_ssum_shift(x, y, y.len() as int);
}

proof fn lemma_ssum_prefix(x: Seq<Term>, y: Seq<Term>, b: int)
    requires
        0 <= b <= x.len(),
    ensures
        ssum(x + y, 0, b) == ssum(x, 0, b),
    decreases b,
{
    if b > 0 {
        lemma_ssum_prefix(x, y, b - 1);
        assert((x + y)[b - 1] == x[b - 1]);
    }
}

proof fn lemma_ssum_shift(x: Seq<Term>, y: Seq<Term>, b: int)
    requires
        0 <= b <= y.len(),
    ensures
        ssum(x + y, x.len() as int, x.len() + b) == ssum(y, 0, b),
    decreases b,
{
    if b > 0 {
        lemma_ssum_shift(x, y, b - 1);
        assert((x + y)[x.len() + b - 1] == y[b - 1]);
    }
}

/// The subterms that the pattern's leaves fall on: one per pattern leaf,
/// covering all leaves of the host subterm.
pub proof fn lemma_embedded(p: Term, h: Term)
    requires
        embeds(p, h),
    ensures
        embedded(p, h).len() == leaf_count(p),
        ssum(embedded(p, h), 0, leaf_count(p) as int) == leaf_count(h),
    decreases p,
{
    match p {
        Term::Variable => {
            assert(ssum(embedded(p, h), 0, 0) == 0);
        },
        Term::Operation(a, b) => match h {
            Term::Variable => {},
            Term::Operation(c, d) => {
                lemma_embedded(*a, *c);
                lemma_embedded(*b, *d);
                lemma_ssum_concat(embedded(*a, *c), embedded(*b, *d));
            },
        },
    }
}

/// Instantiating the leaves of `r` with `subs[start..]` gives as many leaves
/// as those subterms hold.
pub proof fn lemma_instantiate_count(r: Term, subs: Seq<Term>, start: int)
    requires
        0 <= start,
        start + leaf_count(r) <= subs.len(),
    ensures
        leaf_count(instantiate(r, subs, start)) == ssum(subs, start, start + leaf_count(r)),
    decreases r,
{
    match r {
        Term::Variable => {
            assert(ssum(subs, start, start) == 0);
        },
        Term::Operation(a, b) => {
            lemma_instantiate_count(*a, subs, start);
            lemma_instantiate_count(*b, subs, start + leaf_count(*a));
            lemma_ssum_split(subs, start, start + leaf_count(*a), start + leaf_count(r));
        },
    }
}

/// Replacing a subterm changes the leaf count by the difference.
pub proof fn lemma_replace_count(t: Term, path: Seq<bool>, new: Term)
    requires
        subterm_at(t, path) is Some,
    ensures
        leaf_count(replace_at(t, path, new)) + leaf_count(subterm_at(t, path).unwrap()) == leaf_count(
            t,
        ) + leaf_count(new),
        leaves_before(t, path) + leaf_count(subterm_at(t, path).unwrap()) <= leaf_count(t),
    decreases path.len(),
{
    if path.len() > 0 {
        match t {
            Term::Variable => {},
            Term::Operation(l, r) => {
                if path[0] {
                    lemma_replace_count(*r, path.drop_first(), new);
                } else {
                    lemma_replace_count(*l, path.drop_first(), new);
                }
            },
        }
    }
}

/// What the middle part holds: every value is a position of one block.
proof fn lemma_middle_members(es: Seq<Term>, inv: Seq<PermIndex>, off: int, j: int, y: int) -> (w: (
    int,
    int,
))
    requires
        0 <= j,
        0 <= y < middle(es, inv, off, j).len(),
    ensures
        0 <= w.0 < j,
        0 <= w.1 < leaf_count(es[apply(inv, w.0)]),
        middle(es, inv, off, j)[y] == (off + ssum(es, 0, apply(inv, w.0)) + w.1) as PermIndex,
    decreases j,
{
    let prev = middle(es, inv, off, j - 1);
    let i = apply(inv, j - 1);
    if y < prev.len() {
        let w = lemma_middle_members(es, inv, off, j - 1, y);
        assert(middle(es, inv, off, j)[y] == prev[y]);
        w
    } else {
        let x = y - prev.len();
        assert(middle(es, inv, off, j)[y] == (off + ssum(es, 0, i) + x) as PermIndex);
        (j - 1, x)
    }
}

/// The blocks of positions lie side by side, in order.
proof fn lemma_blocks_disjoint(es: Seq<Term>, i1: int, x1: int, i2: int, x2: int)
    requires
        0 <= i1 < es.len(),
        0 <= i2 < es.len(),
        0 <= x1 < leaf_count(es[i1]),
        0 <= x2 < leaf_count(es[i2]),
        ssum(es, 0, i1) + x1 == ssum(es, 0, i2) + x2,
    ensures
        i1 == i2 && x1 == x2,
{
    lemma_ssum_nonneg(es, 0, es.len() as int);
    if i1 < i2 {
        assert(ssum(es, 0, i1 + 1) <= ssum(es, 0, i2));
    } else if i2 < i1 {
        assert(ssum(es, 0, i2 + 1) <= ssum(es, 0, i1));
    }
}

/// The middle part lists each position of the region once, and nothing else.
proof fn lemma_middle_perm(es: Seq<Term>, perm: Seq<PermIndex>, off: int)
    requires
        is_perm(perm),
        perm.len() <= es.len(),
        0 <= off,
        off + ssum(es, 0, es.len() as int) <= 0x10000,
    ensures
        ({
            let m = middle(es, inverse_seq(perm), off, es.len() as int);
            &&& m.len() == ssum(es, 0, es.len() as int)
            &&& forall|y: int| 0 <= y < m.len() ==> off <= #[trigger] m[y] < off + m.len()
            &&& forall|y1: int, y2: int|
                0 <= y1 < m.len() && 0 <= y2 < m.len() && y1 != y2 ==> #[trigger] m[y1] != #[trigger] m[y2]
        }),
{
    let inv = inverse_seq(perm);
    let k = es.len() as int;
    let total = ssum(es, 0, k);
    crate::perm::lemma_inverse_seq(perm);
    crate::perm::lemma_apply_perm(inv);
    lemma_ssum_nonneg(es, 0, k);
    // every value lies in the region
    let m = middle(es, inv, off, k);
    assert forall|y: int| 0 <= y < m.len() implies off <= #[trigger] m[y] < off + total by {
        let (j2, x) = lemma_middle_members(es, inv, off, k, y);
        let i = apply(inv, j2);
        assert(0 <= i < k);
        lemma_ssum_split(es, 0, i, i + 1);
        assert(ssum(es, 0, i + 1) <= total);
        lemma_ssum_ge0(es, 0, i);
        assert(0 <= off + ssum(es, 0, i) + x < 0x10000);
    }
    // no value twice
    lemma_middle_injective(es, perm, off, k);
    // every position of the region is listed
    lemma_middle_len(es, inv, off, k);
    // hence as many values as positions
    let ms = m.map_values(|x: PermIndex| x as int);
    assert(ms.no_duplicates()) by {
        assert forall|a: int, b: int| 0 <= a < ms.len() && 0 <= b < ms.len() && a != b implies ms[a]
            != ms[b] by {
            assert(m[a] != m[b]);
        }
    }
    ms.unique_seq_to_set();
    vstd::set_lib::lemma_int_range(off, off + total);
    let r = vstd::set_lib::set_int_range(off, off + total);
    assert(ms.to_set() =~= r) by {
        assert forall|v: int| r.contains(v) implies ms.to_set().contains(v) by {
            let i = lemma_find_block(es, v - off, k);
            let j = apply(perm, i);
            crate::perm::lemma_apply_perm(perm);
            lemma_middle_has(es, inv, off, k, j, v - off - ssum(es, 0, i));
            assert(m.contains(v as PermIndex));
            let y = choose|y: int| 0 <= y < m.len() && m[y] == v as PermIndex;
            assert(ms[y] == v);
        }
        assert forall|v: int| ms.to_set().contains(v) implies r.contains(v) by {
            let y = choose|y: int| 0 <= y < ms.len() && ms[y] == v;
            assert(off <= m[y] < off + total);
        }
    }
}

proof fn lemma_middle_len(es: Seq<Term>, inv: Seq<PermIndex>, off: int, j: int)
    requires
        0 <= j <= es.len(),
    ensures
        middle(es, inv, off, j).len() == ssum(reordered_by(es, inv), 0, j),
    decreases j,
{
    if j > 0 {
        lemma_middle_len(es, inv, off, j - 1);
    }
}

/// `es` read through `inv`, over every index.
pub open spec fn reordered_by(es: Seq<Term>, inv: Seq<PermIndex>) -> Seq<Term> {
    Seq::new(es.len(), |j: int| es[apply(inv, j)])
}

proof fn lemma_middle_injective(es: Seq<Term>, perm: Seq<PermIndex>, off: int, j: int)
    requires
        is_perm(perm),
        perm.len() <= es.len(),
        0 <= j <= es.len(),
        0 <= off,
        off + ssum(es, 0, es.len() as int) <= 0x10000,
    ensures
        ({
            let m = middle(es, inverse_seq(perm), off, j);
            forall|y1: int, y2: int|
                0 <= y1 < m.len() && 0 <= y2 < m.len() && y1 != y2 ==> #[trigger] m[y1] != #[trigger] m[y2]
        }),
    decreases j,
{
    let inv = inverse_seq(perm);
    let k = es.len() as int;
    if j > 0 {
        lemma_middle_injective(es, perm, off, j - 1);
        crate::perm::lemma_inverse_seq(perm);
        crate::perm::lemma_apply_perm(inv);
        lemma_ssum_nonneg(es, 0, k);
        let m = middle(es, inv, off, j);
        let prev = middle(es, inv, off, j - 1);
        let i = apply(inv, j - 1);
        assert(0 <= i < k);
        lemma_ssum_split(es, 0, i, i + 1);
        assert forall|y1: int, y2: int|
            0 <= y1 < m.len() && 0 <= y2 < m.len() && y1 != y2 implies #[trigger] m[y1] != #[trigger] m[y2] by {
            if y1 < prev.len() && y2 < prev.len() {
                assert(m[y1] == prev[y1] && m[y2] == prev[y2]);
            } else if y1 >= prev.len() && y2 >= prev.len() {
                lemma_ssum_ge0(es, 0, i);
                assert(ssum(es, 0, i + 1) <= ssum(es, 0, k));
                assert(m[y1] == (off + ssum(es, 0, i) + (y1 - prev.len())) as PermIndex);
                assert(m[y2] == (off + ssum(es, 0, i) + (y2 - prev.len())) as PermIndex);
            } else {
                let (ya, yb) = if y1 < prev.len() {
                    (y1, y2)
                } else {
                    (y2, y1)
                };
                assert(m[ya] == prev[ya]);
                let (j2, x) = lemma_middle_members(es, inv, off, j - 1, ya);
                let i2 = apply(inv, j2);
                assert(0 <= i2 < k);
                lemma_ssum_split(es, 0, i2, i2 + 1);
                assert(ssum(es, 0, i2 + 1) <= ssum(es, 0, k));
                assert(ssum(es, 0, i + 1) <= ssum(es, 0, k));
                let xb = yb - prev.len();
                assert(0 <= xb < leaf_count(es[i]));
                lemma_ssum_ge0(es, 0, i);
                lemma_ssum_ge0(es, 0, i2);
                assert(m[yb] == (off + ssum(es, 0, i) + xb) as PermIndex);
                assert(0 <= off + ssum(es, 0, i) + xb < 0x10000);
                assert(0 <= off + ssum(es, 0, i2) + x < 0x10000);
                if m[ya] == m[yb] {
                    lemma_blocks_disjoint(es, i2, x, i, xb);
                }
            }
        }
    }
}

/// Every offset of the region lies in some block.
proof fn lemma_find_block(es: Seq<Term>, v: int, k: int) -> (i: int)
    requires
        0 <= k <= es.len(),
        0 <= v < ssum(es, 0, k),
    ensures
        0 <= i < k,
        ssum(es, 0, i) <= v < ssum(es, 0, i) + leaf_count(es[i]),
    decreases k,
{
    if v >= ssum(es, 0, k - 1) {
        k - 1
    } else {
        lemma_find_block(es, v, k - 1)
    }
}

proof fn lemma_middle_has(es: Seq<Term>, inv: Seq<PermIndex>, off: int, k: int, j: int, x: int)
    requires
        0 <= j < k,
        0 <= x < leaf_count(es[apply(inv, j)]),
    ensures
        middle(es, inv, off, k).contains((off + ssum(es, 0, apply(inv, j)) + x) as PermIndex),
    decreases k,
{
    let prev = middle(es, inv, off, k - 1);
    let m = middle(es, inv, off, k);
    if j < k - 1 {
        lemma_middle_has(es, inv, off, k - 1, j, x);
        let y = choose|y: int| 0 <= y < prev.len() && prev[y] == (off + ssum(es, 0, apply(inv, j))
            + x) as PermIndex;
        assert(m[y] == prev[y]);
    } else {
        assert(m[prev.len() + x] == (off + ssum(es, 0, apply(inv, j)) + x) as PermIndex);
    }
}

/// The positions of a rewrite step form a bijection of the host's leaves,
/// and the rewritten term has as many leaves as the host.
pub proof fn lemma_backward_perm(h: Term, path: Seq<bool>, m: MapView)
    requires
        map_wf(m),
        subterm_at(h, path) matches Some(s) && embeds(m.source, s),
        leaf_count(h) <= MAX_LEAVES,
    ensures
        is_perm(backward_positions(h, path, m)),
        backward_positions(h, path, m).len() == leaf_count(h),
        leaf_count(rewritten(h, path, m)) == leaf_count(h),
{
    let s = subterm_at(h, path).unwrap();
    let es = embedded(m.source, s);
    let k = es.len() as int;
    let off = leaves_before(h, path) as int;
    let n = leaf_count(h) as int;
    let t = leaf_count(s) as int;
    let inv = inverse_seq(m.perm);
    lemma_embedded(m.source, s);
    lemma_replace_count(h, path, instantiate(m.target, reordered(es, m.perm), 0));
    lemma_middle_perm(es, m.perm, off);
    lemma_middle_len(es, inv, off, k);
    assert(reordered(es, m.perm) =~= reordered_by(es, inv));
    lemma_instantiate_count(m.target, reordered(es, m.perm), 0);
    let mid = middle(es, inv, off, k);
    let b = backward_positions(h, path, m);
    let head = Seq::new(off as nat, |x: int| x as PermIndex);
    let tail = Seq::new((n - off - t) as nat, |x: int| (off + t + x) as PermIndex);
    assert(b == head + mid + tail);
    assert forall|y: int| 0 <= y < b.len() implies (#[trigger] b[y]) < b.len() && (y < off ==> b[y]
        as int == y) && (off <= y < off + t ==> off <= b[y] < off + t) && (off + t <= y ==> b[y]
        as int == y) by {
        if y < off {
            assert(b[y] == head[y]);
        } else if y < off + t {
            assert(b[y] == mid[y - off]);
        } else {
            assert(b[y] == tail[y - off - t]);
        }
    }
    assert forall|y1: int, y2: int|
        0 <= y1 < b.len() && 0 <= y2 < b.len() && y1 != y2 implies #[trigger] b[y1] != #[trigger] b[y2] by {
        if off <= y1 < off + t && off <= y2 < off + t {
            assert(b[y1] == mid[y1 - off]);
            assert(b[y2] == mid[y2 - off]);
        }
    }
}

/// The subterm of `t` at `path[i..]`.
fn subterm_ref<'a>(t: &'a Term, path: &Vec<bool>, i: usize) -> (r: &'a Term)
    requires
        i <= path@.len(),
        subterm_at(*t, path@.subrange(i as int, path@.len() as int)) is Some,
    ensures
        *r == subterm_at(*t, path@.subrange(i as int, path@.len() as int)).unwrap(),
    decreases path@.len() - i,
{
    let ghost rest = path@.subrange(i as int, path@.len() as int);
    if i == path.len() {
        t
    } else {
        proof {
            assert(rest.drop_first() =~= path@.subrange(i + 1, path@.len() as int));
        }
        match t {
            Term::Variable => t,
            Term::Operation(l, r) => if path[i] {
                subterm_ref(r, path, i + 1)
            } else {
                subterm_ref(l, path, i + 1)
            },
        }
    }
}

/// Number of leaves of `t` before the subterm at `path[i..]`.
fn count_before(t: &Term, path: &Vec<bool>, i: usize) -> (r: usize)
    requires
        i <= path@.len(),
        leaf_count(*t) <= MAX_LEAVES,
        subterm_at(*t, path@.subrange(i as int, path@.len() as int)) is Some,
    ensures
        r == leaves_before(*t, path@.subrange(i as int, path@.len() as int)),
    decreases path@.len() - i,
{
    let ghost rest = path@.subrange(i as int, path@.len() as int);
    proof {
        lemma_replace_count(*t, rest, Term::Variable);
    }
    if i == path.len() {
        0
    } else {
        proof {
            assert(rest.drop_first() =~= path@.subrange(i + 1, path@.len() as int));
        }
        match t {
            Term::Variable => 0,
            Term::Operation(l, r) => if path[i] {
                l.leaves() + count_before(r, path, i + 1)
            } else {
                count_before(l, path, i + 1)
            },
        }
    }
}

/// `t` with the subterm at `path[i..]` replaced by `new`.
fn replace_exec(t: &Term, path: &Vec<bool>, i: usize, new: Term) -> (r: Term)
    requires
        i <= path@.len(),
    ensures
        r == replace_at(*t, path@.subrange(i as int, path@.len() as int), new),
    decreases path@.len() - i,
{
    let ghost rest = path@.subrange(i as int, path@.len() as int);
    if i == path.len() {
        new
    } else {
        proof {
            assert(rest.drop_first() =~= path@.subrange(i + 1, path@.len() as int));
        }
        match t {
            Term::Variable => Term::Variable,
            Term::Operation(l, r) => if path[i] {
                Term::Operation(Box::new(l.copy()), Box::new(replace_exec(r, path, i + 1, new)))
            } else {
                Term::Operation(Box::new(replace_exec(l, path, i + 1, new)), Box::new(r.copy()))
            },
        }
    }
}

/// Appends copies of the subterms of `h` that the leaves of `p` fall on.
fn collect_embedded(p: &Term, h: &Term, out: &mut Vec<Term>)
    requires
        embeds(*p, *h),
    ensures
        final(out)@ == old(out)@ + embedded(*p, *h),
    decreases p,
{
    match p {
        Term::Variable => {
            out.push(h.copy());
            assert(out@ =~= old(out)@ + embedded(*p, *h));
        },
        Term::Operation(a, b) => match h {
            Term::Variable => {},
            Term::Operation(c, d) => {
                collect_embedded(a, c, out);
                collect_embedded(b, d, out);
                assert(out@ =~= old(out)@ + embedded(*p, *h));
            },
        },
    }
}

/// `r` with its leaves, numbered from `*start`, replaced by copies of `subs`.
fn instantiate_exec(r: &Term, subs: &Vec<Term>, start: &mut usize) -> (res: Term)
    requires
        *old(start) + leaf_count(*r) <= subs@.len(),
    ensures
        res == instantiate(*r, subs@, *old(start) as int),
        *final(start) == *old(start) + leaf_count(*r),
    decreases r,
{
    match r {
        Term::Variable => {
            let t = subs[*start].copy();
            let len = subs.len();
            *start = *start + 1;
            t
        },
        Term::Operation(a, b) => {
            let left = instantiate_exec(a, subs, start);
            let right = instantiate_exec(b, subs, start);
            Term::Operation(Box::new(left), Box::new(right))
        },
    }
}

impl Term {
    /// Rewrites the host at `match_root` with the rule map `map` (from the
    /// rule's left side, which must overlay the subterm there, to its right
    /// side). Returns the map from the host to the rewritten term: each host
    /// leaf goes to the leaf of the result that it became.
    pub fn substitute(&self, match_root: &TermByAddress, map: &TermMap) -> (r: TermMap)
        requires
            map.wf(),
            subterm_at(*self, match_root@) matches Some(s) && embeds(map@.source, s),
            leaf_count(*self) <= MAX_LEAVES,
        ensures
            r.wf(),
            r@.source == *self,
            r@.target == rewritten(*self, match_root@, map@),
            leaf_count(r@.target) == leaf_count(*self),
            r@.perm.len() == leaf_count(*self),
            r@.perm == inverse_seq(backward_positions(*self, match_root@, map@)),
    {
        let path = &match_root.path;
        let ghost m = map@;
        let ghost sp = subterm_at(*self, path@).unwrap();
        proof {
            assert(path@.subrange(0, path@.len() as int) =~= path@);
            lemma_backward_perm(*self, path@, m);
            lemma_embedded(m.source, sp);
            lemma_replace_count(*self, path@, Term::Variable);
        }
        let site = subterm_ref(self, path, 0);
        let n = self.leaves();
        let off = count_before(self, path, 0);
        let total = site.leaves();
        // the host subterms on the left side's leaves, and where each starts
        let mut es: Vec<Term> = Vec::new();
        collect_embedded(map.source(), site, &mut es);
        assert(es@ =~= embedded(m.source, sp));
        let k = es.len();
        let ghost ges = es@;
        proof {
            lemma_ssum_ge_len(ges, 0, k as int);
        }
        let mut starts: Vec<usize> = Vec::new();
        let mut acc: usize = 0;
        let mut i: usize = 0;
        while i < k
            invariant
                i <= k,
                k == ges.len(),
                es@ == ges,
                ssum(ges, 0, k as int) == total,
                total <= MAX_LEAVES,
                acc == ssum(ges, 0, i as int),
                starts@.len() == i,
                forall|j: int| 0 <= j < i ==> #[trigger] starts@[j] == ssum(ges, 0, j),
            decreases k - i,
        {
            proof {
                lemma_ssum_split(ges, 0, i as int, i + 1);
                lemma_ssum_split(ges, 0, i + 1, k as int);
                lemma_ssum_ge0(ges, i + 1, k as int);
            }
            starts.push(acc);
            acc = acc + es[i].leaves();
            i = i + 1;
        }
        // the subterms for the right side's leaves, and the region's positions
        let inv = map.perm().inverse();
        let ghost ginv = inv@;
        let mut subs: Vec<Term> = Vec::new();
        let mut back: Vec<PermIndex> = Vec::new();
        let mut x: usize = 0;
        while x < off
            invariant
                x <= off,
                off + total <= n <= MAX_LEAVES,
                back@ =~= Seq::new(x as nat, |y: int| y as PermIndex),
            decreases off - x,
        {
            back.push(x as PermIndex);
            x = x + 1;
        }
        proof {
            crate::perm::lemma_inverse_seq(m.perm);
            crate::perm::lemma_apply_perm(ginv);
            lemma_middle_perm(ges, m.perm, off as int);
        }
        let ghost head = back@;
        let mut j: usize = 0;
        while j < k
            invariant
                j <= k,
                k == ges.len(),
                es@ == ges,
                ginv == inv@,
                ginv == inverse_seq(m.perm),
                crate::perm::is_perm(ginv),
                ginv.len() <= k,
                m.perm.len() <= k,
                starts@.len() == k,
                forall|i: int| 0 <= i < k ==> #[trigger] starts@[i] == ssum(ges, 0, i),
                ssum(ges, 0, k as int) == total,
                off + total <= n <= MAX_LEAVES,
                k <= total,
                subs@.len() == j,
                forall|q: int| 0 <= q < j ==> #[trigger] subs@[q] == ges[apply(ginv, q)],
                back@ == head + middle(ges, ginv, off as int, j as int),
                middle(ges, ginv, off as int, k as int).len() == total,
                forall|y: int| 0 <= y < head.len() ==> #[trigger] head[y] as int == y,
                head.len() == off,
            decreases k - j,
        {
            proof {
                crate::perm::lemma_apply_perm(ginv);
            }
            let src = inv.get(j as PermIndex) as usize;
            proof {
                lemma_ssum_split(ges, 0, src as int, src + 1);
                lemma_ssum_split(ges, 0, src + 1, k as int);
                lemma_ssum_ge0(ges, src + 1, k as int);
                lemma_ssum_ge0(ges, 0, src as int);
            }
            subs.push(es[src].copy());
            let c = es[src].leaves();
            let base = off + starts[src];
            let ghost before = back@;
            let mut y: usize = 0;
            while y < c
                invariant
                    y <= c,
                    c == leaf_count(ges[src as int]),
                    base == off + ssum(ges, 0, src as int),
                    base + c <= off + total <= n <= MAX_LEAVES,
                    back@ == before + Seq::new(y as nat, |z: int| (base + z) as PermIndex),
                decreases c - y,
            {
                back.push((base + y) as PermIndex);
                y = y + 1;
                assert(back@ =~= before + Seq::new(y as nat, |z: int| (base + z) as PermIndex));
            }
            proof {
                assert(middle(ges, ginv, off as int, j + 1) =~= middle(ges, ginv, off as int, j as int)
                    + Seq::new(c as nat, |z: int| (base + z) as PermIndex));
                assert(back@ =~= head + middle(ges, ginv, off as int, j + 1));
            }
            j = j + 1;
        }
        let ghost upto = back@;
        let mut z: usize = off + total;
        while z < n
            invariant
                off + total <= z <= n <= MAX_LEAVES,
                back@ == upto + Seq::new((z - off - total) as nat, |y: int| (off + total + y) as PermIndex),
            decreases n - z,
        {
            back.push(z as PermIndex);
            z = z + 1;
            assert(back@ =~= upto + Seq::new((z - off - total) as nat, |y: int| (off + total + y) as PermIndex));
        }
        proof {
            assert(subs@ =~= reordered(ges, m.perm));
            assert(head =~= Seq::new(off as nat, |x: int| x as PermIndex));
            assert(back@ =~= backward_positions(*self, path@, m));
        }
        let mut start: usize = 0;
        let replacement = instantiate_exec(map.target(), &subs, &mut start);
        let result = replace_exec(self, path, 0, replacement);
        let backward = TermMap::new(result, self.copy(), Permutation::from(back));
        backward.into_backward()
    }
}

} // verus!
