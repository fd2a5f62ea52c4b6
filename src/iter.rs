use vstd::prelude::*;

use crate::term::{MAX_LEAVES, Term, leaf_count};

verus! {

/// Every binary tree with `n` leaves, in enumeration order: by the size of
/// the left subtree, then by the right subtree, then by the left subtree.
pub open spec fn trees(n: int) -> Seq<Term>
    decreases n, n + 1,
{
    if n <= 1 {
        seq![Term::Variable]
    } else {
        splits(n, n - 1)
    }
}

/// The trees with `n` leaves whose left subtree has at most `l` leaves.
pub open spec fn splits(n: int, l: int) -> Seq<Term>
    decreases n, l,
{
    if l <= 0 || n <= 1 || l >= n {
        Seq::empty()
    } else {
        splits(n, l - 1) + pairs(trees(l), trees(n - l), trees(n - l).len() as int)
    }
}

/// `Operation(a, b)` for the first `k` right trees `b`, each with every left
/// tree `a`.
pub open spec fn pairs(lefts: Seq<Term>, rights: Seq<Term>, k: int) -> Seq<Term>
    decreases k,
{
    if k <= 0 {
        Seq::empty()
    } else {
        pairs(lefts, rights, k - 1) + lefts.map_values(
            |a: Term| Term::Operation(Box::new(a), Box::new(rights[k - 1])),
        )
    }
}

proof fn lemma_pairs_leaves(lefts: Seq<Term>, rights: Seq<Term>, k: int, a: int, b: int)
    requires
        0 <= k <= rights.len(),
        forall|i: int| 0 <= i < lefts.len() ==> leaf_count(#[trigger] lefts[i]) == a,
        forall|i: int| 0 <= i < rights.len() ==> leaf_count(#[trigger] rights[i]) == b,
    ensures
        forall|i: int|
            0 <= i < pairs(lefts, rights, k).len() ==> leaf_count(#[trigger] pairs(lefts, rights, k)[i])
                == a + b,
    decreases k,
{
    if k > 0 {
        lemma_pairs_leaves(lefts, rights, k - 1, a, b);
        let p = pairs(lefts, rights, k);
        let q = pairs(lefts, rights, k - 1);
        assert forall|i: int| 0 <= i < p.len() implies leaf_count(#[trigger] p[i]) == a + b by {
            if i >= q.len() {
                assert(p[i] == Term::Operation(Box::new(lefts[i - q.len()]), Box::new(rights[k - 1])));
            } else {
                assert(p[i] == q[i]);
            }
        }
    }
}

/// Every enumerated tree with `n` leaves has `n` leaves.
pub proof fn lemma_trees_leaves(n: int)
    ensures
        forall|i: int| 0 <= i < trees(n).len() ==> leaf_count(#[trigger] trees(n)[i]) == if n <= 1 {
            1
        } else {
            n
        },
    decreases n, n + 1,
{
    if n > 1 {
        lemma_splits_leaves(n, n - 1);
        assert(trees(n) == splits(n, n - 1));
    } else {
        assert(trees(n) == seq![Term::Variable]);
        assert(leaf_count(Term::Variable) == 1);
    }
}

proof fn lemma_splits_leaves(n: int, l: int)
    requires
        n > 1,
    ensures
        forall|i: int| 0 <= i < splits(n, l).len() ==> leaf_count(#[trigger] splits(n, l)[i]) == n,
    decreases n, l,
{
    if !(l <= 0 || l >= n) {
        lemma_splits_leaves(n, l - 1);
        lemma_trees_leaves(l);
        lemma_trees_leaves(n - l);
        lemma_pairs_leaves(trees(l), trees(n - l), trees(n - l).len() as int, l, n - l);
        let s = splits(n, l);
        let q = splits(n, l - 1);
        let p = pairs(trees(l), trees(n - l), trees(n - l).len() as int);
        assert forall|i: int| 0 <= i < s.len() implies leaf_count(#[trigger] s[i]) == n by {
            if i < q.len() {
                assert(s[i] == q[i]);
            } else {
                assert(s[i] == p[i - q.len()]);
            }
        }
    }
}

/// All trees with 1 to `n` leaves, by leaf count.
fn build_tables(n: usize) -> (r: Vec<Vec<Term>>)
    requires
        1 <= n <= MAX_LEAVES,
    ensures
        r@.len() == n + 1,
        forall|k: int| 1 <= k <= n ==> (#[trigger] r@[k])@ == trees(k),
{
    let mut tables: Vec<Vec<Term>> = Vec::new();
    tables.push(Vec::new());
    let mut one: Vec<Term> = Vec::new();
    one.push(Term::Variable);
    tables.push(one);
    proof {
        assert(tables@[1]@ =~= trees(1));
    }
    let mut k: usize = 2;
    while k <= n
        invariant
            2 <= k <= n + 1,
            n <= MAX_LEAVES,
            tables@.len() == k,
            forall|j: int| 1 <= j < k ==> (#[trigger] tables@[j])@ == trees(j),
        decreases n + 1 - k,
    {
        let mut out: Vec<Term> = Vec::new();
        let mut l: usize = 1;
        while l < k
            invariant
                1 <= l <= k,
                tables@.len() == k,
                forall|j: int| 1 <= j < k ==> (#[trigger] tables@[j])@ == trees(j),
                out@ == splits(k as int, l - 1),
            decreases k - l,
        {
            let lefts = &tables[l];
            let rights = &tables[k - l];
            let ghost lt = trees(l as int);
            let ghost rt = trees(k - l);
            let ghost before = out@;
            assert(lefts@ == lt);
            assert(rights@ == rt);
            let mut b: usize = 0;
            while b < rights.len()
                invariant
                    b <= rt.len(),
                    lefts@ == lt,
                    rights@ == rt,
                    out@ == before + pairs(lt, rt, b as int),
                decreases rt.len() - b,
            {
                let ghost mid = out@;
                let mut a: usize = 0;
                while a < lefts.len()
                    invariant
                        a <= lt.len(),
                        b < rt.len(),
                        lefts@ == lt,
                        rights@ == rt,
                        out@ == mid + lt.subrange(0, a as int).map_values(
                            |x: Term| Term::Operation(Box::new(x), Box::new(rt[b as int])),
                        ),
                    decreases lt.len() - a,
                {
                    out.push(Term::Operation(Box::new(lefts[a].copy()), Box::new(rights[b].copy())));
                    a = a + 1;
                    assert(out@ =~= mid + lt.subrange(0, a as int).map_values(
                        |x: Term| Term::Operation(Box::new(x), Box::new(rt[b as int])),
                    ));
                }
                proof {
                    assert(lt.subrange(0, lt.len() as int) =~= lt);
                    assert(out@ =~= before + pairs(lt, rt, b + 1));
                }
                b = b + 1;
            }
            proof {
                assert(out@ == splits(k as int, l as int));
            }
            l = l + 1;
        }
        tables.push(out);
        proof {
            assert(tables@[k as int]@ == trees(k as int));
            assert forall|j: int| 1 <= j < k + 1 implies (#[trigger] tables@[j])@ == trees(j) by {
            }
        }
        k = k + 1;
    }
    tables
}

/// The trees with a given number of leaves, handed out one at a time in
/// enumeration order.
pub struct TermIterator {
    items: Vec<Term>,
    next_index: usize,
    leaves: Ghost<int>,
}

impl TermIterator {
    /// What is left to hand out.
    pub closed spec fn remaining(&self) -> Seq<Term> {
        self.items@.subrange(self.next_index as int, self.items@.len() as int)
    }

    /// The leaf count of the trees enumerated.
    pub closed spec fn leaf_target(&self) -> int {
        self.leaves@
    }

    /// The iterator's bookkeeping is consistent.
    pub closed spec fn wf(&self) -> bool {
        self.next_index <= self.items@.len() && forall|i: int|
            0 <= i < self.items@.len() ==> leaf_count(#[trigger] self.items@[i]) == self.leaves@
    }

    /// Enumerates the trees with `leaves` leaves (one leaf for `0`).
    pub fn new(leaves: usize) -> (r: TermIterator)
        requires
            leaves <= MAX_LEAVES,
        ensures
            r.wf(),
            r.remaining() == trees(leaves as int),
            r.leaf_target() == if leaves <= 1 {
                1
            } else {
                leaves as int
            },
    {
        let n = if leaves <= 1 {
            1
        } else {
            leaves
        };
        let mut tables = build_tables(n);
        let mut items: Vec<Term> = Vec::new();
        tables.set_and_swap(n, &mut items);
        proof {
            lemma_trees_leaves(n as int);
            assert(items@.subrange(0, items@.len() as int) =~= items@);
        }
        TermIterator { items, next_index: 0, leaves: Ghost(n as int) }
    }

    /// The next tree, if any.
    pub fn next(&mut self) -> (r: Option<Term>)
        requires
            old(self).wf(),
        ensures
            final(self).wf(),
            final(self).leaf_target() == old(self).leaf_target(),
            old(self).remaining().len() == 0 ==> r is None && final(self).remaining() == old(self).remaining(),
            old(self).remaining().len() > 0 ==> r == Some(old(self).remaining()[0])
                && final(self).remaining() == old(self).remaining().drop_first(),
            r matches Some(t) ==> leaf_count(t) == old(self).leaf_target(),
    {
        if self.next_index < self.items.len() {
            let t = self.items[self.next_index].copy();
            self.next_index = self.next_index + 1;
            proof {
                assert(self.remaining() =~= old(self).remaining().drop_first());
            }
            Some(t)
        } else {
            None
        }
    }
}

} // verus!
