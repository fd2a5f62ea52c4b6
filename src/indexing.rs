use vstd::prelude::*;

use crate::byaddr::TermByAddress;
use crate::term::{Term, embeds, node_count, subterm_at};

verus! {

/// Label table of a pattern: entry `i` gives the labels of the two children
/// of the pattern subterms that carry label `i + 1`; leaves carry label 0.
pub open spec fn table_wf(t: Seq<(usize, usize)>) -> bool {
    &&& forall|i: int| 0 <= i < t.len() ==> (#[trigger] t[i]).0 <= i && t[i].1 <= i
    &&& forall|i: int, j: int|
        0 <= i < t.len() && 0 <= j < t.len() && i != j ==> #[trigger] t[i] != #[trigger] t[j]
}

/// The pattern subterm that label `c` stands for.
pub open spec fn shape(t: Seq<(usize, usize)>, c: int) -> Term
    decreases c,
{
    if 1 <= c <= t.len() && t[c - 1].0 < c && t[c - 1].1 < c {
        Term::Operation(
            Box::new(shape(t, t[c - 1].0 as int)),
            Box::new(shape(t, t[c - 1].1 as int)),
        )
    } else {
        Term::Variable
    }
}

/// The pattern `p` is a branch that overlays the subterm of `t` at `q`.
pub open spec fn match_at(p: Term, t: Term, q: Seq<bool>) -> bool {
    &&& p is Operation
    &&& subterm_at(t, q) matches Some(s) && embeds(p, s)
}

/// The match sites of `p` in `t`, in the order of a bottom-up left-to-right
/// walk, each written as `pre` followed by its path inside `t`.
pub open spec fn sites(p: Term, t: Term, pre: Seq<bool>) -> Seq<Seq<bool>>
    decreases t,
{
    match t {
        Term::Variable => Seq::empty(),
        Term::Operation(l, r) => sites(p, *l, pre.push(false)) + sites(p, *r, pre.push(true)) + (
        if p is Operation && embeds(p, t) {
            seq![pre]
        } else {
            Seq::empty()
        }),
    }
}

proof fn lemma_shape_prefix_one(t1: Seq<(usize, usize)>, t2: Seq<(usize, usize)>, c: int)
    requires
        t1.len() <= t2.len(),
        t2.subrange(0, t1.len() as int) == t1,
        0 <= c <= t1.len(),
    ensures
        shape(t2, c) == shape(t1, c),
    decreases c,
{
    if 1 <= c {
        assert(t2[c - 1] == t1[c - 1]);
        if t1[c - 1].0 < c && t1[c - 1].1 < c {
            lemma_shape_prefix_one(t1, t2, t1[c - 1].0 as int);
            lemma_shape_prefix_one(t1, t2, t1[c - 1].1 as int);
        }
    }
}

/// Labels of a table keep their shape when the table grows.
proof fn lemma_shape_prefix(t1: Seq<(usize, usize)>, t2: Seq<(usize, usize)>)
    requires
        t1.len() <= t2.len(),
        t2.subrange(0, t1.len() as int) == t1,
    ensures
        forall|c: int| 0 <= c <= t1.len() ==> #[trigger] shape(t2, c) == shape(t1, c),
{
    assert forall|c: int| 0 <= c <= t1.len() implies #[trigger] shape(t2, c) == shape(t1, c) by {
        lemma_shape_prefix_one(t1, t2, c);
    }
}

/// Distinct labels stand for distinct shapes.
pub proof fn lemma_shape_injective(t: Seq<(usize, usize)>, c1: int, c2: int)
    requires
        table_wf(t),
        0 <= c1 <= t.len(),
        0 <= c2 <= t.len(),
        shape(t, c1) == shape(t, c2),
    ensures
        c1 == c2,
    decreases c1 + c2,
{
    if c1 >= 1 {
        assert(t[c1 - 1].0 <= c1 - 1);
    }
    if c2 >= 1 {
        assert(t[c2 - 1].0 <= c2 - 1);
    }
    if c1 >= 1 && c2 >= 1 {
        lemma_shape_injective(t, t[c1 - 1].0 as int, t[c2 - 1].0 as int);
        lemma_shape_injective(t, t[c1 - 1].1 as int, t[c2 - 1].1 as int);
        assert(t[c1 - 1] == t[c2 - 1]);
    }
}

/// Every site that the walk reports lies under `pre` and admits an embedding
/// of the pattern.
pub proof fn lemma_sites_sound(p: Term, t: Term, pre: Seq<bool>, k: int)
    requires
        0 <= k < sites(p, t, pre).len(),
    ensures
        exists|q: Seq<bool>| sites(p, t, pre)[k] == pre + q && match_at(p, t, q),
    decreases t,
{
    match t {
        Term::Variable => {},
        Term::Operation(l, r) => {
            let sl = sites(p, *l, pre.push(false));
            let sr = sites(p, *r, pre.push(true));
            let s = sites(p, t, pre);
            if k < sl.len() {
                lemma_sites_sound(p, *l, pre.push(false), k);
                let q = choose|q: Seq<bool>| sl[k] == pre.push(false) + q && match_at(p, *l, q);
                let q2 = seq![false] + q;
                assert(q2.drop_first() =~= q);
                assert(pre.push(false) + q =~= pre + q2);
                assert(s[k] == sl[k]);
                assert(match_at(p, t, q2));
            } else if k < sl.len() + sr.len() {
                lemma_sites_sound(p, *r, pre.push(true), k - sl.len());
                let q = choose|q: Seq<bool>|
                    sr[k - sl.len()] == pre.push(true) + q && match_at(p, *r, q);
                let q2 = seq![true] + q;
                assert(q2.drop_first() =~= q);
                assert(pre.push(true) + q =~= pre + q2);
                assert(s[k] == sr[k - sl.len()]);
                assert(match_at(p, t, q2));
            } else {
                let q2 = Seq::<bool>::empty();
                assert(pre + q2 =~= pre);
                assert(s[k] == pre);
                assert(match_at(p, t, q2));
            }
        },
    }
}

/// Every embedding of the pattern at a branch of `t` is reported.
pub proof fn lemma_sites_complete(p: Term, t: Term, pre: Seq<bool>, q: Seq<bool>)
    requires
        match_at(p, t, q),
    ensures
        sites(p, t, pre).contains(pre + q),
    decreases q.len(),
{
    let s = sites(p, t, pre);
    if q.len() == 0 {
        assert(pre + q =~= pre);
        match t {
            Term::Variable => {},
            Term::Operation(l, r) => {
                assert(s[s.len() - 1] == pre);
            },
        }
    } else {
        match t {
            Term::Variable => {},
            Term::Operation(l, r) => {
                let sl = sites(p, *l, pre.push(false));
                let sr = sites(p, *r, pre.push(true));
                if q[0] {
                    lemma_sites_complete(p, *r, pre.push(true), q.drop_first());
                    assert(pre.push(true) + q.drop_first() =~= pre + q);
                    let k = choose|k: int| 0 <= k < sr.len() && sr[k] == pre + q;
                    assert(s[sl.len() + k] == sr[k]);
                } else {
                    lemma_sites_complete(p, *l, pre.push(false), q.drop_first());
                    assert(pre.push(false) + q.drop_first() =~= pre + q);
                    let k = choose|k: int| 0 <= k < sl.len() && sl[k] == pre + q;
                    assert(s[k] == sl[k]);
                }
            },
        }
    }
}

/// No site is reported twice.
pub proof fn lemma_sites_unique(p: Term, t: Term, pre: Seq<bool>)
    ensures
        sites(p, t, pre).no_duplicates(),
    decreases t,
{
    match t {
        Term::Variable => {},
        Term::Operation(l, r) => {
            let pl = pre.push(false);
            let pr = pre.push(true);
            let sl = sites(p, *l, pl);
            let sr = sites(p, *r, pr);
            let s = sites(p, t, pre);
            lemma_sites_unique(p, *l, pl);
            lemma_sites_unique(p, *r, pr);
            assert forall|i: int, j: int| 0 <= i < s.len() && 0 <= j < s.len() && i != j implies s[i]
                != s[j] by {
                assert forall|k: int| 0 <= k < sl.len() implies (#[trigger] sl[k]).len() > pre.len()
                    && sl[k][pre.len() as int] == false by {
                    lemma_sites_sound(p, *l, pl, k);
                    let q = choose|q: Seq<bool>| sl[k] == pl + q && match_at(p, *l, q);
                    assert((pl + q)[pre.len() as int] == pl[pre.len() as int]);
                }
                assert forall|k: int| 0 <= k < sr.len() implies (#[trigger] sr[k]).len() > pre.len()
                    && sr[k][pre.len() as int] == true by {
                    lemma_sites_sound(p, *r, pr, k);
                    let q = choose|q: Seq<bool>| sr[k] == pr + q && match_at(p, *r, q);
                    assert((pr + q)[pre.len() as int] == pr[pre.len() as int]);
                }
                if i < sl.len() && j < sl.len() {
                    assert(s[i] == sl[i] && s[j] == sl[j]);
                } else if i >= sl.len() && j >= sl.len() && i < sl.len() + sr.len() && j < sl.len()
                    + sr.len() {
                    assert(s[i] == sr[i - sl.len()] && s[j] == sr[j - sl.len()]);
                } else if i < sl.len() && j < sl.len() + sr.len() {
                    assert(s[i] == sl[i] && s[j] == sr[j - sl.len()]);
                    assert(s[i][pre.len() as int] != s[j][pre.len() as int]);
                } else if j < sl.len() && i < sl.len() + sr.len() {
                    assert(s[j] == sl[j] && s[i] == sr[i - sl.len()]);
                    assert(s[i][pre.len() as int] != s[j][pre.len() as int]);
                } else if i < sl.len() {
                    assert(s[i] == sl[i]);
                    assert(s[j] == pre);
                } else if i < sl.len() + sr.len() {
                    assert(s[i] == sr[i - sl.len()]);
                    assert(s[j] == pre);
                } else if j < sl.len() {
                    assert(s[j] == sl[j]);
                    assert(s[i] == pre);
                } else {
                    assert(s[j] == sr[j - sl.len()]);
                    assert(s[i] == pre);
                }
            }
        },
    }
}

/// The label table of a pattern: each distinct branch shape of the pattern
/// gets a positive label, in the order in which a bottom-up walk first meets
/// it; leaves carry label 0.
pub struct TermIndexing {
    table: Vec<(usize, usize)>,
}

impl View for TermIndexing {
    type V = Seq<(usize, usize)>;

    closed spec fn view(&self) -> Seq<(usize, usize)> {
        self.table@
    }
}

fn lookup(table: &Vec<(usize, usize)>, a: usize, b: usize) -> (r: Option<usize>)
    ensures
        r matches Some(i) ==> i < table@.len() && table@[i as int] == (a, b),
        r is None ==> forall|i: int| 0 <= i < table@.len() ==> #[trigger] table@[i] != (a, b),
{
    let mut i: usize = 0;
    while i < table.len()
        invariant
            i <= table@.len(),
            forall|j: int| 0 <= j < i ==> #[trigger] table@[j] != (a, b),
        decreases table@.len() - i,
    {
        if table[i].0 == a && table[i].1 == b {
            return Some(i);
        }
        i = i + 1;
    }
    None
}

/// The labels added while labelling a branch are shapes of its subterms,
/// and every branch subterm gets a label.
proof fn lemma_cover_branch(
    l: Term,
    r: Term,
    t0: Seq<(usize, usize)>,
    t1: Seq<(usize, usize)>,
    t2: Seq<(usize, usize)>,
    tf: Seq<(usize, usize)>,
    root: int,
)
    requires
        t0.len() <= t1.len() <= t2.len() <= tf.len(),
        forall|c: int| 0 <= c <= t1.len() ==> #[trigger] shape(tf, c) == shape(t1, c),
        forall|c: int| 0 <= c <= t2.len() ==> #[trigger] shape(tf, c) == shape(t2, c),
        forall|c: int| t0.len() < c <= t1.len() ==> exists|q: Seq<bool>| subterm_at(l, q) == Some(#[trigger] shape(t1, c)),
        forall|c: int| t1.len() < c <= t2.len() ==> exists|q: Seq<bool>| subterm_at(r, q) == Some(#[trigger] shape(t2, c)),
        forall|q: Seq<bool>|
            #[trigger] subterm_at(l, q) is Some && subterm_at(l, q).unwrap() is Operation ==> exists|c: int|
                1 <= c <= t1.len() && shape(t1, c) == subterm_at(l, q).unwrap(),
        forall|q: Seq<bool>|
            #[trigger] subterm_at(r, q) is Some && subterm_at(r, q).unwrap() is Operation ==> exists|c: int|
                1 <= c <= t2.len() && shape(t2, c) == subterm_at(r, q).unwrap(),
        forall|c: int| t2.len() < c <= tf.len() ==> #[trigger] shape(tf, c) == Term::Operation(Box::new(l), Box::new(r)),
        1 <= root <= tf.len(),
        shape(tf, root) == Term::Operation(Box::new(l), Box::new(r)),
    ensures
        forall|c: int| t0.len() < c <= tf.len() ==> exists|q: Seq<bool>|
            subterm_at(Term::Operation(Box::new(l), Box::new(r)), q) == Some(#[trigger] shape(tf, c)),
        forall|q: Seq<bool>|
            #[trigger] subterm_at(Term::Operation(Box::new(l), Box::new(r)), q) is Some && subterm_at(Term::Operation(Box::new(l), Box::new(r)), q).unwrap() is Operation ==> exists|c: int|
                1 <= c <= tf.len() && shape(tf, c) == subterm_at(Term::Operation(Box::new(l), Box::new(r)), q).unwrap(),
{
    let t = Term::Operation(Box::new(l), Box::new(r));
    assert forall|c: int| t0.len() < c <= tf.len() implies exists|q: Seq<bool>|
        subterm_at(t, q) == Some(#[trigger] shape(tf, c)) by {
        if c <= t1.len() {
            let q = choose|q: Seq<bool>| subterm_at(l, q) == Some(#[trigger] shape(t1, c));
            let q2 = seq![false] + q;
            assert(q2.drop_first() =~= q);
            assert(subterm_at(t, q2) == Some(shape(tf, c)));
        } else if c <= t2.len() {
            let q = choose|q: Seq<bool>| subterm_at(r, q) == Some(#[trigger] shape(t2, c));
            let q2 = seq![true] + q;
            assert(q2.drop_first() =~= q);
            assert(subterm_at(t, q2) == Some(shape(tf, c)));
        } else {
            assert(subterm_at(t, Seq::<bool>::empty()) == Some(shape(tf, c)));
        }
    }
    assert forall|q: Seq<bool>|
        #[trigger] subterm_at(t, q) is Some && subterm_at(t, q).unwrap() is Operation implies exists|c: int|
            1 <= c <= tf.len() && shape(tf, c) == subterm_at(t, q).unwrap() by {
        let st = subterm_at(t, q).unwrap();
        if q.len() == 0 {
            assert(shape(tf, root) == st);
        } else if q[0] {
            assert(subterm_at(r, q.drop_first()) == Some(st));
            let c = choose|c: int| 1 <= c <= t2.len() && shape(t2, c) == subterm_at(r, q.drop_first()).unwrap();
            assert(shape(tf, c) == st);
        } else {
            assert(subterm_at(l, q.drop_first()) == Some(st));
            let c = choose|c: int| 1 <= c <= t1.len() && shape(t1, c) == subterm_at(l, q.drop_first()).unwrap();
            assert(shape(tf, c) == st);
        }
    }
}

/// Labels `t` bottom-up, adding to `table` each branch shape not yet in it.
#[verifier::rlimit(60)]
fn label_term(t: &Term, table: &mut Vec<(usize, usize)>) -> (r: usize)
    requires
        table_wf(old(table)@),
    ensures
        table_wf(final(table)@),
        old(table)@.len() <= final(table)@.len(),
        final(table)@.subrange(0, old(table)@.len() as int) == old(table)@,
        r <= final(table)@.len(),
        t is Variable ==> final(table)@ == old(table)@,
        shape(final(table)@, r as int) == *t,
        forall|i: int|
            old(table)@.len() <= i < final(table)@.len() ==> node_count(
                #[trigger] shape(final(table)@, i + 1),
            ) <= node_count(*t),
        t is Operation && (forall|i: int|
            0 <= i < old(table)@.len() ==> node_count(#[trigger] shape(old(table)@, i + 1))
                < node_count(*t)) ==> r == final(table)@.len(),
        forall|c: int|
            old(table)@.len() < c <= final(table)@.len() ==> exists|q: Seq<bool>|
                subterm_at(*t, q) == Some(#[trigger] shape(final(table)@, c)),
        forall|q: Seq<bool>|
            #[trigger] subterm_at(*t, q) is Some && subterm_at(*t, q).unwrap() is Operation ==> exists|c: int|
                1 <= c <= final(table)@.len() && shape(final(table)@, c) == subterm_at(*t, q).unwrap(),
    decreases t,
{
    match t {
        Term::Variable => {
            assert(table@.subrange(0, table@.len() as int) =~= table@);
            assert forall|q: Seq<bool>| #[trigger] subterm_at(*t, q) is Some && subterm_at(*t, q).unwrap() is Operation implies exists|c: int|
                1 <= c <= table@.len() && shape(table@, c) == subterm_at(*t, q).unwrap() by {
                if q.len() > 0 {
                    assert(subterm_at(*t, q) is None);
                }
            }
            0
        },
        Term::Operation(l, r) => {
            let ghost t0 = table@;
            let la = label_term(l, table);
            let ghost t1 = table@;
            let lb = label_term(r, table);
            let ghost t2 = table@;
            proof {
                lemma_shape_prefix(t1, t2);
                lemma_shape_prefix(t0, t1);
                assert forall|i: int| 0 <= i < t0.len() implies #[trigger] t2[i] == t0[i] by {
                    assert(t2.subrange(0, t1.len() as int)[i] == t1[i]);
                    assert(t1.subrange(0, t0.len() as int)[i] == t0[i]);
                }
                assert(t2.subrange(0, t0.len() as int) =~= t0);
                lemma_shape_prefix(t0, t2);
                assert(shape(t2, la as int) == **l);
            }
            let n = table.len();
            match lookup(table, la, lb) {
                Some(i) => {
                    proof {
                        assert(t2.subrange(0, t2.len() as int) =~= t2);
                        assert(shape(t2, i + 1) == *t);
                        if t is Operation && (forall|i: int|
                            0 <= i < t0.len() ==> node_count(#[trigger] shape(t0, i + 1))
                                < node_count(*t)) {
                            if i < t0.len() {
                                assert(shape(t2, i + 1) == shape(t0, i + 1));
                            } else if i < t1.len() {
                                assert(shape(t2, i + 1) == shape(t1, i + 1));
                            }
                            assert(false);
                        }
                        lemma_cover_branch(**l, **r, t0, t1, t2, t2, i + 1);
                    }
                    i + 1
                },
                None => {
                    table.push((la, lb));
                    let ghost t3 = table@;
                    proof {
                        assert(t3.subrange(0, t2.len() as int) =~= t2);
                        lemma_shape_prefix(t2, t3);
                        assert(t3.subrange(0, t0.len() as int) =~= t0);
                        assert(t3[t3.len() - 1] == (la, lb));
                        assert(shape(t3, la as int) == shape(t2, la as int));
                        assert(shape(t3, lb as int) == shape(t2, lb as int));
                        assert(shape(t3, t3.len() as int) == *t);
                        assert forall|i: int| t0.len() <= i < t3.len() implies node_count(
                            #[trigger] shape(t3, i + 1),
                        ) <= node_count(*t) by {
                            if i < t1.len() {
                                assert(shape(t3, i + 1) == shape(t1, i + 1));
                            } else if i < t2.len() {
                                assert(shape(t3, i + 1) == shape(t2, i + 1));
                            }
                        }
                        assert(t3.subrange(0, t1.len() as int) =~= t1);
                        lemma_shape_prefix(t1, t3);
                        lemma_cover_branch(**l, **r, t0, t1, t2, t3, t3.len() as int);
                    }
                    table.len()
                },
            }
        },
    }
}

impl TermIndexing {
    /// Number of branch labels.
    pub fn len(&self) -> (r: usize)
        ensures
            r == self@.len(),
    {
        self.table.len()
    }

    /// Builds the label table of `pattern`: one label for each distinct
    /// branch subterm, and nothing else.
    pub fn from(pattern: &Term) -> (r: TermIndexing)
        ensures
            table_wf(r@),
            pattern is Operation ==> shape(r@, r@.len() as int) == *pattern,
            pattern is Variable ==> r@.len() == 0,
            forall|c1: int, c2: int|
                0 <= c1 <= r@.len() && 0 <= c2 <= r@.len() && #[trigger] shape(r@, c1) == #[trigger] shape(r@, c2)
                    ==> c1 == c2,
            forall|c: int|
                1 <= c <= r@.len() ==> exists|q: Seq<bool>| subterm_at(*pattern, q) == Some(#[trigger] shape(r@, c)),
            forall|q: Seq<bool>|
                #[trigger] subterm_at(*pattern, q) is Some && subterm_at(*pattern, q).unwrap() is Operation ==> exists|c: int|
                    1 <= c <= r@.len() && shape(r@, c) == subterm_at(*pattern, q).unwrap(),
    {
        let mut table: Vec<(usize, usize)> = Vec::new();
        let root = label_term(pattern, &mut table);
        proof {
            assert forall|c1: int, c2: int|
                0 <= c1 <= table@.len() && 0 <= c2 <= table@.len() && #[trigger] shape(table@, c1) == #[trigger] shape(table@, c2)
                implies c1 == c2 by {
                lemma_shape_injective(table@, c1, c2);
            }
            if pattern is Variable {
                assert(table@.len() == 0);
            }
        }
        TermIndexing { table }
    }
}

/// A pattern with its label table, ready to find its embeddings in hosts.
pub struct IndexedTerm {
    term: Term,
    index: TermIndexing,
}

impl IndexedTerm {
    /// The pattern and its table agree.
    pub closed spec fn wf(&self) -> bool {
        &&& table_wf(self.index@)
        &&& self.term is Operation ==> shape(self.index@, self.index@.len() as int) == self.term
        &&& self.term is Variable ==> self.index@.len() == 0
    }

    /// The pattern.
    pub closed spec fn pattern(&self) -> Term {
        self.term
    }

    pub fn from(term: Term) -> (r: IndexedTerm)
        ensures
            r.wf(),
            r.pattern() == term,
    {
        let index = TermIndexing::from(&term);
        IndexedTerm { term, index }
    }

    pub fn term(&self) -> (r: &Term)
        ensures
            *r == self.pattern(),
    {
        &self.term
    }

    /// Labels `t` with the set of pattern labels whose shape embeds at `t`,
    /// and appends the match sites inside `t` to `out`.
    fn match_rec(&self, t: &Term, path: &mut Vec<bool>, out: &mut Vec<TermByAddress>) -> (r: Vec<
        bool,
    >)
        requires
            self.wf(),
        ensures
            final(path)@ == old(path)@,
            final(out)@.map_values(|a: TermByAddress| a@) == old(out)@.map_values(
                |a: TermByAddress| a@,
            ) + sites(self.term, *t, old(path)@),
            r@.len() == self.index@.len() + 1,
            forall|c: int| 0 <= c <= self.index@.len() ==> #[trigger] r@[c] == embeds(
                shape(self.index@, c),
                *t,
            ),
        decreases t,
    {
        let k = self.index.table.len();
        let ghost tab = self.index@;
        let mut labels: Vec<bool> = Vec::new();
        labels.push(true);
        let mut i: usize = 0;
        while i < k
            invariant
                i <= k,
                k == tab.len(),
                labels@.len() == i + 1,
                labels@[0],
                forall|c: int| 1 <= c <= i ==> !#[trigger] labels@[c],
            decreases k - i,
        {
            labels.push(false);
            i = i + 1;
        }
        match t {
            Term::Variable => {
                proof {
                    assert(out@.map_values(|a: TermByAddress| a@) =~= out@.map_values(
                        |a: TermByAddress| a@,
                    ) + sites(self.term, *t, path@));
                }
                labels
            },
            Term::Operation(l, r) => {
                let ghost base = path@;
                let ghost o0 = out@.map_values(|a: TermByAddress| a@);
                let ghost sl = sites(self.term, **l, base.push(false));
                let ghost sr = sites(self.term, **r, base.push(true));
                path.push(false);
                let left = self.match_rec(l, path, out);
                path.pop();
                proof {
                    assert(path@ =~= base);
                }
                path.push(true);
                let right = self.match_rec(r, path, out);
                path.pop();
                proof {
                    assert(path@ =~= base);
                }
                let mut j: usize = 0;
                while j < k
                    invariant
                        j <= k,
                        k == tab.len(),
                        *t == Term::Operation(*l, *r),
                        tab == self.index@,
                        table_wf(tab),
                        k == self.index.table@.len(),
                        labels@.len() == k + 1,
                        labels@[0],
                        left@.len() == k + 1,
                        right@.len() == k + 1,
                        forall|c: int| 0 <= c <= k ==> #[trigger] left@[c] == embeds(shape(tab, c), **l),
                        forall|c: int| 0 <= c <= k ==> #[trigger] right@[c] == embeds(shape(tab, c), **r),
                        forall|c: int| 1 <= c <= j ==> #[trigger] labels@[c] == embeds(shape(tab, c), *t),
                        forall|c: int| j < c <= k ==> !#[trigger] labels@[c],
                    decreases k - j,
                {
                    let (a, b) = self.index.table[j];
                    if left[a] && right[b] {
                        labels.set(j + 1, true);
                    }
                    proof {
                        assert(tab[j as int] == (a, b));
                        assert(shape(tab, j + 1) == Term::Operation(
                            Box::new(shape(tab, a as int)),
                            Box::new(shape(tab, b as int)),
                        ));
                        assert(a <= j && b <= j);
                        assert(left@[a as int] == embeds(shape(tab, a as int), **l));
                        assert(right@[b as int] == embeds(shape(tab, b as int), **r));
                        assert(*t == Term::Operation(*l, *r));
                        assert(embeds(shape(tab, j + 1), *t) == (embeds(shape(tab, a as int), **l)
                            && embeds(shape(tab, b as int), **r)));
                        assert(labels@[j + 1] == embeds(shape(tab, j + 1), *t));
                    }
                    j = j + 1;
                }
                let ghost o1 = out@.map_values(|a: TermByAddress| a@);
                assert(o1 == o0 + sl + sr);
                if k > 0 && labels[k] {
                    let site = copy_path(path);
                    out.push(TermByAddress { path: site });
                    assert(out@.map_values(|a: TermByAddress| a@) =~= o1.push(base));
                } else {
                    assert(out@.map_values(|a: TermByAddress| a@) =~= o1);
                }
                proof {
                    assert(embeds(shape(tab, 0), *t));
                    let s = sites(self.term, *t, base);
                    if k > 0 {
                        assert(self.term is Operation);
                        assert(shape(tab, k as int) == self.term);
                    } else {
                        assert(self.term is Variable);
                    }
                    assert(out@.map_values(|a: TermByAddress| a@) =~= o0 + s);
                }
                labels
            },
        }
    }

    /// The match sites of the pattern in `host`, in the order of a bottom-up
    /// left-to-right walk: each branch of `host` that the pattern (a branch
    /// itself) overlays, once.
    pub fn matches(&self, host: &Term) -> (r: Vec<TermByAddress>)
        requires
            self.wf(),
        ensures
            r@.map_values(|a: TermByAddress| a@) == sites(self.pattern(), *host, Seq::empty()),
    {
        let mut out: Vec<TermByAddress> = Vec::new();
        let mut path: Vec<bool> = Vec::new();
        let _ = self.match_rec(host, &mut path, &mut out);
        proof {
            assert(out@.map_values(|a: TermByAddress| a@) =~= Seq::<Seq<bool>>::empty() + sites(
                self.term,
                *host,
                Seq::empty(),
            ));
        }
        out
    }
}

/// A copy of a path.
fn copy_path(p: &Vec<bool>) -> (r: Vec<bool>)
    ensures
        r@ == p@,
{
    let mut r: Vec<bool> = Vec::new();
    let mut i: usize = 0;
    while i < p.len()
        invariant
            i <= p@.len(),
            r@ == p@.subrange(0, i as int),
        decreases p@.len() - i,
    {
        r.push(p[i]);
        i = i + 1;
        assert(r@ =~= p@.subrange(0, i as int));
    }
    assert(p@.subrange(0, p@.len() as int) =~= p@);
    r
}

} // verus!
