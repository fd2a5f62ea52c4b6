use vstd::prelude::*;

use vstd::string::StringSliceAdditionalSpecFns;

use crate::maps::TermMap;
use crate::perm::{PermIndex, Permutation, is_perm};
use crate::term::{MAX_LEAVES, Term, leaf_count};

verus! {

/// A term whose leaves carry labels.
pub enum LabeledTerm<T> {
    Variable(T),
    Operation(Box<LabeledTerm<T>>, Box<LabeledTerm<T>>),
}

/// Why a rule text was refused.
#[derive(PartialEq, Eq, Structural, Debug, Clone, Copy)]
pub enum RuleError {
    /// The text does not follow the grammar.
    Parse,
    /// The two sides do not carry the same letters, each once.
    Shape,
    /// A side has more leaves than a leaf position can index.
    TooManyLeaves,
}

/// The unlabelled shape of `t`.
pub open spec fn skeleton_of<T>(t: LabeledTerm<T>) -> Term
    decreases t,
{
    match t {
        LabeledTerm::Variable(_) => Term::Variable,
        LabeledTerm::Operation(l, r) => Term::Operation(
            Box::new(skeleton_of(*l)),
            Box::new(skeleton_of(*r)),
        ),
    }
}

/// The leaf labels of `t`, left to right.
pub open spec fn labels_of<T>(t: LabeledTerm<T>) -> Seq<T>
    decreases t,
{
    match t {
        LabeledTerm::Variable(v) => seq![v],
        LabeledTerm::Operation(l, r) => labels_of(*l) + labels_of(*r),
    }
}

/// Whitespace, which the rule syntax ignores.
pub open spec fn is_space(b: u8) -> bool {
    b == 0x20 || b == 0x09 || b == 0x0a || b == 0x0d
}

/// A leaf letter.
pub open spec fn is_letter(b: u8) -> bool {
    (0x61 <= b <= 0x7a) || (0x41 <= b <= 0x5a)
}

/// `s` without whitespace.
pub open spec fn strip_spaces(s: Seq<u8>) -> Seq<u8>
    decreases s.len(),
{
    if s.len() == 0 {
        s
    } else {
        strip_spaces(s.drop_last()) + if is_space(s.last()) {
            Seq::empty()
        } else {
            seq![s.last()]
        }
    }
}

/// The grammar `expr := atom ('*' expr)?`, `atom := letter | '(' expr ')'`,
/// read from position `i`: the term and the position after it.
pub open spec fn parse_expr(s: Seq<u8>, i: int) -> Option<(LabeledTerm<char>, int)>
    decreases s.len() - i,
{
    if !(0 <= i < s.len()) {
        None
    } else {
        let left = if s[i] == 0x28 {
            match parse_expr(s, i + 1) {
                Some((t, j)) => if j < s.len() && s[j] == 0x29 {
                    Some((t, j + 1))
                } else {
                    None
                },
                None => None,
            }
        } else if is_letter(s[i]) {
            Some((LabeledTerm::Variable(s[i] as char), i + 1))
        } else {
            None
        };
        match left {
            Some((l, j)) => if i < j && j < s.len() && s[j] == 0x2a {
                match parse_expr(s, j + 1) {
                    Some((r, k)) => Some((LabeledTerm::Operation(Box::new(l), Box::new(r)), k)),
                    None => None,
                }
            } else {
                Some((l, j))
            },
            None => None,
        }
    }
}

/// The term that the whole of `s` (whitespace dropped) spells, if any.
pub open spec fn parse_spec(s: Seq<u8>) -> Option<LabeledTerm<char>> {
    let c = strip_spaces(s);
    match parse_expr(c, 0) {
        Some((t, n)) => if n == c.len() {
            Some(t)
        } else {
            None
        },
        None => None,
    }
}

/// A rule's two label lists carry the same letters, each once per side.
pub open spec fn same_letters(l: Seq<char>, r: Seq<char>) -> bool {
    &&& l.len() == r.len()
    &&& l.no_duplicates()
    &&& r.no_duplicates()
    &&& forall|i: int| 0 <= i < l.len() ==> r.contains(#[trigger] l[i])
}

proof fn lemma_parse_progress(s: Seq<u8>, i: int)
    ensures
        parse_expr(s, i) matches Some((t, j)) ==> i < j <= s.len(),
    decreases s.len() - i,
{
    if 0 <= i < s.len() {
        if s[i] == 0x28 {
            lemma_parse_progress(s, i + 1);
        }
        let left = if s[i] == 0x28 {
            match parse_expr(s, i + 1) {
                Some((t, j)) => if j < s.len() && s[j] == 0x29 {
                    Some((t, j + 1))
                } else {
                    None
                },
                None => None,
            }
        } else if is_letter(s[i]) {
            Some((LabeledTerm::Variable(s[i] as char), i + 1))
        } else {
            None
        };
        if let Some((l, j)) = left {
            if i < j && j < s.len() && s[j] == 0x2a {
                lemma_parse_progress(s, j + 1);
            }
        }
    }
}

proof fn lemma_labels_len<T>(t: LabeledTerm<T>)
    ensures
        labels_of(t).len() == leaf_count(skeleton_of(t)),
    decreases t,
{
    match t {
        LabeledTerm::Variable(_) => {},
        LabeledTerm::Operation(l, r) => {
            lemma_labels_len(*l);
            lemma_labels_len(*r);
        },
    }
}

impl<T> LabeledTerm<T> {
    /// The label of a leaf.
    pub fn label(&self) -> (r: Option<&T>)
        ensures
            match self {
                LabeledTerm::Variable(v) => r == Some(v),
                LabeledTerm::Operation(_, _) => r is None,
            },
    {
        match self {
            LabeledTerm::Variable(v) => Some(v),
            LabeledTerm::Operation(_, _) => None,
        }
    }

    /// The term without its labels.
    pub fn skeleton(&self) -> (r: Term)
        ensures
            r == skeleton_of(*self),
        decreases self,
    {
        match self {
            LabeledTerm::Variable(_) => Term::Variable,
            LabeledTerm::Operation(l, r) => Term::Operation(
                Box::new(l.skeleton()),
                Box::new(r.skeleton()),
            ),
        }
    }
}

/// Labels the leaves of `t` with the first labels of `labels`, removing them.
fn label_rec<T>(t: &Term, labels: &mut Vec<T>) -> (r: Option<LabeledTerm<T>>)
    ensures
        old(labels)@.len() >= leaf_count(*t) ==> (r matches Some(lt) && skeleton_of(lt) == *t
            && labels_of(lt) == old(labels)@.subrange(0, leaf_count(*t) as int) && final(labels)@
            == old(labels)@.subrange(leaf_count(*t) as int, old(labels)@.len() as int)),
        old(labels)@.len() < leaf_count(*t) ==> r is None,
    decreases t,
{
    match t {
        Term::Variable => {
            if labels.len() == 0 {
                None
            } else {
                let v = labels.remove(0);
                proof {
                    assert(seq![v] =~= old(labels)@.subrange(0, 1));
                    assert(labels@ =~= old(labels)@.subrange(1, old(labels)@.len() as int));
                }
                Some(LabeledTerm::Variable(v))
            }
        },
        Term::Operation(l, r) => {
            let ghost l0 = labels@;
            let left = label_rec(l, labels);
            match left {
                Some(a) => {
                    let ghost l1 = labels@;
                    let right = label_rec(r, labels);
                    match right {
                        Some(b) => {
                            proof {
                                let nl = leaf_count(**l) as int;
                                let nr = leaf_count(**r) as int;
                                assert(l0.subrange(0, nl) + l1.subrange(0, nr) =~= l0.subrange(0, nl + nr));
                                assert(labels@ =~= l0.subrange(nl + nr, l0.len() as int));
                            }
                            Some(LabeledTerm::Operation(Box::new(a), Box::new(b)))
                        },
                        None => None,
                    }
                },
                None => None,
            }
        },
    }
}

impl Term {
    /// The term with its leaves labelled, left to right, by `labels`; `None`
    /// when there are fewer labels than leaves.
    pub fn label<T>(&self, labels: Vec<T>) -> (r: Option<LabeledTerm<T>>)
        ensures
            labels@.len() >= leaf_count(*self) <==> r is Some,
            r matches Some(lt) ==> skeleton_of(lt) == *self && labels_of(lt) == labels@.subrange(
                0,
                leaf_count(*self) as int,
            ),
    {
        let mut labels = labels;
        label_rec(self, &mut labels)
    }

    /// The term with leaf `i` (left to right) labelled by `labeler(i)`.
    pub fn label_with<T, F: Fn(usize) -> T>(&self, labeler: F) -> (r: LabeledTerm<T>)
        requires
            leaf_count(*self) <= usize::MAX,
            forall|i: usize| labeler.requires((i,)),
        ensures
            skeleton_of(r) == *self,
            labels_of(r).len() == leaf_count(*self),
            forall|i: int|
                0 <= i < leaf_count(*self) ==> labeler.ensures((i as usize,), #[trigger] labels_of(r)[i]),
    {
        let mut count: usize = 0;
        label_with_rec(self, &labeler, &mut count)
    }
}

fn label_with_rec<T, F: Fn(usize) -> T>(t: &Term, labeler: &F, count: &mut usize) -> (r: LabeledTerm<T>)
    requires
        *old(count) + leaf_count(*t) <= usize::MAX,
        forall|i: usize| labeler.requires((i,)),
    ensures
        *final(count) == *old(count) + leaf_count(*t),
        skeleton_of(r) == *t,
        labels_of(r).len() == leaf_count(*t),
        forall|i: int|
            0 <= i < leaf_count(*t) ==> labeler.ensures(((*old(count) + i) as usize,), #[trigger] labels_of(r)[i]),
    decreases t,
{
    match t {
        Term::Variable => {
            let v = labeler(*count);
            *count = *count + 1;
            LabeledTerm::Variable(v)
        },
        Term::Operation(l, r) => {
            let c0 = *count;
            let a = label_with_rec(l, labeler, count);
            let b = label_with_rec(r, labeler, count);
            let res = LabeledTerm::Operation(Box::new(a), Box::new(b));
            proof {
                let nl = leaf_count(**l) as int;
                assert forall|i: int| 0 <= i < leaf_count(*t) implies labeler.ensures(((c0 + i) as usize,), #[trigger] labels_of(res)[i]) by {
                    if i < nl {
                        assert(labels_of(res)[i] == labels_of(a)[i]);
                    } else {
                        assert(labels_of(res)[i] == labels_of(b)[i - nl]);
                        assert((c0 + nl + (i - nl)) == c0 + i);
                    }
                }
            }
            res
        },
    }
}

/// Reads an expression of the rule grammar from position `i` of `s`.
fn parse_inner(s: &Vec<u8>, i: usize) -> (r: Option<(LabeledTerm<char>, usize)>)
    ensures
        match parse_expr(s@, i as int) {
            Some((t, j)) => r matches Some((t2, j2)) && t2 == t && j2 as int == j,
            None => r is None,
        },
    decreases s@.len() - i,
{
    proof {
        lemma_parse_progress(s@, i as int);
        lemma_parse_progress(s@, i + 1);
    }
    if i >= s.len() {
        return None;
    }
    let left = if s[i] == 0x28 {
        match parse_inner(s, i + 1) {
            Some((t, j)) => if j < s.len() && s[j] == 0x29 {
                Some((t, j + 1))
            } else {
                None
            },
            None => None,
        }
    } else if (0x61 <= s[i] && s[i] <= 0x7a) || (0x41 <= s[i] && s[i] <= 0x5a) {
        Some((LabeledTerm::Variable(s[i] as char), i + 1))
    } else {
        None
    };
    match left {
        Some((l, j)) => {
            if j < s.len() && s[j] == 0x2a {
                proof {
                    lemma_parse_progress(s@, j + 1);
                }
                match parse_inner(s, j + 1) {
                    Some((r, k)) => Some((LabeledTerm::Operation(Box::new(l), Box::new(r)), k)),
                    None => None,
                }
            } else {
                Some((l, j))
            }
        },
        None => None,
    }
}

/// Collects the leaf labels of `t`, left to right.
fn collect_labels(t: &LabeledTerm<char>, out: &mut Vec<char>)
    ensures
        final(out)@ == old(out)@ + labels_of(*t),
    decreases t,
{
    match t {
        LabeledTerm::Variable(v) => {
            out.push(*v);
            assert(out@ =~= old(out)@ + labels_of(*t));
        },
        LabeledTerm::Operation(l, r) => {
            collect_labels(l, out);
            collect_labels(r, out);
            assert(out@ =~= old(out)@ + labels_of(*t));
        },
    }
}

/// The first position of `c` in `v`, if any.
fn position_of(v: &Vec<char>, c: char) -> (r: Option<usize>)
    ensures
        r matches Some(k) ==> k < v@.len() && v@[k as int] == c && forall|j: int|
            0 <= j < k ==> #[trigger] v@[j] != c,
        r is None ==> !v@.contains(c),
{
    let mut k: usize = 0;
    while k < v.len()
        invariant
            k <= v@.len(),
            forall|j: int| 0 <= j < k ==> #[trigger] v@[j] != c,
        decreases v@.len() - k,
    {
        if v[k] == c {
            return Some(k);
        }
        k = k + 1;
    }
    None
}

/// Whether `v` holds no label twice.
fn all_distinct(v: &Vec<char>) -> (r: bool)
    ensures
        r == v@.no_duplicates(),
{
    let mut i: usize = 0;
    while i < v.len()
        invariant
            i <= v@.len(),
            forall|a: int, b: int| 0 <= a < b < v@.len() && a < i ==> v@[a] != v@[b],
        decreases v@.len() - i,
    {
        let mut j: usize = i + 1;
        while j < v.len()
            invariant
                i < v@.len(),
                i < j <= v@.len(),
                forall|a: int, b: int| 0 <= a < b < v@.len() && a < i ==> v@[a] != v@[b],
                forall|b: int| i < b < j ==> v@[i as int] != v@[b],
            decreases v@.len() - j,
        {
            if v[i] == v[j] {
                return false;
            }
            j = j + 1;
        }
        i = i + 1;
    }
    true
}

impl LabeledTerm<char> {
    /// Parses one side of a rule: letters, `*` (right-associative) and
    /// parentheses, with whitespace ignored.
    pub fn parse(input: &str) -> (r: Result<LabeledTerm<char>, RuleError>)
        ensures
            match parse_spec(input.spec_bytes()) {
                Some(t) => r == Ok::<LabeledTerm<char>, RuleError>(t),
                None => r == Err::<LabeledTerm<char>, RuleError>(RuleError::Parse),
            },
    {
        let bytes = input.as_bytes();
        let r = parse_range(bytes, 0, bytes.len());
        proof {
            assert(bytes@.subrange(0, bytes@.len() as int) =~= bytes@);
        }
        r
    }

    /// The map that a rule `self = target` stands for: leaf `i` of `self`
    /// goes to the leaf of `target` with the same letter.
    pub fn map_to(&self, target: &LabeledTerm<char>) -> (r: Result<TermMap, RuleError>)
        ensures
            (leaf_count(skeleton_of(*self)) > MAX_LEAVES || leaf_count(skeleton_of(*target))
                > MAX_LEAVES) ==> r == Err::<TermMap, RuleError>(RuleError::TooManyLeaves),
            (leaf_count(skeleton_of(*self)) <= MAX_LEAVES && leaf_count(skeleton_of(*target))
                <= MAX_LEAVES) ==> (r is Ok <==> same_letters(labels_of(*self), labels_of(*target))),
            (leaf_count(skeleton_of(*self)) <= MAX_LEAVES && leaf_count(skeleton_of(*target))
                <= MAX_LEAVES && !same_letters(labels_of(*self), labels_of(*target))) ==> r == Err::<
                TermMap,
                RuleError,
            >(RuleError::Shape),
            r matches Ok(m) ==> {
                &&& m.wf()
                &&& m@.source == skeleton_of(*self)
                &&& m@.target == skeleton_of(*target)
                &&& m@.perm.len() == labels_of(*self).len()
                &&& forall|i: int|
                    0 <= i < m@.perm.len() ==> labels_of(*target)[#[trigger] m@.perm[i] as int]
                        == labels_of(*self)[i]
            },
    {
        let mut source_labels: Vec<char> = Vec::new();
        collect_labels(self, &mut source_labels);
        let mut target_labels: Vec<char> = Vec::new();
        collect_labels(target, &mut target_labels);
        proof {
            assert(source_labels@ =~= labels_of(*self));
            assert(target_labels@ =~= labels_of(*target));
            lemma_labels_len(*self);
            lemma_labels_len(*target);
        }
        let n = source_labels.len();
        if n > MAX_LEAVES || target_labels.len() > MAX_LEAVES {
            return Err(RuleError::TooManyLeaves);
        }
        if n != target_labels.len() || !all_distinct(&source_labels) || !all_distinct(
            &target_labels,
        ) {
            return Err(RuleError::Shape);
        }
        let mut map: Vec<PermIndex> = Vec::new();
        let mut i: usize = 0;
        while i < n
            invariant
                i <= n <= MAX_LEAVES,
                n == source_labels@.len(),
                n == target_labels@.len(),
                source_labels@ == labels_of(*self),
                target_labels@ == labels_of(*target),
                source_labels@.no_duplicates(),
                target_labels@.no_duplicates(),
                labels_of(*self).len() == leaf_count(skeleton_of(*self)),
                labels_of(*target).len() == leaf_count(skeleton_of(*target)),
                map@.len() == i,
                forall|k: int| 0 <= k < i ==> #[trigger] map@[k] < n && target_labels@[map@[k] as int] == source_labels@[k],
                forall|k: int| 0 <= k < i ==> target_labels@.contains(#[trigger] source_labels@[k]),
            decreases n - i,
        {
            match position_of(&target_labels, source_labels[i]) {
                Some(k) => {
                    map.push(k as PermIndex);
                },
                None => {
                    proof {
                        assert(!same_letters(labels_of(*self), labels_of(*target)));
                    }
                    return Err(RuleError::Shape);
                },
            }
            i = i + 1;
        }
        proof {
            assert(is_perm(map@)) by {
                assert forall|a: int, b: int| 0 <= a < map@.len() && 0 <= b < map@.len() && a != b implies #[trigger] map@[a] != #[trigger] map@[b] by {
                    if map@[a] == map@[b] {
                        assert(source_labels@[a] == source_labels@[b]);
                    }
                }
            }
        }
        let perm = Permutation::from(map);
        Ok(TermMap::new(self.skeleton(), target.skeleton(), perm))
    }
}

/// Parses `bytes[lo..hi]` as one side of a rule.
fn parse_range(bytes: &[u8], lo: usize, hi: usize) -> (r: Result<LabeledTerm<char>, RuleError>)
    requires
        lo <= hi <= bytes@.len(),
    ensures
        match parse_spec(bytes@.subrange(lo as int, hi as int)) {
            Some(t) => r == Ok::<LabeledTerm<char>, RuleError>(t),
            None => r == Err::<LabeledTerm<char>, RuleError>(RuleError::Parse),
        },
{
    let ghost s = bytes@.subrange(lo as int, hi as int);
    let mut compact: Vec<u8> = Vec::new();
    let mut i: usize = lo;
    while i < hi
        invariant
            lo <= i <= hi <= bytes@.len(),
            s == bytes@.subrange(lo as int, hi as int),
            compact@ == strip_spaces(s.subrange(0, i - lo)),
        decreases hi - i,
    {
        let b = bytes[i];
        proof {
            assert(s.subrange(0, i - lo + 1).drop_last() =~= s.subrange(0, i - lo));
            assert(s[i - lo] == b);
        }
        if !(b == 0x20 || b == 0x09 || b == 0x0a || b == 0x0d) {
            compact.push(b);
        }
        i = i + 1;
        proof {
            assert(compact@ =~= strip_spaces(s.subrange(0, i - lo)));
        }
    }
    proof {
        assert(s.subrange(0, s.len() as int) =~= s);
    }
    match parse_inner(&compact, 0) {
        Some((t, n)) => if n == compact.len() {
            Ok(t)
        } else {
            Err(RuleError::Parse)
        },
        None => Err(RuleError::Parse),
    }
}

/// Position of the first `=` in `b`, or its length if there is none.
pub open spec fn first_eq(b: Seq<u8>) -> int
    decreases b.len(),
{
    if b.len() == 0 {
        0
    } else if first_eq(b.drop_last()) < b.len() - 1 {
        first_eq(b.drop_last())
    } else if b.last() == 0x3d {
        b.len() - 1
    } else {
        b.len() as int
    }
}

proof fn lemma_first_eq(b: Seq<u8>, e: int)
    requires
        0 <= e <= b.len(),
        forall|j: int| 0 <= j < e ==> b[j] != 0x3d,
        e < b.len() ==> b[e] == 0x3d,
    ensures
        first_eq(b) == e,
    decreases b.len(),
{
    if b.len() > 0 {
        if e < b.len() {
            if e < b.len() - 1 {
                lemma_first_eq(b.drop_last(), e);
            } else {
                lemma_first_eq(b.drop_last(), e);
            }
        } else {
            lemma_first_eq(b.drop_last(), e - 1);
        }
    }
}

/// Parses a rule `L = R` (split at the first `=`) and returns the map from
/// `L`'s leaves to `R`'s that its letters give.
pub fn parse_rule(text: &str) -> (r: Result<TermMap, RuleError>)
    ensures
        ({
            let b = text.spec_bytes();
            let e = first_eq(b);
            let ls = parse_spec(b.subrange(0, e));
            let rs = parse_spec(b.subrange(e + 1, b.len() as int));
            &&& e == b.len() ==> r == Err::<TermMap, RuleError>(RuleError::Parse)
            &&& e < b.len() && (ls is None || rs is None) ==> r == Err::<TermMap, RuleError>(
                RuleError::Parse,
            )
            &&& e < b.len() && ls is Some && rs is Some ==> {
                let (l, t) = (ls.unwrap(), rs.unwrap());
                let small = leaf_count(skeleton_of(l)) <= MAX_LEAVES && leaf_count(skeleton_of(t))
                    <= MAX_LEAVES;
                &&& !small ==> r == Err::<TermMap, RuleError>(RuleError::TooManyLeaves)
                &&& small ==> (r is Ok <==> same_letters(labels_of(l), labels_of(t)))
                &&& small && !same_letters(labels_of(l), labels_of(t)) ==> r == Err::<
                    TermMap,
                    RuleError,
                >(RuleError::Shape)
                &&& r matches Ok(m) ==> {
                    &&& m.wf()
                    &&& m@.source == skeleton_of(l)
                    &&& m@.target == skeleton_of(t)
                    &&& m@.perm.len() == labels_of(l).len()
                    &&& forall|i: int|
                        0 <= i < m@.perm.len() ==> labels_of(t)[#[trigger] m@.perm[i] as int]
                            == labels_of(l)[i]
                }
            }
        }),
        r matches Ok(m) ==> m.wf() && leaf_count(m@.source) <= MAX_LEAVES,
{
    let bytes = text.as_bytes();
    let mut eq: usize = 0;
    while eq < bytes.len() && bytes[eq] != 0x3d
        invariant
            eq <= bytes@.len(),
            forall|j: int| 0 <= j < eq ==> bytes@[j] != 0x3d,
        decreases bytes@.len() - eq,
    {
        eq = eq + 1;
    }
    proof {
        lemma_first_eq(bytes@, eq as int);
    }
    if eq == bytes.len() {
        return Err(RuleError::Parse);
    }
    let left = parse_range(bytes, 0, eq);
    let right = parse_range(bytes, eq + 1, bytes.len());
    match (left, right) {
        (Ok(l), Ok(t)) => {
            let r = l.map_to(&t);
            proof {
                lemma_labels_len(l);
            }
            r
        },
        _ => Err(RuleError::Parse),
    }
}

} // verus!
