use vstd::prelude::*;
use vstd::string::StringSliceAdditionalSpecFns;

use crate::indexing::{TermIndexing, shape, table_wf};
use crate::labeled::{LabeledTerm, RuleError, parse_spec, skeleton_of};
use crate::term::{Term, subterm_at};

verus! {

/// A binary tree with a value at each leaf.
#[derive(PartialEq, Eq, Debug)]
pub enum DAG<T> {
    Leaf(T),
    Branch(Box<DAG<T>>, Box<DAG<T>>),
}

/// The tree with the same shape and leaf labels as `t`.
pub open spec fn dag_of(t: LabeledTerm<char>) -> DAG<char>
    decreases t,
{
    match t {
        LabeledTerm::Variable(v) => DAG::Leaf(v),
        LabeledTerm::Operation(l, r) => DAG::Branch(Box::new(dag_of(*l)), Box::new(dag_of(*r))),
    }
}

/// The shape of `d`, without its values.
pub open spec fn dag_shape<T>(d: DAG<T>) -> Term
    decreases d,
{
    match d {
        DAG::Leaf(_) => Term::Variable,
        DAG::Branch(l, r) => Term::Operation(Box::new(dag_shape(*l)), Box::new(dag_shape(*r))),
    }
}

fn to_dag(t: LabeledTerm<char>) -> (r: DAG<char>)
    ensures
        r == dag_of(t),
    decreases t,
{
    match t {
        LabeledTerm::Variable(v) => DAG::Leaf(v),
        LabeledTerm::Operation(l, r) => DAG::Branch(Box::new(to_dag(*l)), Box::new(to_dag(*r))),
    }
}

impl<T> DAG<T> {
    /// The shape of the tree.
    pub fn shape(&self) -> (r: Term)
        ensures
            r == dag_shape(*self),
        decreases self,
    {
        match self {
            DAG::Leaf(_) => Term::Variable,
            DAG::Branch(l, r) => Term::Operation(Box::new(l.shape()), Box::new(r.shape())),
        }
    }

    /// The label table of the tree's shape, as a pattern.
    pub fn build_pattern_table(&self) -> (r: TermIndexing)
        ensures
            table_wf(r@),
            dag_shape(*self) is Operation ==> shape(r@, r@.len() as int) == dag_shape(*self),
            dag_shape(*self) is Variable ==> r@.len() == 0,
            forall|c1: int, c2: int|
                0 <= c1 <= r@.len() && 0 <= c2 <= r@.len() && #[trigger] shape(r@, c1) == #[trigger] shape(r@, c2)
                    ==> c1 == c2,
            forall|c: int|
                1 <= c <= r@.len() ==> exists|q: Seq<bool>| subterm_at(dag_shape(*self), q) == Some(#[trigger] shape(r@, c)),
            forall|q: Seq<bool>|
                #[trigger] subterm_at(dag_shape(*self), q) is Some && subterm_at(dag_shape(*self), q).unwrap() is Operation ==> exists|c: int|
                    1 <= c <= r@.len() && shape(r@, c) == subterm_at(dag_shape(*self), q).unwrap(),
    {
        let s = self.shape();
        TermIndexing::from(&s)
    }
}

impl DAG<char> {
    /// Parses a tree in the rule syntax: letters, `*` (right-associative) and
    /// parentheses, with whitespace ignored.
    pub fn parse(input: &str) -> (r: Result<DAG<char>, RuleError>)
        ensures
            match parse_spec(input.spec_bytes()) {
                Some(t) => r == Ok::<DAG<char>, RuleError>(dag_of(t)),
                None => r == Err::<DAG<char>, RuleError>(RuleError::Parse),
            },
    {
        match LabeledTerm::parse(input) {
            Ok(t) => Ok(to_dag(t)),
            Err(e) => Err(e),
        }
    }
}

} // verus!
