use vstd::prelude::*;

use crate::labeled::LabeledTerm;
use crate::term::Term;
use crate::tree::DAG;

verus! {

/// A binary tree node: a leaf, or a branch with two children.
pub trait BinaryChildren: Sized {
    /// The node is a leaf.
    spec fn is_leaf_spec(&self) -> bool;

    /// The two children of a branch; `None` for a leaf.
    fn children(&self) -> (r: Option<(&Self, &Self)>)
        ensures
            r is None <==> self.is_leaf_spec(),
    ;

    /// Whether the node is a leaf.
    fn is_leaf(&self) -> (r: bool)
        ensures
            r == self.is_leaf_spec(),
    {
        self.children().is_none()
    }
}

impl BinaryChildren for Term {
    open spec fn is_leaf_spec(&self) -> bool {
        self is Variable
    }

    fn children(&self) -> (r: Option<(&Term, &Term)>) {
        match self {
            Term::Variable => None,
            Term::Operation(l, r) => Some((&**l, &**r)),
        }
    }
}

impl<T> BinaryChildren for LabeledTerm<T> {
    open spec fn is_leaf_spec(&self) -> bool {
        self is Variable
    }

    fn children(&self) -> (r: Option<(&LabeledTerm<T>, &LabeledTerm<T>)>) {
        match self {
            LabeledTerm::Variable(_) => None,
            LabeledTerm::Operation(l, r) => Some((&**l, &**r)),
        }
    }
}

impl<T> BinaryChildren for DAG<T> {
    open spec fn is_leaf_spec(&self) -> bool {
        self is Leaf
    }

    fn children(&self) -> (r: Option<(&DAG<T>, &DAG<T>)>) {
        match self {
            DAG::Leaf(_) => None,
            DAG::Branch(l, r) => Some((&**l, &**r)),
        }
    }
}

/// A tree type that can be built from a leaf value or from two children.
pub trait FromChildren<V>: BinaryChildren {
    /// A leaf holding `value`.
    fn from_leaf(value: V) -> (r: Self)
        ensures
            r.is_leaf_spec(),
    ;

    /// A branch over `left` and `right`.
    fn from_children(left: Self, right: Self) -> (r: Self)
        ensures
            !r.is_leaf_spec(),
    ;
}

impl FromChildren<()> for Term {
    fn from_leaf(value: ()) -> (r: Term) {
        Term::Variable
    }

    fn from_children(left: Term, right: Term) -> (r: Term) {
        Term::Operation(Box::new(left), Box::new(right))
    }
}

impl<T> FromChildren<T> for LabeledTerm<T> {
    fn from_leaf(value: T) -> (r: LabeledTerm<T>) {
        LabeledTerm::Variable(value)
    }

    fn from_children(left: LabeledTerm<T>, right: LabeledTerm<T>) -> (r: LabeledTerm<T>) {
        LabeledTerm::Operation(Box::new(left), Box::new(right))
    }
}

impl<T> FromChildren<T> for DAG<T> {
    fn from_leaf(value: T) -> (r: DAG<T>) {
        DAG::Leaf(value)
    }

    fn from_children(left: DAG<T>, right: DAG<T>) -> (r: DAG<T>) {
        DAG::Branch(Box::new(left), Box::new(right))
    }
}

} // verus!
