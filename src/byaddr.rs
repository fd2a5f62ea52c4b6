use vstd::prelude::*;

verus! {

/// A position inside a term, given as the path from the root (`false` goes
/// left, `true` goes right).
pub struct TermByAddress {
    pub path: Vec<bool>,
}

impl View for TermByAddress {
    type V = Seq<bool>;

    open spec fn view(&self) -> Seq<bool> {
        self.path@
    }
}

} // verus!
