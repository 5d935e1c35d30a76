//! Terms: the named input bits that the equations are made of.

use vstd::prelude::*;

verus! {

/// The family of inputs that a term is taken from.
#[derive(Clone, Copy, PartialEq, Eq, Structural, PartialOrd, Ord, Hash, Debug)]
pub enum Variable {
    /// A bit that the register holds before the first clock.
    InitialState,
    /// A bit of the data word that is shifted in.
    Data,
}

/// One input bit: a variable and the position of the bit in it.
#[derive(Clone, Copy, PartialEq, Eq, Structural, PartialOrd, Ord, Hash, Debug)]
pub struct Term {
    pub variable: Variable,
    pub index: usize,
}

impl Variable {
    /// Position of the variable in the order of terms: initial state comes
    /// below data.
    pub open spec fn rank(self) -> int {
        match self {
            Variable::InitialState => 0,
            Variable::Data => 1,
        }
    }
}

impl Term {
    /// The strict total order of terms: by variable first, by index within
    /// one variable.
    pub open spec fn above(self, other: Term) -> bool {
        self.variable.rank() > other.variable.rank() || (self.variable == other.variable
            && self.index > other.index)
    }

    /// The term for bit `index` of the data word.
    pub fn new_data(index: usize) -> (term: Term)
        ensures
            term == (Term { variable: Variable::Data, index }),
    {
        Term { variable: Variable::Data, index }
    }

    /// The term for bit `index` of the initial state.
    pub fn new_initial_state(index: usize) -> (term: Term)
        ensures
            term == (Term { variable: Variable::InitialState, index }),
    {
        Term { variable: Variable::InitialState, index }
    }

    /// Decides the order of two terms.
    pub fn is_above(&self, other: &Term) -> (above: bool)
        ensures
            above == self.above(*other),
    {
        match (self.variable, other.variable) {
            (Variable::Data, Variable::InitialState) => true,
            (Variable::InitialState, Variable::Data) => false,
            _ => self.index > other.index,
        }
    }
}

/// The order of terms is irreflexive and transitive, and any two different
/// terms are ordered one way or the other.
pub proof fn lemma_above_is_strict_total_order(a: Term, b: Term, c: Term)
    ensures
        !a.above(a),
        a.above(b) && b.above(c) ==> a.above(c),
        a != b ==> a.above(b) || b.above(a),
        !(a.above(b) && b.above(a)),
{
}

} // verus!
