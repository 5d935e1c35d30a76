//! What the equations say: under any input bits, the value of the expression
//! for a state bit is the bit that the register itself ends up with.

use crate::register::{clocked, lemma_unrolled_len, taps, unrolled, unrolled_from};
use crate::term::{Term, Variable};
use crate::terms::xor;
use vstd::prelude::*;
use vstd::set_lib::{lemma_set_difference_len, lemma_set_disjoint_lens};

verus! {

/// The bit that a term stands for, given the data word and the initial
/// state.
pub open spec fn term_value(term: Term, data: Seq<bool>, initial: Seq<bool>) -> bool {
    match term.variable {
        Variable::Data => data[term.index as int],
        Variable::InitialState => initial[term.index as int],
    }
}

/// The terms of an expression that stand for a 1.
pub open spec fn ones(terms: Set<Term>, data: Seq<bool>, initial: Seq<bool>) -> Set<Term> {
    terms.filter(|term: Term| term_value(term, data, initial))
}

/// The value of an expression: the XOR of the bits of its terms, which is 1
/// where an odd number of them is 1.
pub open spec fn value(terms: Set<Term>, data: Seq<bool>, initial: Seq<bool>) -> bool {
    ones(terms, data, initial).len() % 2 == 1
}

/// The bits of the register before the first clock.
pub open spec fn initial_bits(
    state_size: nat,
    include_initial_state: bool,
    initial: Seq<bool>,
) -> Seq<bool> {
    Seq::new(state_size, |k: int| include_initial_state && initial[k])
}

/// One clock of the register on bits: every bit moves up by one position,
/// the last bit, XORed with the data bit, comes in at position 0, and every
/// tap XORs that same bit in.
pub open spec fn clocked_bits(state: Seq<bool>, taps: Seq<bool>, data_bit: bool) -> Seq<bool> {
    let feedback = state.last() != data_bit;
    Seq::new(
        state.len(),
        |k: int|
            if k == 0 {
                feedback
            } else if taps[k] {
                state[k - 1] != feedback
            } else {
                state[k - 1]
            },
    )
}

/// The bits of the register once the data bits from the highest down to
/// `from` have been shifted in.
pub open spec fn register_from(
    from: nat,
    state_size: nat,
    polynomial: u64,
    include_initial_state: bool,
    data: Seq<bool>,
    initial: Seq<bool>,
) -> Seq<bool>
    decreases data.len() - from,
{
    if from >= data.len() {
        initial_bits(state_size, include_initial_state, initial)
    } else {
        clocked_bits(
            register_from(from + 1, state_size, polynomial, include_initial_state, data, initial),
            taps(state_size, polynomial),
            data[from as int],
        )
    }
}

/// The bits of the register once the whole data word has been shifted in.
pub open spec fn register(
    state_size: nat,
    polynomial: u64,
    include_initial_state: bool,
    data: Seq<bool>,
    initial: Seq<bool>,
) -> Seq<bool> {
    register_from(0, state_size, polynomial, include_initial_state, data, initial)
}

/// Constant zero has the value 0.
pub proof fn lemma_value_of_zero(data: Seq<bool>, initial: Seq<bool>)
    ensures
        !value(Set::<Term>::empty(), data, initial),
{
    assert(ones(Set::<Term>::empty(), data, initial) =~= Set::<Term>::empty());
}

/// An expression of one term has the value of that term.
pub proof fn lemma_value_of_term(term: Term, data: Seq<bool>, initial: Seq<bool>)
    ensures
        value(set![term], data, initial) == term_value(term, data, initial),
{
    if term_value(term, data, initial) {
        assert(ones(set![term], data, initial) =~= set![term]);
    } else {
        assert(ones(set![term], data, initial) =~= Set::<Term>::empty());
    }
}

/// The value of the XOR of two expressions is the XOR of their values.
pub proof fn lemma_value_of_xor(
    a: Set<Term>,
    b: Set<Term>,
    data: Seq<bool>,
    initial: Seq<bool>,
)
    requires
        a.finite(),
        b.finite(),
    ensures
        value(xor(a, b), data, initial) == (value(a, data, initial) != value(b, data, initial)),
{
    let is_one = |term: Term| term_value(term, data, initial);
    let a1 = ones(a, data, initial);
    let b1 = ones(b, data, initial);
    a.lemma_len_filter(is_one);
    b.lemma_len_filter(is_one);
    assert(ones(xor(a, b), data, initial) =~= xor(a1, b1));
    lemma_set_difference_len(a1, b1);
    lemma_set_difference_len(b1, a1);
    lemma_set_disjoint_lens(a1.difference(b1), b1.difference(a1));
    assert(a1.intersect(b1) =~= b1.intersect(a1));
    assert(xor(a1, b1).len() == a1.len() + b1.len() - 2 * a1.intersect(b1).len());
}

/// The equations give the register: whatever the data word and the initial
/// state, the value of the expression for state bit `k` is bit `k` of the
/// register after the data word has been shifted in.
pub proof fn lemma_equations_give_the_register(
    state_size: nat,
    polynomial: u64,
    include_initial_state: bool,
    data: Seq<bool>,
    initial: Seq<bool>,
    k: int,
)
    requires
        data.len() <= usize::MAX,
        state_size <= usize::MAX,
        0 <= k < state_size,
    ensures
        value(
            unrolled(data.len(), state_size, polynomial, include_initial_state)[k],
            data,
            initial,
        ) == register(state_size, polynomial, include_initial_state, data, initial)[k],
{
    lemma_equations_give_the_register_from(
        0,
        state_size,
        polynomial,
        include_initial_state,
        data,
        initial,
    );
}

/// The equations give the register at every clock on the way.
proof fn lemma_equations_give_the_register_from(
    from: nat,
    state_size: nat,
    polynomial: u64,
    include_initial_state: bool,
    data: Seq<bool>,
    initial: Seq<bool>,
)
    requires
        data.len() <= usize::MAX,
        state_size <= usize::MAX,
    ensures
        register_from(from, state_size, polynomial, include_initial_state, data, initial).len()
            == state_size,
        forall|k: int|
            0 <= k < state_size ==> (#[trigger] unrolled_from(
                from,
                data.len(),
                state_size,
                polynomial,
                include_initial_state,
            )[k]).finite(),
        forall|k: int|
            0 <= k < state_size ==> value(
                #[trigger] unrolled_from(
                    from,
                    data.len(),
                    state_size,
                    polynomial,
                    include_initial_state,
                )[k],
                data,
                initial,
            ) == register_from(
                from,
                state_size,
                polynomial,
                include_initial_state,
                data,
                initial,
            )[k],
    decreases data.len() - from,
{
    let now = unrolled_from(from, data.len(), state_size, polynomial, include_initial_state);
    let bits = register_from(from, state_size, polynomial, include_initial_state, data, initial);
    if from < data.len() {
        let before = unrolled_from(
            from + 1,
            data.len(),
            state_size,
            polynomial,
            include_initial_state,
        );
        let bits_before = register_from(
            from + 1,
            state_size,
            polynomial,
            include_initial_state,
            data,
            initial,
        );
        lemma_equations_give_the_register_from(
            from + 1,
            state_size,
            polynomial,
            include_initial_state,
            data,
            initial,
        );
        lemma_unrolled_len(from + 1, data.len(), state_size, polynomial, include_initial_state);
        let flags = taps(state_size, polynomial);
        let bit = Term { variable: Variable::Data, index: from as usize };
        assert(now == clocked(before, flags, from as usize));
        assert(bits == clocked_bits(bits_before, flags, data[from as int]));
        if state_size > 0 {
            let feedback = xor(before[state_size - 1], set![bit]);
            assert(before[state_size - 1].finite());
            lemma_value_of_term(bit, data, initial);
            lemma_value_of_xor(before[state_size - 1], set![bit], data, initial);
            assert(now[0] == feedback);
            assert forall|k: int| 0 <= k < state_size implies (#[trigger] now[k]).finite()
                && value(now[k], data, initial) == bits[k] by {
                if k > 0 {
                    assert(before[k - 1].finite());
                    lemma_value_of_xor(before[k - 1], feedback, data, initial);
                }
            }
        }
    } else {
        assert forall|k: int| 0 <= k < state_size implies (#[trigger] now[k]).finite() && value(
            now[k],
            data,
            initial,
        ) == bits[k] by {
            let bit = Term { variable: Variable::InitialState, index: k as usize };
            lemma_value_of_term(bit, data, initial);
            lemma_value_of_zero(data, initial);
        }
    }
}

} // verus!
