//! The shift register itself: feedback taps, one clock, and the unrolling of
//! a whole data word.

use crate::term::{Term, Variable};
use crate::terms::{xor, Terms};
use vstd::prelude::*;

verus! {

/// Whether the polynomial feeds back into position `k` of the register:
/// whether its bit `k` is set.
pub open spec fn tap(polynomial: u64, k: int) -> bool {
    0 <= k < 64 && polynomial & (1u64 << (k as u64)) != 0
}

/// The feedback flags of a register of `state_size` bits, one for each
/// position.
pub open spec fn taps(state_size: nat, polynomial: u64) -> Seq<bool> {
    Seq::new(state_size, |k: int| tap(polynomial, k))
}

/// What the register holds before the first clock: in position `k` bit `k`
/// of the initial state if that state is part of the equations, and
/// constant zero if it is not.
pub open spec fn initial_state(state_size: nat, include_initial_state: bool) -> Seq<Set<Term>> {
    Seq::new(
        state_size,
        |k: int|
            if include_initial_state {
                set![Term { variable: Variable::InitialState, index: k as usize }]
            } else {
                Set::<Term>::empty()
            },
    )
}

/// The register after the shift of one clock, before the taps: every
/// position holds what the position below held, and position 0 what the last
/// one held, merged with data bit `data_bit`. What position 0 holds now is
/// the feedback of this clock.
pub open spec fn shifted(state: Seq<Set<Term>>, data_bit: usize) -> Seq<Set<Term>> {
    Seq::new(
        state.len(),
        |k: int|
            if k == 0 {
                xor(state.last(), set![Term { variable: Variable::Data, index: data_bit }])
            } else {
                state[k - 1]
            },
    )
}

/// One clock of the register, with data bit `data_bit` at its input: the
/// shift, and then the feedback merged into every tap from position 1 up.
///
/// All taps merge the same feedback, the one that the shift left in position
/// 0, so the order in which they are taken does not matter
/// (`lemma_tap_order`).
pub open spec fn clocked(state: Seq<Set<Term>>, taps: Seq<bool>, data_bit: usize) -> Seq<
    Set<Term>,
> {
    let moved = shifted(state, data_bit);
    Seq::new(
        state.len(),
        |k: int|
            if k >= 1 && taps[k] {
                xor(moved[k], moved[0])
            } else {
                moved[k]
            },
    )
}

/// What the register holds once the data bits from `data_size - 1` down to
/// `from` have been shifted in, the highest first.
pub open spec fn unrolled_from(
    from: nat,
    data_size: nat,
    state_size: nat,
    polynomial: u64,
    include_initial_state: bool,
) -> Seq<Set<Term>>
    decreases data_size - from,
{
    if from >= data_size {
        initial_state(state_size, include_initial_state)
    } else {
        clocked(
            unrolled_from(from + 1, data_size, state_size, polynomial, include_initial_state),
            taps(state_size, polynomial),
            from as usize,
        )
    }
}

/// What the register holds once the whole data word has been shifted in: for
/// every state bit the expression that gives it.
pub open spec fn unrolled(
    data_size: nat,
    state_size: nat,
    polynomial: u64,
    include_initial_state: bool,
) -> Seq<Set<Term>> {
    unrolled_from(0, data_size, state_size, polynomial, include_initial_state)
}

/// Whether `term` is an input of the register: a bit of the data word, or,
/// where the initial state is part of the equations, a bit of that state.
pub open spec fn is_input(
    term: Term,
    data_size: nat,
    state_size: nat,
    include_initial_state: bool,
) -> bool {
    match term.variable {
        Variable::Data => term.index < data_size,
        Variable::InitialState => include_initial_state && term.index < state_size,
    }
}

/// Merges the feedback, which position 0 holds, into the positions that
/// `order` names, one after the other.
pub open spec fn tapped(state: Seq<Set<Term>>, order: Seq<int>) -> Seq<Set<Term>>
    decreases order.len(),
{
    if order.len() == 0 {
        state
    } else {
        let merged = tapped(state, order.drop_last());
        merged.update(order.last(), xor(merged[order.last()], merged[0]))
    }
}

/// Whether `order` names every tap from position 1 up once, and nothing
/// else.
pub open spec fn lists_taps(order: Seq<int>, taps: Seq<bool>) -> bool {
    &&& order.no_duplicates()
    &&& forall|i: int| 0 <= i < order.len() ==> 1 <= order[i] < taps.len() && taps[order[i]]
    &&& forall|k: int| 1 <= k < taps.len() && taps[k] ==> order.contains(k)
}

/// Decodes the polynomial into the feedback flags of a register of
/// `state_size` bits.
pub fn u64_to_vecbool(state_size: usize, polynomial: u64) -> (flags: Vec<bool>)
    requires
        state_size <= 64,
    ensures
        flags@ == taps(state_size as nat, polynomial),
{
    let mut flags: Vec<bool> = Vec::new();
    let mut k: usize = 0;
    while k < state_size
        invariant
            k <= state_size <= 64,
            flags@ == taps(k as nat, polynomial),
        decreases state_size - k,
    {
        let mask: u64 = 1u64 << (k as u64);
        flags.push(polynomial & mask != 0);
        assert(flags@ =~= taps((k + 1) as nat, polynomial));
        k += 1;
    }
    flags
}

/// Clocks the register once, with data bit `data_bit` at its input.
pub fn clock(state: &mut Vec<Terms>, taps: &Vec<bool>, data_bit: usize)
    requires
        old(state)@.len() >= 1,
        taps@.len() == old(state)@.len(),
    ensures
        final(state).deep_view() == clocked(old(state).deep_view(), taps@, data_bit),
{
    let ghost before = state.deep_view();
    let mut feedback = state.pop().unwrap();
    feedback.add_term(Term::new_data(data_bit));
    let mut k: usize = 1;
    while k < taps.len()
        invariant
            1 <= k <= taps@.len(),
            taps@.len() == before.len(),
            state@.len() == before.len() - 1,
            feedback@ == clocked(before, taps@, data_bit)[0],
            forall|j: int|
                0 <= j < k - 1 ==> (#[trigger] state@[j])@ == clocked(before, taps@, data_bit)[j
                    + 1],
            forall|j: int| k - 1 <= j < state@.len() ==> (#[trigger] state@[j])@ == before[j],
        decreases taps@.len() - k,
    {
        if taps[k] {
            state[k - 1].add_terms(&feedback);
        }
        k += 1;
    }
    state.insert(0, feedback);
    assert(state.deep_view() =~= clocked(before, taps@, data_bit));
}

/// Unrolls the register: shifts in the data bits from the highest down to
/// bit 0, and returns for every state bit the expression that gives it.
///
/// With `include_initial_state` the register starts from its initial state,
/// bit `k` in position `k`; without it, from zero.
pub fn unroll(
    data_size: usize,
    state_size: usize,
    polynomial: u64,
    include_initial_state: bool,
) -> (state: Vec<Terms>)
    requires
        1 <= state_size <= 64,
    ensures
        state@.len() == state_size,
        state.deep_view() == unrolled(
            data_size as nat,
            state_size as nat,
            polynomial,
            include_initial_state,
        ),
        data_size == 0 ==> forall|k: int|
            0 <= k < state_size ==> (#[trigger] state@[k])@ == if include_initial_state {
                set![Term { variable: Variable::InitialState, index: k as usize }]
            } else {
                Set::<Term>::empty()
            },
{
    let mut state: Vec<Terms> = Vec::new();
    let mut k: usize = 0;
    while k < state_size
        invariant
            k <= state_size,
            state@.len() == k,
            forall|j: int|
                0 <= j < k ==> (#[trigger] state@[j])@ == initial_state(
                    state_size as nat,
                    include_initial_state,
                )[j],
        decreases state_size - k,
    {
        if include_initial_state {
            state.push(Terms::with_initial_state(k));
        } else {
            state.push(Terms::new());
        }
        k += 1;
    }
    assert(state.deep_view() =~= initial_state(state_size as nat, include_initial_state));
    let flags = u64_to_vecbool(state_size, polynomial);
    let mut bit: usize = data_size;
    while bit > 0
        invariant
            bit <= data_size,
            1 <= state_size,
            state@.len() == state_size,
            flags@ == taps(state_size as nat, polynomial),
            state.deep_view() == unrolled_from(
                bit as nat,
                data_size as nat,
                state_size as nat,
                polynomial,
                include_initial_state,
            ),
        decreases bit,
    {
        bit -= 1;
        clock(&mut state, &flags, bit);
        assert(state@.len() == state.deep_view().len());
    }
    proof {
        if data_size == 0 {
            lemma_unrolled_without_data(state_size as nat, polynomial, include_initial_state);
            assert forall|k: int| 0 <= k < state_size implies (#[trigger] state@[k])@
                == if include_initial_state {
                set![Term { variable: Variable::InitialState, index: k as usize }]
            } else {
                Set::<Term>::empty()
            } by {
                assert(state@[k]@ == state.deep_view()[k]);
            }
        }
    }
    state
}

/// Unrolls a register that starts from zero.
pub fn unroll_lfsr(data_size: usize, state_size: usize, polynomial: u64) -> (state: Vec<Terms>)
    requires
        1 <= state_size <= 64,
    ensures
        state@.len() == state_size,
        state.deep_view() == unrolled(data_size as nat, state_size as nat, polynomial, false),
        data_size == 0 ==> forall|k: int|
            0 <= k < state_size ==> (#[trigger] state@[k])@ == Set::<Term>::empty(),
{
    unroll(data_size, state_size, polynomial, false)
}

/// The register keeps its size: there is one expression for every state bit.
pub proof fn lemma_unrolled_len(
    from: nat,
    data_size: nat,
    state_size: nat,
    polynomial: u64,
    include_initial_state: bool,
)
    ensures
        unrolled_from(from, data_size, state_size, polynomial, include_initial_state).len()
            == state_size,
    decreases data_size - from,
{
    if from < data_size {
        lemma_unrolled_len(from + 1, data_size, state_size, polynomial, include_initial_state);
    }
}

/// Every expression of the unrolled register is finite and holds inputs of
/// the register only.
pub proof fn lemma_unrolled_holds_inputs(
    data_size: nat,
    state_size: nat,
    polynomial: u64,
    include_initial_state: bool,
    k: int,
)
    requires
        data_size <= usize::MAX,
        state_size <= usize::MAX,
        0 <= k < state_size,
    ensures
        unrolled(data_size, state_size, polynomial, include_initial_state)[k].finite(),
        forall|term: Term|
            unrolled(data_size, state_size, polynomial, include_initial_state)[k].contains(term)
                ==> is_input(term, data_size, state_size, include_initial_state),
{
    lemma_unrolled_from_holds_inputs(
        0,
        data_size,
        state_size,
        polynomial,
        include_initial_state,
    );
}

/// Once the data bits from `data_size - 1` down to `from` have been shifted
/// in, every expression is finite and holds inputs of the register only.
proof fn lemma_unrolled_from_holds_inputs(
    from: nat,
    data_size: nat,
    state_size: nat,
    polynomial: u64,
    include_initial_state: bool,
)
    requires
        data_size <= usize::MAX,
        state_size <= usize::MAX,
    ensures
        forall|k: int|
            0 <= k < state_size ==> (#[trigger] unrolled_from(
                from,
                data_size,
                state_size,
                polynomial,
                include_initial_state,
            )[k]).finite(),
        forall|k: int, term: Term|
            0 <= k < state_size && #[trigger] unrolled_from(
                from,
                data_size,
                state_size,
                polynomial,
                include_initial_state,
            )[k].contains(term) ==> is_input(
                term,
                data_size,
                state_size,
                include_initial_state,
            ),
    decreases data_size - from,
{
    let now = unrolled_from(from, data_size, state_size, polynomial, include_initial_state);
    if from < data_size {
        let before = unrolled_from(
            from + 1,
            data_size,
            state_size,
            polynomial,
            include_initial_state,
        );
        lemma_unrolled_from_holds_inputs(
            from + 1,
            data_size,
            state_size,
            polynomial,
            include_initial_state,
        );
        lemma_unrolled_len(from + 1, data_size, state_size, polynomial, include_initial_state);
        assert(now == clocked(before, taps(state_size, polynomial), from as usize));
        assert forall|k: int| 0 <= k < state_size implies (#[trigger] now[k]).finite() by {
            assert(before[state_size - 1].finite());
            if k > 0 {
                assert(before[k - 1].finite());
            }
        }
        assert forall|k: int, term: Term|
            0 <= k < state_size && #[trigger] now[k].contains(term) implies is_input(
            term,
            data_size,
            state_size,
            include_initial_state,
        ) by {
            assert(now[k] == clocked(before, taps(state_size, polynomial), from as usize)[k]);
        }
    }
}

/// No expression of the unrolled register holds more terms than the register
/// has inputs: at most `data_size + state_size`.
pub proof fn lemma_unrolled_size(
    data_size: nat,
    state_size: nat,
    polynomial: u64,
    include_initial_state: bool,
    k: int,
)
    requires
        data_size <= usize::MAX,
        state_size <= usize::MAX,
        0 <= k < state_size,
    ensures
        unrolled(data_size, state_size, polynomial, include_initial_state)[k].len() <= data_size
            + state_size,
{
    let held = unrolled(data_size, state_size, polynomial, include_initial_state)[k];
    let data = terms_below(Variable::Data, data_size);
    let initial = terms_below(Variable::InitialState, state_size);
    lemma_unrolled_holds_inputs(data_size, state_size, polynomial, include_initial_state, k);
    lemma_terms_below(Variable::Data, data_size);
    lemma_terms_below(Variable::InitialState, state_size);
    vstd::set_lib::lemma_len_union(data, initial);
    assert forall|term: Term| held.contains(term) implies data.union(initial).contains(term) by {
        assert(is_input(term, data_size, state_size, include_initial_state));
    }
    vstd::set_lib::lemma_len_subset(held, data.union(initial));
}

/// The terms of one variable with an index below `bound`.
spec fn terms_below(variable: Variable, bound: nat) -> Set<Term> {
    Set::new(|term: Term| term.variable == variable && term.index < bound)
}

/// There are `bound` terms of one variable with an index below `bound`.
proof fn lemma_terms_below(variable: Variable, bound: nat)
    requires
        bound <= usize::MAX,
    ensures
        terms_below(variable, bound).finite(),
        terms_below(variable, bound).len() == bound,
    decreases bound,
{
    if bound == 0 {
        assert(terms_below(variable, bound) =~= Set::<Term>::empty());
    } else {
        let below = (bound - 1) as nat;
        lemma_terms_below(variable, below);
        assert(terms_below(variable, bound) =~= terms_below(variable, below).insert(
            Term { variable, index: below as usize },
        ));
    }
}

/// Without data nothing is shifted: the register holds its initial state,
/// bit `k` in position `k`, or zero in every position if the initial state
/// is not part of the equations.
pub proof fn lemma_unrolled_without_data(
    state_size: nat,
    polynomial: u64,
    include_initial_state: bool,
)
    ensures
        unrolled(0, state_size, polynomial, include_initial_state).len() == state_size,
        forall|k: int|
            0 <= k < state_size ==> #[trigger] unrolled(
                0,
                state_size,
                polynomial,
                include_initial_state,
            )[k] == if include_initial_state {
                set![Term { variable: Variable::InitialState, index: k as usize }]
            } else {
                Set::<Term>::empty()
            },
{
}

/// A register of one bit has no taps: its bit is the XOR of all data bits,
/// whatever the polynomial.
pub proof fn lemma_unrolled_one_bit(data_size: nat, polynomial: u64)
    requires
        data_size <= usize::MAX,
    ensures
        unrolled(data_size, 1, polynomial, false).len() == 1,
        unrolled(data_size, 1, polynomial, false)[0] == Set::new(
            |term: Term| term.variable == Variable::Data && term.index < data_size,
        ),
{
    lemma_unrolled_one_bit_from(0, data_size, polynomial);
}

/// A register of one bit, once the data bits from `data_size - 1` down to
/// `from` have been shifted in, holds the XOR of those bits.
proof fn lemma_unrolled_one_bit_from(from: nat, data_size: nat, polynomial: u64)
    requires
        data_size <= usize::MAX,
    ensures
        unrolled_from(from, data_size, 1, polynomial, false).len() == 1,
        unrolled_from(from, data_size, 1, polynomial, false)[0] == Set::new(
            |term: Term| term.variable == Variable::Data && from <= term.index < data_size,
        ),
    decreases data_size - from,
{
    let now = unrolled_from(from, data_size, 1, polynomial, false);
    let bits = Set::new(
        |term: Term| term.variable == Variable::Data && from <= term.index < data_size,
    );
    if from < data_size {
        lemma_unrolled_one_bit_from(from + 1, data_size, polynomial);
        let before = unrolled_from(from + 1, data_size, 1, polynomial, false);
        assert(now == clocked(before, taps(1, polynomial), from as usize));
        assert(now[0] =~= bits);
    } else {
        assert(now[0] =~= bits);
    }
}

/// A register of one bit that takes in one data bit holds that bit, the
/// highest of the data word, whatever the polynomial. (With more data bits
/// it holds them all, as `lemma_unrolled_one_bit` says.)
pub proof fn lemma_unrolled_one_bit_highest(data_size: nat, polynomial: u64)
    requires
        data_size == 1,
    ensures
        unrolled(data_size, 1, polynomial, false).len() == 1,
        unrolled(data_size, 1, polynomial, false)[0] == set![
            Term { variable: Variable::Data, index: (data_size - 1) as usize },
        ],
{
    lemma_unrolled_one_bit(data_size, polynomial);
    assert(unrolled(data_size, 1, polynomial, false)[0] =~= set![
        Term { variable: Variable::Data, index: (data_size - 1) as usize },
    ]);
}

/// The order of the taps does not matter: merging the feedback into the
/// tapped positions one after the other, in any order, gives the clocked
/// register.
pub proof fn lemma_tap_order(
    state: Seq<Set<Term>>,
    taps: Seq<bool>,
    data_bit: usize,
    order: Seq<int>,
)
    requires
        state.len() >= 1,
        taps.len() == state.len(),
        lists_taps(order, taps),
    ensures
        tapped(shifted(state, data_bit), order) == clocked(state, taps, data_bit),
{
    lemma_tapped(shifted(state, data_bit), order);
    assert(tapped(shifted(state, data_bit), order) =~= clocked(state, taps, data_bit));
}

/// Merging the feedback into positions named once each changes those
/// positions and no others.
proof fn lemma_tapped(state: Seq<Set<Term>>, order: Seq<int>)
    requires
        order.no_duplicates(),
        forall|i: int| 0 <= i < order.len() ==> 1 <= #[trigger] order[i] < state.len(),
    ensures
        tapped(state, order).len() == state.len(),
        forall|k: int|
            0 <= k < state.len() ==> #[trigger] tapped(state, order)[k] == if order.contains(k) {
                xor(state[k], state[0])
            } else {
                state[k]
            },
    decreases order.len(),
{
    if order.len() > 0 {
        let earlier = order.drop_last();
        lemma_tapped(state, earlier);
        assert forall|k: int| 0 <= k < state.len() implies #[trigger] tapped(state, order)[k]
            == if order.contains(k) {
            xor(state[k], state[0])
        } else {
            state[k]
        } by {
            if k == order.last() {
                assert(order[order.len() - 1] == k);
                if earlier.contains(k) {
                    let i = choose|i: int| 0 <= i < earlier.len() && earlier[i] == k;
                    assert(order[i] == k);
                }
            } else if earlier.contains(k) {
                let i = choose|i: int| 0 <= i < earlier.len() && earlier[i] == k;
                assert(order[i] == k);
            } else if order.contains(k) {
                let i = choose|i: int| 0 <= i < order.len() && order[i] == k;
                assert(earlier[i] == k);
            }
        }
    }
}

} // verus!
