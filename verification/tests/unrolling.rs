use lfsr::{clock, u64_to_vecbool, unroll, unroll_lfsr, Term, Terms, Variable};

fn data(index: usize) -> Term {
    Term::new_data(index)
}

fn initial(index: usize) -> Term {
    Term::new_initial_state(index)
}

fn data_terms(indices: &[usize]) -> Vec<Term> {
    indices.iter().map(|index| data(*index)).collect()
}

fn listed(state: &[Terms]) -> Vec<Vec<Term>> {
    state.iter().map(|terms| terms.descending()).collect()
}

/// Unrolls with the public operations on expressions alone, taking the taps
/// of every clock in the order that `tap_order` gives.
fn unroll_with_tap_order(
    data_size: usize,
    state_size: usize,
    polynomial: u64,
    include_initial_state: bool,
    tap_order: &[usize],
) -> Vec<Terms> {
    let mut state: Vec<Terms> = (0..state_size)
        .map(|k| if include_initial_state { Terms::with_initial_state(k) } else { Terms::new() })
        .collect();
    for bit in (0..data_size).rev() {
        state.rotate_right(1);
        state[0].add_term(data(bit));
        let feedback = state[0].clone();
        for position in tap_order {
            if *position >= 1 && (polynomial >> *position) & 1 == 1 {
                state[*position].add_terms(&feedback);
            }
        }
    }
    state
}

#[test]
fn u64_to_vecbool_reads_the_bits_from_bit_0_up() {
    assert_eq!(
        u64_to_vecbool(8, 0x7),
        vec![true, true, true, false, false, false, false, false]
    );
    assert_eq!(u64_to_vecbool(4, 0b1010), vec![false, true, false, true]);
}

#[test]
fn u64_to_vecbool_leaves_out_bits_beyond_the_state_size() {
    assert_eq!(u64_to_vecbool(2, 0xff), vec![true, true]);
    assert_eq!(u64_to_vecbool(0, 0xff), Vec::<bool>::new());
}

#[test]
fn u64_to_vecbool_reads_all_64_bits() {
    let flags = u64_to_vecbool(64, 0x8000_0000_0000_0001);
    assert_eq!(flags.len(), 64);
    assert!(flags[0]);
    assert!(flags[63]);
    assert!(flags[1..63].iter().all(|flag| !flag));
    assert!(u64_to_vecbool(64, u64::MAX).iter().all(|flag| *flag));
    assert!(u64_to_vecbool(64, 0).iter().all(|flag| !flag));
}

#[test]
fn zero_data_size_without_initial_state_gives_empty_expressions() {
    for state_size in [1usize, 2, 8, 64] {
        for polynomial in [0u64, 0x7, u64::MAX] {
            let state = unroll(0, state_size, polynomial, false);
            assert_eq!(state.len(), state_size);
            assert!(state.iter().all(|terms| terms.is_empty()));
        }
    }
}

#[test]
fn zero_data_size_with_initial_state_gives_the_initial_state() {
    for state_size in [1usize, 2, 8, 64] {
        for polynomial in [0u64, 0x7, u64::MAX] {
            let state = unroll(0, state_size, polynomial, true);
            assert_eq!(state.len(), state_size);
            for (k, terms) in state.iter().enumerate() {
                assert_eq!(terms.descending(), vec![initial(k)]);
            }
        }
    }
}

#[test]
fn golden_state_bit_0_with_initial_state() {
    let state = unroll(8, 8, 0x7, true);
    assert_eq!(state.len(), 8);
    assert_eq!(
        state[0].descending(),
        vec![data(7), data(6), data(0), initial(7), initial(6), initial(0)]
    );
}

#[test]
fn golden_state_bit_0_of_56_data_bits() {
    let state = unroll(56, 8, 0x7, false);
    assert_eq!(state.len(), 8);
    assert_eq!(state[0].len(), 26);
    assert_eq!(
        state[0].descending(),
        data_terms(&[
            54, 53, 52, 50, 49, 48, 45, 43, 40, 39, 35, 34, 31, 30, 28, 23, 21, 19, 18, 16, 14,
            12, 8, 7, 6, 0
        ])
    );
    assert!(state.iter().all(|terms| (0..8).all(|k| !terms.contains(initial(k)))));
}

#[test]
fn one_bit_register_with_one_data_bit_holds_that_bit() {
    for polynomial in [0u64, 1, 2, 0x8000_0000_0000_0000] {
        let state = unroll(1, 1, polynomial, false);
        assert_eq!(listed(&state), vec![vec![data(0)]]);
    }
}

#[test]
fn one_bit_register_holds_all_data_bits() {
    for polynomial in [0u64, 1, 2, u64::MAX] {
        let state = unroll(3, 1, polynomial, false);
        assert_eq!(listed(&state), vec![vec![data(2), data(1), data(0)]]);
    }
}

#[test]
fn one_bit_register_with_initial_state_keeps_it() {
    let state = unroll(2, 1, 1, true);
    assert_eq!(listed(&state), vec![vec![data(1), data(0), initial(0)]]);
}

#[test]
fn register_without_taps_only_shifts() {
    let state = unroll(2, 3, 0, true);
    assert_eq!(
        listed(&state),
        vec![vec![data(0), initial(1)], vec![data(1), initial(2)], vec![initial(0)]]
    );
}

#[test]
fn bit_0_of_the_polynomial_is_no_tap() {
    assert_eq!(listed(&unroll(9, 5, 0b00101, true)), listed(&unroll(9, 5, 0b00100, true)));
    assert_eq!(listed(&unroll(9, 5, 0b00001, false)), listed(&unroll(9, 5, 0, false)));
}

#[test]
fn bits_of_the_polynomial_beyond_the_state_are_no_taps() {
    assert_eq!(listed(&unroll(9, 3, 0xffff_fff6, true)), listed(&unroll(9, 3, 0b110, true)));
}

#[test]
fn one_clock_with_taps() {
    let state = unroll(1, 3, 0b110, true);
    assert_eq!(
        listed(&state),
        vec![
            vec![data(0), initial(2)],
            vec![data(0), initial(2), initial(0)],
            vec![data(0), initial(2), initial(1)],
        ]
    );
}

#[test]
fn feedback_cancels_what_a_tapped_position_already_holds() {
    let mut state = vec![Terms::with_initial_state(2), Terms::new()];
    let flags = vec![false, true];
    clock(&mut state, &flags, 4);
    assert_eq!(listed(&state), vec![vec![data(4)], vec![data(4), initial(2)]]);
    clock(&mut state, &flags, 3);
    assert_eq!(
        listed(&state),
        vec![vec![data(4), data(3), initial(2)], vec![data(3), initial(2)]]
    );
}

#[test]
fn clock_rotates_and_merges_the_data_bit() {
    let mut state = vec![
        Terms::with_initial_state(0),
        Terms::with_initial_state(1),
        Terms::with_initial_state(2),
    ];
    let flags = vec![true, false, false];
    clock(&mut state, &flags, 9);
    assert_eq!(
        listed(&state),
        vec![vec![data(9), initial(2)], vec![initial(0)], vec![initial(1)]]
    );
}

#[test]
fn all_taps_read_the_feedback_of_the_same_clock() {
    let mut state = vec![Terms::new(), Terms::new(), Terms::new()];
    let flags = vec![false, true, true];
    clock(&mut state, &flags, 0);
    assert_eq!(listed(&state), vec![vec![data(0)], vec![data(0)], vec![data(0)]]);
}

#[test]
fn order_of_the_taps_does_not_matter() {
    let upward: Vec<usize> = (1..8).collect();
    let downward: Vec<usize> = (1..8).rev().collect();
    let shuffled: Vec<usize> = vec![4, 1, 7, 2, 6, 3, 5];
    for polynomial in [0x7u64, 0x1d, 0xff, 0xa6] {
        for include_initial_state in [false, true] {
            let expected = listed(&unroll(24, 8, polynomial, include_initial_state));
            for order in [&upward, &downward, &shuffled] {
                let state =
                    unroll_with_tap_order(24, 8, polynomial, include_initial_state, order);
                assert_eq!(listed(&state), expected);
            }
        }
    }
}

#[test]
fn unroll_lfsr_starts_from_zero() {
    for (data_size, state_size, polynomial) in [(8usize, 8usize, 0x7u64), (5, 16, 0x1021), (0, 3, 6)]
    {
        assert_eq!(
            listed(&unroll_lfsr(data_size, state_size, polynomial)),
            listed(&unroll(data_size, state_size, polynomial, false))
        );
    }
}

#[test]
fn initial_state_terms_mirror_data_terms_when_sizes_agree() {
    let state = unroll(8, 8, 0x7, true);
    for terms in state.iter() {
        for k in 0..8 {
            assert_eq!(terms.contains(data(k)), terms.contains(initial(k)));
        }
    }
}

#[test]
fn expressions_hold_inputs_only() {
    for (data_size, state_size, polynomial) in [(24usize, 8usize, 0xa6u64), (3, 16, 0x1021)] {
        for include_initial_state in [false, true] {
            let state = unroll(data_size, state_size, polynomial, include_initial_state);
            for terms in state.iter() {
                assert!(terms.len() <= data_size + state_size);
                for term in terms.descending() {
                    match term.variable {
                        Variable::Data => assert!(term.index < data_size),
                        Variable::InitialState => {
                            assert!(include_initial_state && term.index < state_size)
                        }
                    }
                }
            }
        }
    }
}

#[test]
fn register_of_64_bits_with_the_top_tap() {
    let state = unroll(1, 64, 0x8000_0000_0000_0000, false);
    assert_eq!(state.len(), 64);
    assert_eq!(state[0].descending(), vec![data(0)]);
    assert_eq!(state[63].descending(), vec![data(0)]);
    assert!(state[1..63].iter().all(|terms| terms.is_empty()));
}

#[test]
fn unrolling_twice_gives_the_same_expressions() {
    assert_eq!(listed(&unroll(40, 16, 0x1021, true)), listed(&unroll(40, 16, 0x1021, true)));
}
