//! A register with its parameters and its equations, and the module that
//! states them.

use crate::register::{lemma_unrolled_len, unroll, unrolled};
use crate::term::Term;
use crate::terms::Terms;
use crate::text::{module_text, push_body, push_declaration};
use vstd::prelude::*;

verus! {

/// The parameters of a register.
#[derive(Clone, Copy, PartialEq, Eq, Structural, Debug)]
pub struct LfsrConfig {
    /// The number of data bits that are shifted in.
    pub data_size: usize,
    /// The number of state bits.
    pub state_size: usize,
    /// The feedback polynomial: bit `k` set makes position `k` a tap.
    pub polynomial: u64,
    /// Whether the equations start from the initial state or from zero.
    pub include_initial_state: bool,
}

/// Why a set of parameters describes no register.
#[derive(Clone, Copy, PartialEq, Eq, Structural, Debug)]
pub enum RangeError {
    /// The register has no state bits.
    StateSizeZero,
    /// The register has more state bits than the polynomial has bits.
    StateSizeTooLarge,
    /// There is no data bit to shift in, so the module would have no data
    /// port.
    DataSizeZero,
}

impl LfsrConfig {
    /// Whether the parameters describe a register: at least one data bit,
    /// and from 1 to 64 state bits.
    pub open spec fn valid(self) -> bool {
        self.data_size >= 1 && 1 <= self.state_size <= 64
    }

    /// The expressions for the state bits of the register.
    pub open spec fn equations(self) -> Seq<Set<Term>> {
        unrolled(
            self.data_size as nat,
            self.state_size as nat,
            self.polynomial,
            self.include_initial_state,
        )
    }

    /// The module that states the equations of the register.
    pub open spec fn text(self) -> Seq<char> {
        module_text(
            self.data_size as nat,
            self.state_size as nat,
            self.include_initial_state,
            self.equations(),
        )
    }

    /// Tells whether the parameters describe a register, and if not, why.
    /// The state size is looked at first.
    pub fn validate(&self) -> (result: Result<(), RangeError>)
        ensures
            match result {
                Ok(_) => self.valid(),
                Err(RangeError::StateSizeZero) => self.state_size == 0,
                Err(RangeError::StateSizeTooLarge) => self.state_size > 64,
                Err(RangeError::DataSizeZero) => 1 <= self.state_size <= 64 && self.data_size
                    == 0,
            },
    {
        if self.state_size == 0 {
            Err(RangeError::StateSizeZero)
        } else if self.state_size > 64 {
            Err(RangeError::StateSizeTooLarge)
        } else if self.data_size == 0 {
            Err(RangeError::DataSizeZero)
        } else {
            Ok(())
        }
    }
}

/// An unrolled register: its parameters together with the expressions for
/// its state bits.
pub struct Lfsr {
    data_size: usize,
    state_size: usize,
    polynomial: u64,
    state: Vec<Terms>,
    include_initial_state: bool,
}

impl View for Lfsr {
    type V = LfsrConfig;

    closed spec fn view(&self) -> LfsrConfig {
        LfsrConfig {
            data_size: self.data_size,
            state_size: self.state_size,
            polynomial: self.polynomial,
            include_initial_state: self.include_initial_state,
        }
    }
}

impl Lfsr {
    /// The expressions that the register holds for its state bits, bit 0
    /// first.
    pub closed spec fn expressions(&self) -> Seq<Set<Term>> {
        self.state.deep_view()
    }

    #[verifier::type_invariant]
    spec fn unrolled_and_valid(&self) -> bool {
        self@.valid() && self.expressions() == self@.equations()
    }

    /// Unrolls the register with the given parameters: keeps the parameters
    /// and computes the expressions for the state bits.
    pub fn new(
        data_size: usize,
        state_size: usize,
        polynomial: u64,
        include_initial_state: bool,
    ) -> (lfsr: Lfsr)
        requires
            data_size >= 1,
            1 <= state_size <= 64,
        ensures
            lfsr@ == (LfsrConfig { data_size, state_size, polynomial, include_initial_state }),
            lfsr.expressions() == unrolled(
                data_size as nat,
                state_size as nat,
                polynomial,
                include_initial_state,
            ),
    {
        let state = unroll(data_size, state_size, polynomial, include_initial_state);
        Lfsr { data_size, state_size, polynomial, state, include_initial_state }
    }

    /// Unrolls the register with the given parameters, if they describe
    /// one, and says why they do not, if not.
    pub fn try_new(config: LfsrConfig) -> (result: Result<Lfsr, RangeError>)
        ensures
            match result {
                Ok(lfsr) => config.valid() && lfsr@ == config && lfsr.expressions()
                    == config.equations(),
                Err(RangeError::StateSizeZero) => config.state_size == 0,
                Err(RangeError::StateSizeTooLarge) => config.state_size > 64,
                Err(RangeError::DataSizeZero) => 1 <= config.state_size <= 64
                    && config.data_size == 0,
            },
    {
        match config.validate() {
            Ok(_) => Ok(
                Lfsr::new(
                    config.data_size,
                    config.state_size,
                    config.polynomial,
                    config.include_initial_state,
                ),
            ),
            Err(error) => Err(error),
        }
    }

    /// The parameters of the register.
    pub fn config(&self) -> (config: LfsrConfig)
        ensures
            config == self@,
            config.valid(),
    {
        proof {
            use_type_invariant(self);
        }
        LfsrConfig {
            data_size: self.data_size,
            state_size: self.state_size,
            polynomial: self.polynomial,
            include_initial_state: self.include_initial_state,
        }
    }

    /// The expressions for the state bits, bit 0 first. They are the
    /// equations of the register with these parameters.
    pub fn state(&self) -> (state: &Vec<Terms>)
        ensures
            state.deep_view() == self.expressions(),
            self.expressions() == self@.equations(),
            state@.len() == self@.state_size,
    {
        proof {
            use_type_invariant(self);
            lemma_unrolled_len(
                0,
                self.data_size as nat,
                self.state_size as nat,
                self.polynomial,
                self.include_initial_state,
            );
        }
        &self.state
    }

    /// The module that states the equations of the register.
    pub fn to_string(&self) -> (text: String)
        ensures
            text@ == self@.text(),
    {
        proof {
            use_type_invariant(self);
        }
        let mut text = String::new();
        push_declaration(&mut text, self.data_size, self.state_size, self.include_initial_state);
        push_body(&mut text, self.state.as_slice());
        text.append("endmodule\n");
        assert(text@ =~= self@.text());
        text
    }
}

/// The module text depends on the parameters alone: registers with the same
/// parameters are written out alike, character for character.
pub proof fn lemma_text_is_determined(a: Lfsr, b: Lfsr)
    requires
        a@ == b@,
    ensures
        a@.text() == b@.text(),
{
}

} // verus!
