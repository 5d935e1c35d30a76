//! Symbolic unrolling of linear feedback shift registers.
//!
//! A register of `state_size` bits takes in `data_size` data bits, one per
//! clock. Instead of bit values the register holds here, for every state
//! bit, the set of input terms whose XOR gives that bit, so that one pass
//! over the data word yields the equations of the parallel register: every
//! bit of the final state as an XOR of data bits and, where wanted, of bits
//! of the initial state.
//!
//! - [`term`]: the input bits that the equations are made of, and their
//!   order.
//! - [`terms`]: expressions, that is sets of terms, and their XOR.
//! - [`register`]: taps, one clock, and the unrolling of a data word.
//! - [`semantics`]: the register on bits, and the proof that the equations
//!   give it.
//! - [`text`]: the equations written out.
//! - [`lfsr`]: a register with its parameters, and the module that states
//!   its equations.

pub mod lfsr;
pub mod register;
pub mod semantics;
pub mod term;
pub mod terms;
pub mod text;

pub use lfsr::{Lfsr, LfsrConfig, RangeError};
pub use register::{clock, u64_to_vecbool, unroll, unroll_lfsr};
pub use term::{Term, Variable};
pub use terms::Terms;
pub use text::state_to_s;
