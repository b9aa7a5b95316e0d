//! Number theoretic transform over word-sized prime fields, with Shoup's
//! precomputed-quotient modular multiplication.
pub mod arith;
pub mod backend;
pub mod bit_reverse;
pub mod butterfly;
pub mod convolution;
pub mod fermat;
pub mod ntt;
pub mod ntt_spec;
