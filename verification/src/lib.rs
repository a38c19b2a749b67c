//! A FRACTRAN compiler and interpreter.
//!
//! A FRACTRAN program is an ordered list of positive fractions; its state is
//! a vector of counters, one per prime register (register 0 is the exponent
//! of 2, register 1 of 3, and so on). Each step applies the first fraction
//! whose denominator exponents the state can pay, or halts.
//!
//! The pipeline: an arithmetic expression per fraction is compiled into
//! lists of unmultiplied literal factors ([`expr`]), the literals are prime
//! factorised and mapped onto registers with shared factors cancelled
//! ([`fract`]), and the resulting guarded rules are run by a register
//! machine ([`machine`]).

mod errors;
mod expr;
mod fract;
mod machine;
mod primes;

pub use errors::FractranError;
pub use expr::{extract_expr, extract_exprs, Expr, Fract};
pub use fract::factorise;
pub use machine::{compile_program, synthesize, Fractran, Machine, Program, Rule, Step};
