use vstd::prelude::*;

verus! {

/// Everything that can go wrong while compiling or running a FRACTRAN
/// program.
///
/// The first two are rejections of malformed source expressions. The
/// overflow variants enforce the fixed widths this implementation chooses
/// (`usize` literals and compile-time products, 32-bit register counters):
/// rather than wrapping silently, every stage fails loudly.
#[derive(Clone, Copy, Debug, PartialEq, Eq, Structural)]
pub enum FractranError {
    /// An expression node outside literals, `+`, `*`, `/` and `^`.
    UnsupportedExpression,
    /// The right operand of `^` is a fraction whose denominator is not
    /// all ones.
    NonIntegerExponent,
    /// A compile-time product or sum of literals does not fit in `usize`.
    ArithmeticOverflow,
    /// A literal is zero, or cannot be factorised within the sieve bound,
    /// or a per-register exponent sum does not fit in `usize`.
    FactorizationOverflow,
    /// A cancelled exponent does not fit in a 32-bit register counter.
    CounterOverflow,
    /// More initial register values were supplied than the program has
    /// registers.
    InitialStateTooLong,
    /// Applying a rule would push a register counter past `u32::MAX`.
    StepOverflow,
}

} // verus!
