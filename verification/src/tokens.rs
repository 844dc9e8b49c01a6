use vstd::prelude::*;

verus! {

/// The closed set of lexical categories the scanner can emit.
///
/// No sign is attached to `Plus`/`Minus` at the lexical level; operator
/// semantics are left to a downstream consumer.
#[derive(Clone, Copy, Debug, PartialEq, Eq, Structural)]
pub enum Token {
    /// The literal character `+`.
    Plus,
    /// The literal character `-`.
    Minus,
    /// An unsigned integer value parsed from a maximal contiguous run of
    /// decimal digit characters.
    Number(usize),
}

} // verus!
