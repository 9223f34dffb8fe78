use vstd::prelude::*;

verus! {

/// One decoded instruction of the closed instruction set.
///
/// `Return` carries no operand; `Const` carries a key into the constant
/// pool, issued when the referenced literal was interned.
#[derive(Debug, Clone, Copy, PartialEq, Eq, Structural)]
pub enum OpCode {
    Return,
    Const(usize),
}

} // verus!
