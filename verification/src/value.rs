use vstd::prelude::*;

verus! {

/// A numeric literal held by the constant pool.
///
/// The literal is a double-precision number; its identity is nothing but
/// its bit pattern, carried here in `bits`. `text` carries the literal's
/// default decimal rendering, produced by whoever converted the number to
/// this representation; the disassembler prints it verbatim.
#[derive(Debug, PartialEq, Eq)]
pub struct Value {
    /// The literal's bit pattern: its whole identity.
    pub bits: u64,
    /// The literal's default textual form.
    pub text: String,
}

impl Clone for Value {
    fn clone(&self) -> (r: Self)
        ensures
            r.bits == self.bits,
            r.text@ == self.text@,
    {
        Value { bits: self.bits, text: self.text.clone() }
    }
}

} // verus!
