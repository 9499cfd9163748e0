use vstd::prelude::*;

verus! {

/// The word written at the base of every stack; a changed word means the
/// stack overflowed into it.
pub const STACK_CANARY: u64 = 0xDEADC0DECAFEBABE;

/// The word to write at the base of a new stack.
pub fn init_stack_canary() -> (w: u64)
    ensures
        w == STACK_CANARY,
{
    STACK_CANARY
}

/// Whether the word read at the base of a stack is still the canary.
pub fn check_stack_canary(word: u64) -> (ok: bool)
    ensures
        ok == (word == STACK_CANARY),
{
    word == STACK_CANARY
}

} // verus!
