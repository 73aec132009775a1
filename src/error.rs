use vstd::prelude::*;

verus! {

/// The recoverable faults that the machine reports to its host.
#[derive(Debug, Clone, Copy, PartialEq, Eq, Structural)]
pub enum Chip8Error {
    /// An address, or a range of addresses, reaches past the 4096-byte space.
    OutOfBounds,
    /// A general register index above `0xF`.
    InvalidRegister,
    /// An instruction word with no handler; it carries the word.
    UnsupportedOpcode(u16),
    /// A call with all sixteen stack slots in use.
    StackOverflow,
    /// A return with an empty call stack.
    StackUnderflow,
}

} // verus!
