use vstd::prelude::*;

verus! {

/// The instructions of the bytecode format.
#[derive(Debug, Clone, Copy, PartialEq, Eq)]
pub enum OpCode {
    OpReturn,
}

/// A sequence of bytecode instructions.
pub struct Chunk {
    pub code: Vec<OpCode>,
}

impl Chunk {
    /// An empty chunk.
    pub fn new() -> (r: Self)
        ensures
            r.code@.len() == 0,
    {
        Chunk { code: Vec::new() }
    }
}

} // verus!
