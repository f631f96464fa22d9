use vstd::prelude::*;

verus! {

/// Index of an instruction in its function's instruction list.
#[derive(Clone, Copy, PartialEq, Eq, Structural, PartialOrd, Ord, Hash, Debug)]
pub struct InstrIx(pub u32);

/// Id of an instruction, used for diagnostics and mutable ranges only.
#[derive(Clone, Copy, PartialEq, Eq, Structural, PartialOrd, Ord, Hash, Debug)]
pub struct InstructionId(pub u32);

/// Id of a basic block, unique across a function and the functions nested in it.
#[derive(Clone, Copy, PartialEq, Eq, Structural, PartialOrd, Ord, Hash, Debug)]
pub struct BlockId(pub u32);

/// Id of an identifier.
#[derive(Clone, Copy, PartialEq, Eq, Structural, PartialOrd, Ord, Hash, Debug)]
pub struct IdentifierId(pub u32);

/// Id of a reactive scope.
#[derive(Clone, Copy, PartialEq, Eq, Structural, PartialOrd, Ord, Hash, Debug)]
pub struct ScopeId(pub u32);

/// Id of a type variable.
#[derive(Clone, Copy, PartialEq, Eq, Structural, PartialOrd, Ord, Hash, Debug)]
pub struct TypeVarId(pub u32);

impl InstrIx {
    pub fn new(ix: u32) -> (r: InstrIx)
        ensures
            r.0 == ix,
    {
        InstrIx(ix)
    }

    /// The index as a position in the instruction list.
    pub fn index(self) -> (r: usize)
        ensures
            r == self.0,
    {
        self.0 as usize
    }
}

} // verus!
