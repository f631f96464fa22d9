use vstd::prelude::*;
use crate::ids::{IdentifierId, InstructionId, ScopeId, TypeVarId};

verus! {

/// A span of instruction ids in which a value may change: `start` inclusive,
/// `end` exclusive (the first instruction at which the value is no longer
/// mutable).
#[derive(Clone, Copy, PartialEq, Eq, Structural, Debug)]
pub struct MutableRange {
    pub start: InstructionId,
    pub end: InstructionId,
}

impl MutableRange {
    /// The empty range at zero, until analysis assigns one.
    pub fn new() -> (r: MutableRange)
        ensures
            r.start.0 == 0,
            r.end.0 == 0,
    {
        MutableRange { start: InstructionId(0), end: InstructionId(0) }
    }
}

impl Default for MutableRange {
    fn default() -> (r: MutableRange)
        ensures
            r.start.0 == 0,
            r.end.0 == 0,
    {
        MutableRange::new()
    }
}

/// A group of instructions recomputed together under memoization.
#[derive(Clone, Copy, PartialEq, Eq, Structural, Debug)]
pub struct ReactiveScope {
    pub id: ScopeId,
    pub range: MutableRange,
}

/// The type of an identifier: unresolved, or one of the resolved kinds.
#[derive(Clone, Copy, PartialEq, Eq, Structural, Debug)]
pub enum Type {
    Var(TypeVarId),
    Primitive,
    Object,
    Function,
}

/// What analysis learns of an identifier. It is held once per identifier, in
/// the environment's arena, and every reference reaches it through the id.
#[derive(Clone, Copy, PartialEq, Eq, Structural, Debug)]
pub struct IdentifierData {
    pub mutable_range: MutableRange,
    pub scope: Option<ReactiveScope>,
    pub type_: Type,
}

/// A variable, distinct from any one reference to it.
#[derive(Debug)]
pub struct Identifier {
    /// Uniquely identifies this identifier
    pub id: IdentifierId,
    pub name: Option<String>,
}

impl Identifier {
    /// A copy of this identifier.
    pub fn duplicate(&self) -> (r: Identifier)
        ensures
            r == *self,
    {
        let name = match &self.name {
            Some(name) => Some(name.clone()),
            None => None,
        };
        Identifier { id: self.id, name }
    }
}

} // verus!
