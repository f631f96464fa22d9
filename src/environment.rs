use vstd::prelude::*;
use crate::identifier::{Identifier, IdentifierData, MutableRange, Type};
use crate::ids::{BlockId, IdentifierId, TypeVarId};

verus! {

/// State shared by the compilation of one function tree: the counters that
/// issue fresh identifier, block and type-variable ids, and the arena that holds
/// each identifier's data under its id. The counters are shared with every
/// nested function, which is what keeps block ids unique across the tree.
#[derive(Debug)]
pub struct Environment {
    next_identifier: u32,
    next_block: u32,
    next_type_var: u32,
    identifiers: Vec<IdentifierData>,
}

impl Environment {
    /// The id the next new identifier gets.
    pub closed spec fn identifier_counter(&self) -> nat {
        self.next_identifier as nat
    }

    /// The id the next new block gets.
    pub closed spec fn block_counter(&self) -> nat {
        self.next_block as nat
    }

    /// The id the next new type variable gets.
    pub closed spec fn type_var_counter(&self) -> nat {
        self.next_type_var as nat
    }

    /// The data of every identifier issued so far, indexed by id.
    pub closed spec fn identifier_data(&self) -> Seq<IdentifierData> {
        self.identifiers@
    }

    pub closed spec fn wf(&self) -> bool {
        self.identifiers@.len() == self.next_identifier
    }

    /// Room is left for `n` more ids of each kind.
    pub open spec fn has_room(&self, n: nat) -> bool {
        &&& self.identifier_counter() + n <= u32::MAX
        &&& self.block_counter() + n <= u32::MAX
        &&& self.type_var_counter() + n <= u32::MAX
    }

    /// An environment whose block ids start at `first_block_id`, the blocks
    /// below it being already taken.
    pub fn new(first_block_id: u32) -> (r: Environment)
        ensures
            r.wf(),
            r.identifier_counter() == 0,
            r.block_counter() == first_block_id,
            r.type_var_counter() == 0,
    {
        Environment {
            next_identifier: 0,
            next_block: first_block_id,
            next_type_var: 0,
            identifiers: Vec::new(),
        }
    }

    /// Issues a fresh block id.
    pub fn next_block_id(&mut self) -> (r: BlockId)
        requires
            old(self).block_counter() < u32::MAX,
        ensures
            r.0 == old(self).block_counter(),
            final(self).block_counter() == old(self).block_counter() + 1,
            final(self).identifier_counter() == old(self).identifier_counter(),
            final(self).type_var_counter() == old(self).type_var_counter(),
            final(self).identifier_data() == old(self).identifier_data(),
            final(self).wf() == old(self).wf(),
    {
        let r = BlockId(self.next_block);
        self.next_block = self.next_block + 1;
        r
    }

    /// Issues a fresh type variable id.
    pub fn next_type_var_id(&mut self) -> (r: TypeVarId)
        requires
            old(self).type_var_counter() < u32::MAX,
        ensures
            r.0 == old(self).type_var_counter(),
            final(self).type_var_counter() == old(self).type_var_counter() + 1,
            final(self).identifier_counter() == old(self).identifier_counter(),
            final(self).block_counter() == old(self).block_counter(),
            final(self).identifier_data() == old(self).identifier_data(),
            final(self).wf() == old(self).wf(),
    {
        let r = TypeVarId(self.next_type_var);
        self.next_type_var = self.next_type_var + 1;
        r
    }

    /// Issues a fresh identifier whose type is a fresh type variable and whose
    /// mutable range is empty, and records its data under its id.
    pub fn new_identifier(&mut self, name: Option<String>) -> (r: Identifier)
        requires
            old(self).wf(),
            old(self).identifier_counter() < u32::MAX,
            old(self).type_var_counter() < u32::MAX,
        ensures
            final(self).wf(),
            r.id.0 == old(self).identifier_counter(),
            r.name == name,
            final(self).identifier_counter() == old(self).identifier_counter() + 1,
            final(self).type_var_counter() == old(self).type_var_counter() + 1,
            final(self).block_counter() == old(self).block_counter(),
            final(self).identifier_data() == old(self).identifier_data().push(
                IdentifierData {
                    mutable_range: MutableRange {
                        start: crate::ids::InstructionId(0),
                        end: crate::ids::InstructionId(0),
                    },
                    scope: None,
                    type_: Type::Var(TypeVarId(old(self).type_var_counter() as u32)),
                },
            ),
    {
        let type_var = self.next_type_var_id();
        let id = IdentifierId(self.next_identifier);
        self.identifiers.push(
            IdentifierData { mutable_range: MutableRange::new(), scope: None, type_: Type::Var(type_var) },
        );
        self.next_identifier = self.next_identifier + 1;
        Identifier { id, name }
    }

    /// The data of an identifier issued by this environment.
    pub fn identifier(&self, id: IdentifierId) -> (r: &IdentifierData)
        requires
            id.0 < self.identifier_counter(),
            self.wf(),
        ensures
            *r == self.identifier_data()[id.0 as int],
    {
        &self.identifiers[id.0 as usize]
    }

    /// Replaces the data of an identifier issued by this environment.
    pub fn set_identifier(&mut self, id: IdentifierId, data: IdentifierData)
        requires
            id.0 < old(self).identifier_counter(),
            old(self).wf(),
        ensures
            final(self).wf(),
            final(self).identifier_data() == old(self).identifier_data().update(id.0 as int, data),
            final(self).identifier_counter() == old(self).identifier_counter(),
            final(self).block_counter() == old(self).block_counter(),
            final(self).type_var_counter() == old(self).type_var_counter(),
    {
        self.identifiers.set(id.0 as usize, data);
    }
}

} // verus!
