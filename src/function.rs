use vstd::prelude::*;
use crate::instruction::{IdentifierOperand, Instruction, Operand};
use crate::ids::{BlockId, InstrIx, InstructionId};

verus! {

/// How a goto leaves its block.
#[derive(Clone, Copy, PartialEq, Eq, Structural, Debug)]
pub enum GotoKind {
    /// Exits an enclosing scope, such as a label.
    Break,
    /// Continues to the next block in program order.
    Continue,
}

#[derive(Clone, Copy, PartialEq, Eq, Structural, Debug)]
pub struct GotoTerminal {
    pub block: BlockId,
    pub kind: GotoKind,
}

#[derive(Clone, Copy, PartialEq, Eq, Structural, Debug)]
pub struct IfTerminal {
    pub test: Operand,
    pub consequent: BlockId,
    pub alternate: BlockId,
}

/// Opens a scope whose body starts at `block`; a break out of it, or the end
/// of the body, continues at `fallthrough`.
#[derive(Clone, Copy, PartialEq, Eq, Structural, Debug)]
pub struct LabelTerminal {
    pub block: BlockId,
    pub fallthrough: Option<BlockId>,
}

#[derive(Clone, Copy, PartialEq, Eq, Structural, Debug)]
pub struct ReturnTerminal {
    pub value: Operand,
}

#[derive(Clone, Copy, PartialEq, Eq, Structural, Debug)]
pub enum TerminalValue {
    Goto(GotoTerminal),
    If(IfTerminal),
    Label(LabelTerminal),
    Return(ReturnTerminal),
}

/// The control transfer that ends a block.
#[derive(Clone, Copy, PartialEq, Eq, Structural, Debug)]
pub struct Terminal {
    pub id: InstructionId,
    pub value: TerminalValue,
}

#[derive(Clone, Copy, PartialEq, Eq, Structural, Debug)]
pub enum BlockKind {
    Block,
    Value,
    Loop,
    Sequence,
}

/// A straight-line run of instructions ending in exactly one terminal.
#[derive(Debug)]
pub struct BasicBlock {
    pub id: BlockId,
    pub kind: BlockKind,
    pub instructions: Vec<InstrIx>,
    /// Recomputed by `initialize_hir`, never kept up by hand.
    pub predecessors: Vec<BlockId>,
    pub terminal: Terminal,
}

/// A function body: its instructions, its blocks, and the entry block.
#[derive(Debug)]
pub struct HIR {
    pub entry: BlockId,
    pub blocks: Vec<BasicBlock>,
    pub instructions: Vec<Instruction>,
}

#[derive(Debug)]
pub struct Function {
    pub params: Vec<IdentifierOperand>,
    pub is_async: bool,
    pub is_generator: bool,
    pub body: HIR,
}

/// The blocks control may pass to from a terminal, in order.
pub open spec fn successors(t: TerminalValue) -> Seq<BlockId> {
    match t {
        TerminalValue::Goto(g) => seq![g.block],
        TerminalValue::If(i) => seq![i.consequent, i.alternate],
        TerminalValue::Label(l) => match l.fallthrough {
            Some(f) => seq![l.block, f],
            None => seq![l.block],
        },
        TerminalValue::Return(_) => Seq::empty(),
    }
}

impl Terminal {
    pub fn successors(&self) -> (r: Vec<BlockId>)
        ensures
            r@ == successors(self.value),
    {
        let mut r: Vec<BlockId> = Vec::new();
        match &self.value {
            TerminalValue::Goto(g) => r.push(g.block),
            TerminalValue::If(i) => {
                r.push(i.consequent);
                r.push(i.alternate);
            },
            TerminalValue::Label(l) => {
                r.push(l.block);
                if let Some(f) = l.fallthrough {
                    r.push(f);
                }
            },
            TerminalValue::Return(_) => {},
        }
        proof {
            assert(r@ =~= successors(self.value));
        }
        r
    }
}


/// Puts `value` in place of what `dest` holds, and hands back the old content.
pub(crate) fn exchange<T>(dest: &mut T, value: T) -> (r: T)
    ensures
        r == *old(dest),
        *final(dest) == value,
{
    let mut value = value;
    core::mem::swap(dest, &mut value);
    value
}

} // verus!
