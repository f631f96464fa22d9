use vstd::prelude::*;
use crate::function::{BasicBlock, IfTerminal, ReturnTerminal, Terminal, TerminalValue, HIR};
use crate::ids::InstrIx;
use crate::instruction::{
    Array, Binary, Call, FunctionExpression, Instruction, InstructionValue, JSXAttribute, JSXElement,
    LoadContext, Operand, PlaceOrSpread, StoreLocal,
};

verus! {

/// The operand refers to one of the first `n` instructions.
pub open spec fn operand_below(o: Operand, n: nat) -> bool {
    o.ix.0 < n
}

pub open spec fn place_below(p: PlaceOrSpread, n: nat) -> bool {
    match p {
        PlaceOrSpread::Place(o) => operand_below(o, n),
        PlaceOrSpread::Spread(o) => operand_below(o, n),
    }
}

pub open spec fn attribute_below(a: JSXAttribute, n: nat) -> bool {
    match a {
        JSXAttribute::Spread { argument } => operand_below(argument, n),
        JSXAttribute::Attribute { value, .. } => operand_below(value, n),
    }
}

/// Every operand of the instruction refers to one of the first `n` instructions.
pub open spec fn value_below(v: InstructionValue, n: nat) -> bool {
    match v {
        InstructionValue::Array(a) => forall|k: int|
            0 <= k < a.elements@.len() ==> match #[trigger] a.elements@[k] {
                Some(p) => place_below(p, n),
                None => true,
            },
        InstructionValue::Binary(b) => operand_below(b.left, n) && operand_below(b.right, n),
        InstructionValue::Call(c) => operand_below(c.callee, n) && forall|k: int|
            0 <= k < c.arguments@.len() ==> place_below(#[trigger] c.arguments@[k], n),
        InstructionValue::StoreLocal(s) => operand_below(s.value, n),
        InstructionValue::LoadContext(l) => operand_below(l.place, n),
        InstructionValue::Function(f) => forall|k: int|
            0 <= k < f.dependencies@.len() ==> operand_below(#[trigger] f.dependencies@[k], n),
        InstructionValue::JSXElement(j) => operand_below(j.tag, n) && (forall|k: int|
            0 <= k < j.props@.len() ==> attribute_below(#[trigger] j.props@[k], n)) && match j.children {
            Some(c) => forall|k: int| 0 <= k < c@.len() ==> operand_below(#[trigger] c@[k], n),
            None => true,
        },
        _ => true,
    }
}

pub open spec fn terminal_below(t: TerminalValue, n: nat) -> bool {
    match t {
        TerminalValue::If(i) => operand_below(i.test, n),
        TerminalValue::Return(r) => operand_below(r.value, n),
        _ => true,
    }
}

/// Every index in the block, and every operand of its terminal, refers to one
/// of the first `n` instructions.
pub open spec fn block_below(b: BasicBlock, n: nat) -> bool {
    &&& forall|k: int| 0 <= k < b.instructions@.len() ==> (#[trigger] b.instructions@[k]).0 < n
    &&& terminal_below(b.terminal.value, n)
}

/// Every reference in the body stays inside its instruction list, and the list
/// can be indexed by `u32`.
pub open spec fn references_in_bounds(body: HIR) -> bool {
    let n = body.instructions@.len();
    &&& n <= u32::MAX
    &&& forall|k: int| 0 <= k < n ==> value_below(#[trigger] body.instructions@[k].value, n)
    &&& forall|k: int| 0 <= k < body.blocks@.len() ==> block_below(#[trigger] body.blocks@[k], n)
}

/// Raising the bound keeps an instruction's operands below it.
pub(crate) proof fn lemma_value_below_grows(v: InstructionValue, n: nat, m: nat)
    requires
        value_below(v, n),
        n <= m,
    ensures
        value_below(v, m),
{
    match v {
        InstructionValue::Array(a) => {
            assert forall|k: int| 0 <= k < a.elements@.len() implies match #[trigger] a.elements@[k] {
                Some(p) => place_below(p, m),
                None => true,
            } by {
                assert(match a.elements@[k] {
                    Some(p) => place_below(p, n),
                    None => true,
                });
            }
        },
        InstructionValue::Call(c) => {
            assert forall|k: int| 0 <= k < c.arguments@.len() implies place_below(#[trigger] c.arguments@[k], m) by {
                assert(place_below(c.arguments@[k], n));
            }
        },
        InstructionValue::JSXElement(j) => {
            assert forall|k: int| 0 <= k < j.props@.len() implies attribute_below(#[trigger] j.props@[k], m) by {
                assert(attribute_below(j.props@[k], n));
            }
        },
        _ => {},
    }
}

pub open spec fn shift_ix(ix: InstrIx, off: nat) -> InstrIx {
    InstrIx((ix.0 + off) as u32)
}

pub open spec fn shift_operand(o: Operand, off: nat) -> Operand {
    Operand { ix: shift_ix(o.ix, off), effect: o.effect }
}

pub open spec fn shift_place(p: PlaceOrSpread, off: nat) -> PlaceOrSpread {
    match p {
        PlaceOrSpread::Place(o) => PlaceOrSpread::Place(shift_operand(o, off)),
        PlaceOrSpread::Spread(o) => PlaceOrSpread::Spread(shift_operand(o, off)),
    }
}

pub open spec fn shift_element(e: Option<PlaceOrSpread>, off: nat) -> Option<PlaceOrSpread> {
    match e {
        Some(p) => Some(shift_place(p, off)),
        None => None,
    }
}

pub open spec fn shift_attribute(a: JSXAttribute, off: nat) -> JSXAttribute {
    match a {
        JSXAttribute::Spread { argument } => JSXAttribute::Spread { argument: shift_operand(argument, off) },
        JSXAttribute::Attribute { name, value } => JSXAttribute::Attribute {
            name,
            value: shift_operand(value, off),
        },
    }
}

/// Operands of `s` moved up by `off`.
pub open spec fn shift_operands(s: Seq<Operand>, off: nat) -> Seq<Operand> {
    s.map_values(|o: Operand| shift_operand(o, off))
}

/// `b` is the instruction `a` with every operand moved up by `off`. A nested
/// function's own body is left as it is: it indexes its own instructions.
pub open spec fn value_shifted(a: InstructionValue, b: InstructionValue, off: nat) -> bool {
    match (a, b) {
        (InstructionValue::Array(x), InstructionValue::Array(y)) => y.elements@ == x.elements@.map_values(
            |e| shift_element(e, off),
        ),
        (InstructionValue::Binary(x), InstructionValue::Binary(y)) => y.left == shift_operand(x.left, off)
            && y.operator == x.operator && y.right == shift_operand(x.right, off),
        (InstructionValue::Call(x), InstructionValue::Call(y)) => y.callee == shift_operand(x.callee, off)
            && y.arguments@ == x.arguments@.map_values(|p| shift_place(p, off)),
        (InstructionValue::StoreLocal(x), InstructionValue::StoreLocal(y)) => y.lvalue == x.lvalue
            && y.value == shift_operand(x.value, off),
        (InstructionValue::LoadContext(x), InstructionValue::LoadContext(y)) => y.place == shift_operand(
            x.place,
            off,
        ),
        (InstructionValue::Function(x), InstructionValue::Function(y)) => y.dependencies@ == shift_operands(
            x.dependencies@,
            off,
        ) && y.lowered_function == x.lowered_function,
        (InstructionValue::JSXElement(x), InstructionValue::JSXElement(y)) => y.tag == shift_operand(x.tag, off)
            && y.props@ == x.props@.map_values(|a| shift_attribute(a, off)) && match (x.children, y.children) {
            (Some(cx), Some(cy)) => cy@ == shift_operands(cx@, off),
            (None, None) => true,
            _ => false,
        },
        (InstructionValue::DeclareContext(_), _)
        | (InstructionValue::DeclareLocal(_), _)
        | (InstructionValue::LoadGlobal(_), _)
        | (InstructionValue::LoadLocal(_), _)
        | (InstructionValue::Primitive(_), _)
        | (InstructionValue::Tombstone, _) => b == a,
        _ => false,
    }
}

pub open spec fn terminal_shifted(a: TerminalValue, off: nat) -> TerminalValue {
    match a {
        TerminalValue::If(i) => TerminalValue::If(IfTerminal { test: shift_operand(i.test, off), ..i }),
        TerminalValue::Return(r) => TerminalValue::Return(ReturnTerminal { value: shift_operand(r.value, off) }),
        _ => a,
    }
}

/// `b` is the block `a` with every instruction index moved up by `off`.
pub open spec fn block_shifted(a: BasicBlock, b: BasicBlock, off: nat) -> bool {
    &&& b.id == a.id
    &&& b.kind == a.kind
    &&& b.predecessors == a.predecessors
    &&& b.instructions@ == a.instructions@.map_values(|ix| shift_ix(ix, off))
    &&& b.terminal.id == a.terminal.id
    &&& b.terminal.value == terminal_shifted(a.terminal.value, off)
}

fn shift_op(o: Operand, off: u32) -> (r: Operand)
    requires
        o.ix.0 + off <= u32::MAX,
    ensures
        r == shift_operand(o, off as nat),
{
    Operand { ix: InstrIx(o.ix.0 + off), effect: o.effect }
}

fn shift_pl(p: PlaceOrSpread, off: u32) -> (r: PlaceOrSpread)
    requires
        place_operand_fits(p, off as nat),
    ensures
        r == shift_place(p, off as nat),
{
    match p {
        PlaceOrSpread::Place(o) => PlaceOrSpread::Place(shift_op(o, off)),
        PlaceOrSpread::Spread(o) => PlaceOrSpread::Spread(shift_op(o, off)),
    }
}

pub open spec fn place_operand_fits(p: PlaceOrSpread, off: nat) -> bool {
    match p {
        PlaceOrSpread::Place(o) => o.ix.0 + off <= u32::MAX,
        PlaceOrSpread::Spread(o) => o.ix.0 + off <= u32::MAX,
    }
}

fn shift_op_vec(v: &Vec<Operand>, n: Ghost<nat>, off: u32) -> (r: Vec<Operand>)
    requires
        forall|k: int| 0 <= k < v@.len() ==> operand_below(#[trigger] v@[k], n@),
        n@ + off <= u32::MAX,
    ensures
        r@ == shift_operands(v@, off as nat),
{
    let mut r: Vec<Operand> = Vec::new();
    let mut i: usize = 0;
    while i < v.len()
        invariant
            i <= v@.len(),
            forall|k: int| 0 <= k < v@.len() ==> operand_below(#[trigger] v@[k], n@),
            n@ + off <= u32::MAX,
            r@ == shift_operands(v@.take(i as int), off as nat),
        decreases v@.len() - i,
    {
        r.push(shift_op(v[i], off));
        i = i + 1;
        proof {
            assert(r@ =~= shift_operands(v@.take(i as int), off as nat));
        }
    }
    proof {
        assert(v@.take(i as int) =~= v@);
    }
    r
}

/// The instruction with every operand moved up by `off`.
fn shift_instruction_value(v: InstructionValue, n: Ghost<nat>, off: u32) -> (r: InstructionValue)
    requires
        value_below(v, n@),
        n@ + off <= u32::MAX,
    ensures
        value_shifted(v, r, off as nat),
{
    match v {
        InstructionValue::Array(a) => {
            let mut elements: Vec<Option<PlaceOrSpread>> = Vec::new();
            let mut i: usize = 0;
            while i < a.elements.len()
                invariant
                    i <= a.elements@.len(),
                    value_below(InstructionValue::Array(a), n@),
                    n@ + off <= u32::MAX,
                    elements@ == a.elements@.take(i as int).map_values(|e| shift_element(e, off as nat)),
                decreases a.elements@.len() - i,
            {
                let e = match a.elements[i] {
                    Some(p) => {
                        assert(match a.elements@[i as int] {
                            Some(p) => place_below(p, n@),
                            None => true,
                        });
                        Some(shift_pl(p, off))
                    },
                    None => None,
                };
                elements.push(e);
                i = i + 1;
                proof {
                    assert(elements@ =~= a.elements@.take(i as int).map_values(|e| shift_element(e, off as nat)));
                }
            }
            proof {
                assert(a.elements@.take(i as int) =~= a.elements@);
            }
            InstructionValue::Array(Array { elements })
        },
        InstructionValue::Binary(b) => InstructionValue::Binary(
            Binary { left: shift_op(b.left, off), operator: b.operator, right: shift_op(b.right, off) },
        ),
        InstructionValue::Call(c) => {
            let mut arguments: Vec<PlaceOrSpread> = Vec::new();
            let mut i: usize = 0;
            while i < c.arguments.len()
                invariant
                    i <= c.arguments@.len(),
                    forall|k: int| 0 <= k < c.arguments@.len() ==> place_below(#[trigger] c.arguments@[k], n@),
                    n@ + off <= u32::MAX,
                    arguments@ == c.arguments@.take(i as int).map_values(|p| shift_place(p, off as nat)),
                decreases c.arguments@.len() - i,
            {
                assert(place_below(c.arguments@[i as int], n@));
                arguments.push(shift_pl(c.arguments[i], off));
                i = i + 1;
                proof {
                    assert(arguments@ =~= c.arguments@.take(i as int).map_values(|p| shift_place(p, off as nat)));
                }
            }
            proof {
                assert(c.arguments@.take(i as int) =~= c.arguments@);
            }
            InstructionValue::Call(Call { callee: shift_op(c.callee, off), arguments })
        },
        InstructionValue::StoreLocal(s) => {
            let value = shift_op(s.value, off);
            InstructionValue::StoreLocal(StoreLocal { lvalue: s.lvalue, value })
        },
        InstructionValue::LoadContext(l) => InstructionValue::LoadContext(
            LoadContext { place: shift_op(l.place, off) },
        ),
        InstructionValue::Function(f) => {
            let dependencies = shift_op_vec(&f.dependencies, n, off);
            InstructionValue::Function(
                FunctionExpression { dependencies, lowered_function: f.lowered_function },
            )
        },
        InstructionValue::JSXElement(j) => {
            let mut props: Vec<JSXAttribute> = Vec::new();
            let mut i: usize = 0;
            while i < j.props.len()
                invariant
                    i <= j.props@.len(),
                    forall|k: int| 0 <= k < j.props@.len() ==> attribute_below(#[trigger] j.props@[k], n@),
                    n@ + off <= u32::MAX,
                    props@ == j.props@.take(i as int).map_values(|a| shift_attribute(a, off as nat)),
                decreases j.props@.len() - i,
            {
                assert(attribute_below(j.props@[i as int], n@));
                let a = match &j.props[i] {
                    JSXAttribute::Spread { argument } => JSXAttribute::Spread {
                        argument: shift_op(*argument, off),
                    },
                    JSXAttribute::Attribute { name, value } => JSXAttribute::Attribute {
                        name: name.clone(),
                        value: shift_op(*value, off),
                    },
                };
                props.push(a);
                i = i + 1;
                proof {
                    assert(props@ =~= j.props@.take(i as int).map_values(|a| shift_attribute(a, off as nat)));
                }
            }
            proof {
                assert(j.props@.take(i as int) =~= j.props@);
            }
            let children = match &j.children {
                Some(c) => Some(shift_op_vec(c, n, off)),
                None => None,
            };
            InstructionValue::JSXElement(JSXElement { tag: shift_op(j.tag, off), props, children })
        },
        other => other,
    }
}


/// The elements of `v` in reverse order.
pub(crate) fn reversed<T>(v: Vec<T>) -> (r: Vec<T>)
    ensures
        r@.len() == v@.len(),
        forall|m: int| 0 <= m < v@.len() ==> #[trigger] r@[m] == v@[v@.len() - 1 - m],
{
    let ghost v0 = v@;
    let mut v = v;
    let mut r: Vec<T> = Vec::new();
    while v.len() > 0
        invariant
            v@.len() + r@.len() == v0.len(),
            v@ == v0.take(v@.len() as int),
            forall|m: int| 0 <= m < r@.len() ==> #[trigger] r@[m] == v0[v0.len() - 1 - m],
        decreases v@.len(),
    {
        let x = v.pop().unwrap();
        r.push(x);
        proof {
            assert(v@ =~= v0.take(v@.len() as int));
        }
    }
    r
}

fn shift_block(b: BasicBlock, n: Ghost<nat>, off: u32) -> (r: BasicBlock)
    requires
        block_below(b, n@),
        n@ + off <= u32::MAX,
    ensures
        block_shifted(b, r, off as nat),
{
    let mut instructions: Vec<InstrIx> = Vec::new();
    let mut i: usize = 0;
    while i < b.instructions.len()
        invariant
            i <= b.instructions@.len(),
            block_below(b, n@),
            n@ + off <= u32::MAX,
            instructions@ == b.instructions@.take(i as int).map_values(|ix| shift_ix(ix, off as nat)),
        decreases b.instructions@.len() - i,
    {
        assert(b.instructions@[i as int].0 < n@);
        instructions.push(InstrIx(b.instructions[i].0 + off));
        i = i + 1;
        proof {
            assert(instructions@ =~= b.instructions@.take(i as int).map_values(|ix| shift_ix(ix, off as nat)));
        }
    }
    proof {
        assert(b.instructions@.take(i as int) =~= b.instructions@);
    }
    let value = match b.terminal.value {
        TerminalValue::If(t) => TerminalValue::If(
            IfTerminal { test: shift_op(t.test, off), consequent: t.consequent, alternate: t.alternate },
        ),
        TerminalValue::Return(t) => TerminalValue::Return(ReturnTerminal { value: shift_op(t.value, off) }),
        other => other,
    };
    BasicBlock {
        id: b.id,
        kind: b.kind,
        instructions,
        predecessors: b.predecessors,
        terminal: Terminal { id: b.terminal.id, value },
    }
}

impl HIR {
    /// Moves the instructions and blocks of `other` into this body. The
    /// instructions of `other` go after this body's own, so each of its
    /// instruction indices moves up by this body's former instruction count.
    /// Block ids are kept: they are unique across a function tree.
    pub fn inline(&mut self, other: HIR)
        requires
            references_in_bounds(other),
            old(self).instructions@.len() + other.instructions@.len() <= u32::MAX,
        ensures
            final(self).entry == old(self).entry,
            final(self).instructions@.len() == old(self).instructions@.len() + other.instructions@.len(),
            final(self).instructions@.take(old(self).instructions@.len() as int) == old(self).instructions@,
            forall|k: int|
                0 <= k < other.instructions@.len() ==> {
                    let a = other.instructions@[k];
                    let b = #[trigger] final(self).instructions@[old(self).instructions@.len() + k];
                    b.id == a.id && value_shifted(a.value, b.value, old(self).instructions@.len() as nat)
                },
            final(self).blocks@.len() == old(self).blocks@.len() + other.blocks@.len(),
            final(self).blocks@.take(old(self).blocks@.len() as int) == old(self).blocks@,
            forall|k: int|
                0 <= k < other.blocks@.len() ==> block_shifted(
                    other.blocks@[k],
                    #[trigger] final(self).blocks@[old(self).blocks@.len() + k],
                    old(self).instructions@.len() as nat,
                ),
    {
        let ghost s0 = *self;
        let ghost o0 = other;
        let n: Ghost<nat> = Ghost(other.instructions@.len());
        let off = self.instructions.len() as u32;
        let mut pending = reversed(other.instructions);
        let mut k: usize = 0;
        while pending.len() > 0
            invariant
                k + pending@.len() == o0.instructions@.len(),
                n@ == o0.instructions@.len(),
                references_in_bounds(o0),
                off == s0.instructions@.len(),
                n@ + off <= u32::MAX,
                forall|m: int| 0 <= m < pending@.len() ==> #[trigger] pending@[m] == o0.instructions@[
                    o0.instructions@.len() - 1 - m],
                self.entry == s0.entry,
                self.blocks == s0.blocks,
                self.instructions@.len() == off + k,
                self.instructions@.take(off as int) == s0.instructions@,
                forall|j: int|
                    0 <= j < k ==> {
                        let a = o0.instructions@[j];
                        let b = #[trigger] self.instructions@[off + j];
                        b.id == a.id && value_shifted(a.value, b.value, off as nat)
                    },
            decreases pending@.len(),
        {
            let instr = pending.pop().unwrap();
            assert(instr == o0.instructions@[k as int]);
            let value = shift_instruction_value(instr.value, n, off);
            self.instructions.push(Instruction { id: instr.id, value });
            proof {
                assert(self.instructions@.take(off as int) =~= s0.instructions@) by {
                    assert forall|j: int| 0 <= j < off implies self.instructions@[j] == s0.instructions@[j] by {
                        assert(self.instructions@.drop_last().take(off as int)[j] == s0.instructions@[j]);
                    }
                }
            }
            k = k + 1;
        }
        let nb = self.blocks.len();
        let other_len = other.blocks.len();
        let mut pending = reversed(other.blocks);
        let mut k: usize = 0;
        while pending.len() > 0
            invariant
                k + pending@.len() == o0.blocks@.len(),
                n@ == o0.instructions@.len(),
                references_in_bounds(o0),
                off == s0.instructions@.len(),
                n@ + off <= u32::MAX,
                nb == s0.blocks@.len(),
                other_len == o0.blocks@.len(),
                forall|m: int| 0 <= m < pending@.len() ==> #[trigger] pending@[m] == o0.blocks@[
                    o0.blocks@.len() - 1 - m],
                self.entry == s0.entry,
                self.instructions@.len() == off + o0.instructions@.len(),
                self.instructions@.take(off as int) == s0.instructions@,
                forall|j: int|
                    0 <= j < o0.instructions@.len() ==> {
                        let a = o0.instructions@[j];
                        let b = #[trigger] self.instructions@[off + j];
                        b.id == a.id && value_shifted(a.value, b.value, off as nat)
                    },
                self.blocks@.len() == nb + k,
                self.blocks@.take(nb as int) == s0.blocks@,
                forall|j: int|
                    0 <= j < k ==> block_shifted(o0.blocks@[j], #[trigger] self.blocks@[nb + j], off as nat),
            decreases pending@.len(),
        {
            let b = pending.pop().unwrap();
            assert(b == o0.blocks@[k as int]);
            let shifted = shift_block(b, n, off);
            self.blocks.push(shifted);
            proof {
                assert(self.blocks@.take(nb as int) =~= s0.blocks@) by {
                    assert forall|j: int| 0 <= j < nb implies self.blocks@[j] == s0.blocks@[j] by {
                        assert(self.blocks@.drop_last().take(nb as int)[j] == s0.blocks@[j]);
                    }
                }
            }
            k = k + 1;
        }
    }
}

} // verus!
