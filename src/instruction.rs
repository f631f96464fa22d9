use vstd::prelude::*;
use crate::function::Function;
use crate::identifier::Identifier;
use crate::ids::{InstrIx, InstructionId};
use crate::value::{Effect, InstructionKind, Primitive};

verus! {

/// One step of a function body: an id plus what the step does.
#[derive(Debug)]
pub struct Instruction {
    pub id: InstructionId,
    pub value: InstructionValue,
}

/// The instruction set.
#[derive(Debug)]
pub enum InstructionValue {
    Array(Array),
    Binary(Binary),
    Call(Call),
    DeclareContext(DeclareContext),
    DeclareLocal(DeclareLocal),
    Function(FunctionExpression),
    JSXElement(JSXElement),
    LoadContext(LoadContext),
    LoadGlobal(LoadGlobal),
    LoadLocal(LoadLocal),
    Primitive(Primitive),
    StoreLocal(StoreLocal),
    /// A removed instruction, kept so that indices stay stable.
    Tombstone,
}

#[derive(Debug)]
pub struct Array {
    pub elements: Vec<Option<PlaceOrSpread>>,
}

#[derive(Clone, Copy, PartialEq, Eq, Structural, Debug)]
pub enum PlaceOrSpread {
    Place(Operand),
    Spread(Operand),
}

#[derive(Clone, Copy, PartialEq, Eq, Structural, Debug)]
pub enum BinaryOperator {
    Equals,
    NotEquals,
    StrictEquals,
    StrictNotEquals,
    LessThan,
    LessThanOrEqual,
    GreaterThan,
    GreaterThanOrEqual,
    ShiftLeft,
    ShiftRight,
    UnsignedShiftRight,
    Add,
    Subtract,
    Multiply,
    Divide,
    Modulo,
    Exponent,
    BitwiseOr,
    BitwiseXor,
    BitwiseAnd,
    In,
    Instanceof,
}

#[derive(Debug)]
pub struct Binary {
    pub left: Operand,
    pub operator: BinaryOperator,
    pub right: Operand,
}

#[derive(Debug)]
pub struct Call {
    pub callee: Operand,
    pub arguments: Vec<PlaceOrSpread>,
}

/// A function literal: the outer values it closes over, and its own body.
#[derive(Debug)]
pub struct FunctionExpression {
    pub dependencies: Vec<Operand>,
    pub lowered_function: Box<Function>,
}

#[derive(Debug)]
pub struct LoadLocal {
    pub place: IdentifierOperand,
}

#[derive(Debug)]
pub struct LoadContext {
    pub place: Operand,
}

#[derive(Debug)]
pub struct LoadGlobal {
    pub name: String,
}

#[derive(Debug)]
pub struct DeclareLocal {
    pub lvalue: LValue,
}

/// Declares a variable captured by a nested function; its kind is `Let`.
#[derive(Debug)]
pub struct DeclareContext {
    pub lvalue: LValue,
}

#[derive(Debug)]
pub struct StoreLocal {
    pub lvalue: LValue,
    pub value: Operand,
}

#[derive(Debug)]
pub struct JSXElement {
    pub tag: Operand,
    pub props: Vec<JSXAttribute>,
    pub children: Option<Vec<Operand>>,
}

#[derive(Debug)]
pub enum JSXAttribute {
    Spread { argument: Operand },
    Attribute { name: String, value: Operand },
}

/// A reference to the value that an earlier instruction produced.
#[derive(Clone, Copy, PartialEq, Eq, Structural, Debug)]
pub struct Operand {
    pub ix: InstrIx,
    pub effect: Option<Effect>,
}

/// A reference to an identifier.
#[derive(Debug)]
pub struct IdentifierOperand {
    pub identifier: Identifier,
    pub effect: Option<Effect>,
}

/// The target of a declaration or store.
#[derive(Debug)]
pub struct LValue {
    pub identifier: IdentifierOperand,
    pub kind: InstructionKind,
}

impl IdentifierOperand {
    pub fn duplicate(&self) -> (r: IdentifierOperand)
        ensures
            r == *self,
    {
        IdentifierOperand { identifier: self.identifier.duplicate(), effect: self.effect }
    }
}

impl LValue {
    pub fn duplicate(&self) -> (r: LValue)
        ensures
            r == *self,
    {
        LValue { identifier: self.identifier.duplicate(), kind: self.kind }
    }
}

/// The identifiers an instruction writes: those of declarations and stores.
pub open spec fn stores_of(v: InstructionValue) -> Seq<LValue> {
    match v {
        InstructionValue::DeclareContext(i) => seq![i.lvalue],
        InstructionValue::DeclareLocal(i) => seq![i.lvalue],
        InstructionValue::StoreLocal(i) => seq![i.lvalue],
        _ => Seq::empty(),
    }
}

/// The identifiers an instruction reads by name.
pub open spec fn loads_of(v: InstructionValue) -> Seq<IdentifierOperand> {
    match v {
        InstructionValue::LoadLocal(i) => seq![i.place],
        _ => Seq::empty(),
    }
}

pub open spec fn place_operand(p: PlaceOrSpread) -> Operand {
    match p {
        PlaceOrSpread::Place(o) => o,
        PlaceOrSpread::Spread(o) => o,
    }
}

pub open spec fn attribute_operand(a: JSXAttribute) -> Operand {
    match a {
        JSXAttribute::Spread { argument } => argument,
        JSXAttribute::Attribute { value, .. } => value,
    }
}

/// Operands of array elements, holes skipped.
pub open spec fn element_operands(s: Seq<Option<PlaceOrSpread>>) -> Seq<Operand>
    decreases s.len(),
{
    if s.len() == 0 {
        Seq::empty()
    } else {
        element_operands(s.drop_last()) + match s.last() {
            Some(p) => seq![place_operand(p)],
            None => Seq::empty(),
        }
    }
}

/// The data operands an instruction consumes, in order.
pub open spec fn operands_of(v: InstructionValue) -> Seq<Operand> {
    match v {
        InstructionValue::Array(a) => element_operands(a.elements@),
        InstructionValue::Binary(b) => seq![b.left, b.right],
        InstructionValue::Call(c) => seq![c.callee] + c.arguments@.map_values(|p| place_operand(p)),
        InstructionValue::StoreLocal(s) => seq![s.value],
        InstructionValue::Function(f) => f.dependencies@,
        InstructionValue::JSXElement(j) => seq![j.tag] + j.props@.map_values(|a| attribute_operand(a))
            + match j.children {
                Some(c) => c@,
                None => Seq::empty(),
            },
        _ => Seq::empty(),
    }
}

impl Instruction {
    /// Every identifier this instruction writes.
    pub fn each_identifier_store(&self) -> (r: Vec<LValue>)
        ensures
            r@ == stores_of(self.value),
    {
        let mut r: Vec<LValue> = Vec::new();
        match &self.value {
            InstructionValue::DeclareContext(instr) => r.push(instr.lvalue.duplicate()),
            InstructionValue::DeclareLocal(instr) => r.push(instr.lvalue.duplicate()),
            InstructionValue::StoreLocal(instr) => r.push(instr.lvalue.duplicate()),
            InstructionValue::Array(_)
            | InstructionValue::Binary(_)
            | InstructionValue::Call(_)
            | InstructionValue::LoadContext(_)
            | InstructionValue::LoadGlobal(_)
            | InstructionValue::LoadLocal(_)
            | InstructionValue::Primitive(_)
            | InstructionValue::Function(_)
            | InstructionValue::JSXElement(_)
            | InstructionValue::Tombstone => {},
        }
        proof {
            assert(r@ =~= stores_of(self.value));
        }
        r
    }

    /// Every identifier this instruction reads by name.
    pub fn each_identifier_load(&self) -> (r: Vec<IdentifierOperand>)
        ensures
            r@ == loads_of(self.value),
    {
        let mut r: Vec<IdentifierOperand> = Vec::new();
        match &self.value {
            InstructionValue::LoadLocal(instr) => r.push(instr.place.duplicate()),
            InstructionValue::Array(_)
            | InstructionValue::Binary(_)
            | InstructionValue::Call(_)
            | InstructionValue::DeclareContext(_)
            | InstructionValue::DeclareLocal(_)
            | InstructionValue::LoadContext(_)
            | InstructionValue::LoadGlobal(_)
            | InstructionValue::Primitive(_)
            | InstructionValue::StoreLocal(_)
            | InstructionValue::Function(_)
            | InstructionValue::JSXElement(_)
            | InstructionValue::Tombstone => {},
        }
        proof {
            assert(r@ =~= loads_of(self.value));
        }
        r
    }

    /// Every data operand this instruction consumes, in order.
    pub fn each_operand(&self) -> (r: Vec<Operand>)
        ensures
            r@ == operands_of(self.value),
    {
        let mut r: Vec<Operand> = Vec::new();
        match &self.value {
            InstructionValue::Array(value) => {
                let mut i: usize = 0;
                while i < value.elements.len()
                    invariant
                        i <= value.elements@.len(),
                        r@ == element_operands(value.elements@.take(i as int)),
                    decreases value.elements@.len() - i,
                {
                    proof {
                        assert(value.elements@.take(i + 1).drop_last() =~= value.elements@.take(i as int));
                    }
                    match &value.elements[i] {
                        Some(PlaceOrSpread::Place(item)) => r.push(*item),
                        Some(PlaceOrSpread::Spread(item)) => r.push(*item),
                        None => {},
                    }
                    i = i + 1;
                }
                proof {
                    assert(value.elements@.take(i as int) =~= value.elements@);
                }
            },
            InstructionValue::Binary(value) => {
                r.push(value.left);
                r.push(value.right);
            },
            InstructionValue::Call(value) => {
                r.push(value.callee);
                let mut i: usize = 0;
                while i < value.arguments.len()
                    invariant
                        i <= value.arguments@.len(),
                        r@ == seq![value.callee] + value.arguments@.take(i as int).map_values(
                            |p| place_operand(p),
                        ),
                    decreases value.arguments@.len() - i,
                {
                    proof {
                        assert(value.arguments@.take(i + 1) =~= value.arguments@.take(i as int).push(value.arguments@[i as int]));
                    }
                    match &value.arguments[i] {
                        PlaceOrSpread::Place(item) => r.push(*item),
                        PlaceOrSpread::Spread(item) => r.push(*item),
                    }
                    i = i + 1;
                    proof {
                        assert(r@ =~= seq![value.callee] + value.arguments@.take(i as int).map_values(
                            |p| place_operand(p),
                        ));
                    }
                }
                proof {
                    assert(value.arguments@.take(i as int) =~= value.arguments@);
                }
            },
            InstructionValue::StoreLocal(value) => {
                r.push(value.value);
            },
            InstructionValue::Function(value) => {
                let mut i: usize = 0;
                while i < value.dependencies.len()
                    invariant
                        i <= value.dependencies@.len(),
                        r@ == value.dependencies@.take(i as int),
                    decreases value.dependencies@.len() - i,
                {
                    r.push(value.dependencies[i]);
                    i = i + 1;
                    proof {
                        assert(r@ =~= value.dependencies@.take(i as int));
                    }
                }
                proof {
                    assert(value.dependencies@.take(i as int) =~= value.dependencies@);
                }
            },
            InstructionValue::JSXElement(value) => {
                r.push(value.tag);
                let mut i: usize = 0;
                while i < value.props.len()
                    invariant
                        i <= value.props@.len(),
                        r@ == seq![value.tag] + value.props@.take(i as int).map_values(
                            |a| attribute_operand(a),
                        ),
                    decreases value.props@.len() - i,
                {
                    proof {
                        assert(value.props@.take(i + 1) =~= value.props@.take(i as int).push(value.props@[i as int]));
                    }
                    match &value.props[i] {
                        JSXAttribute::Spread { argument } => r.push(*argument),
                        JSXAttribute::Attribute { name: _, value } => r.push(*value),
                    }
                    i = i + 1;
                    proof {
                        assert(r@ =~= seq![value.tag] + value.props@.take(i as int).map_values(
                            |a| attribute_operand(a),
                        ));
                    }
                }
                proof {
                    assert(value.props@.take(i as int) =~= value.props@);
                }
                let ghost head = r@;
                if let Some(children) = &value.children {
                    let mut j: usize = 0;
                    while j < children.len()
                        invariant
                            j <= children@.len(),
                            r@ == head + children@.take(j as int),
                        decreases children@.len() - j,
                    {
                        r.push(children[j]);
                        j = j + 1;
                        proof {
                            assert(r@ =~= head + children@.take(j as int));
                        }
                    }
                    proof {
                        assert(children@.take(j as int) =~= children@);
                    }
                } else {
                    proof {
                        assert(r@ =~= head + Seq::<Operand>::empty());
                    }
                }
            },
            InstructionValue::DeclareContext(_)
            | InstructionValue::LoadContext(_)
            | InstructionValue::LoadGlobal(_)
            | InstructionValue::DeclareLocal(_)
            | InstructionValue::LoadLocal(_)
            | InstructionValue::Primitive(_)
            | InstructionValue::Tombstone => {},
        }
        proof {
            assert(r@ =~= operands_of(self.value));
        }
        r
    }
}

} // verus!
