use forget_hir::environment::Environment;
use forget_hir::function::{
    BasicBlock, BlockKind, GotoKind, GotoTerminal, IfTerminal, LabelTerminal, ReturnTerminal, Terminal, TerminalValue,
    HIR,
};
use forget_hir::identifier::{IdentifierData, MutableRange, ReactiveScope, Type};
use forget_hir::ids::{BlockId, IdentifierId, InstrIx, InstructionId, ScopeId, TypeVarId};
use forget_hir::initialize::{find_block, mark_instruction_ids, mark_predecessors, reverse_postorder_blocks};
use forget_hir::inline_use_memo::{find_use_memo, use_memo_lambda_of};
use forget_hir::instruction::{
    Array, Binary, BinaryOperator, Call, DeclareLocal, IdentifierOperand, Instruction, InstructionValue, JSXAttribute,
    JSXElement, LValue, LoadGlobal, LoadLocal, Operand, PlaceOrSpread, StoreLocal,
};
use forget_hir::rewriter::{BlockRewriter, BlockRewriterAction};
use forget_hir::value::{Effect, InstructionKind};

fn op(ix: u32) -> Operand {
    Operand { ix: InstrIx(ix), effect: None }
}

fn instr(value: InstructionValue) -> Instruction {
    Instruction { id: InstructionId(0), value }
}

fn block(id: u32, instructions: Vec<u32>, terminal: TerminalValue) -> BasicBlock {
    BasicBlock {
        id: BlockId(id),
        kind: BlockKind::Block,
        instructions: instructions.into_iter().map(InstrIx).collect(),
        predecessors: Vec::new(),
        terminal: Terminal { id: InstructionId(0), value: terminal },
    }
}

fn goto(id: u32) -> TerminalValue {
    TerminalValue::Goto(GotoTerminal { block: BlockId(id), kind: GotoKind::Continue })
}

fn ret(ix: u32) -> TerminalValue {
    TerminalValue::Return(ReturnTerminal { value: op(ix) })
}

#[test]
fn operands_in_order() {
    let array = instr(InstructionValue::Array(Array {
        elements: vec![Some(PlaceOrSpread::Place(op(3))), None, Some(PlaceOrSpread::Spread(op(1)))],
    }));
    assert_eq!(array.each_operand(), vec![op(3), op(1)]);
    let call = instr(InstructionValue::Call(Call {
        callee: op(0),
        arguments: vec![PlaceOrSpread::Spread(op(2)), PlaceOrSpread::Place(op(1))],
    }));
    assert_eq!(call.each_operand(), vec![op(0), op(2), op(1)]);
    let binary = instr(InstructionValue::Binary(Binary { left: op(4), operator: BinaryOperator::Add, right: op(5) }));
    assert_eq!(binary.each_operand(), vec![op(4), op(5)]);
    let jsx = instr(InstructionValue::JSXElement(JSXElement {
        tag: op(7),
        props: vec![
            JSXAttribute::Attribute { name: "a".to_string(), value: op(8) },
            JSXAttribute::Spread { argument: op(9) },
        ],
        children: Some(vec![op(10)]),
    }));
    assert_eq!(jsx.each_operand(), vec![op(7), op(8), op(9), op(10)]);
    assert!(instr(InstructionValue::Tombstone).each_operand().is_empty());
    assert!(instr(InstructionValue::LoadGlobal(LoadGlobal { name: "g".to_string() })).each_operand().is_empty());
}

#[test]
fn stores_and_loads() {
    let mut env = Environment::new(0);
    let x = env.new_identifier(Some("x".to_string()));
    let place = || IdentifierOperand { identifier: x.duplicate(), effect: Some(Effect::Read) };
    let store = instr(InstructionValue::StoreLocal(StoreLocal {
        lvalue: LValue { identifier: place(), kind: InstructionKind::Const },
        value: op(0),
    }));
    let stores = store.each_identifier_store();
    assert_eq!(stores.len(), 1);
    assert_eq!(stores[0].identifier.identifier.id, x.id);
    assert_eq!(stores[0].kind, InstructionKind::Const);
    assert!(store.each_identifier_load().is_empty());
    assert_eq!(store.each_operand(), vec![op(0)]);
    let declare = instr(InstructionValue::DeclareLocal(DeclareLocal {
        lvalue: LValue { identifier: place(), kind: InstructionKind::Let },
    }));
    assert_eq!(declare.each_identifier_store().len(), 1);
    let load = instr(InstructionValue::LoadLocal(LoadLocal { place: place() }));
    let loads = load.each_identifier_load();
    assert_eq!(loads.len(), 1);
    assert_eq!(loads[0].identifier.name.as_deref(), Some("x"));
    assert!(load.each_identifier_store().is_empty());
}

#[test]
fn terminal_successors() {
    let t = |v| Terminal { id: InstructionId(0), value: v };
    assert_eq!(t(goto(3)).successors(), vec![BlockId(3)]);
    assert_eq!(
        t(TerminalValue::If(IfTerminal { test: op(0), consequent: BlockId(1), alternate: BlockId(2) })).successors(),
        vec![BlockId(1), BlockId(2)]
    );
    assert_eq!(
        t(TerminalValue::Label(LabelTerminal { block: BlockId(4), fallthrough: Some(BlockId(5)) })).successors(),
        vec![BlockId(4), BlockId(5)]
    );
    assert_eq!(
        t(TerminalValue::Label(LabelTerminal { block: BlockId(4), fallthrough: None })).successors(),
        vec![BlockId(4)]
    );
    assert!(t(ret(0)).successors().is_empty());
}

#[test]
fn environment_issues_fresh_ids() {
    let mut env = Environment::new(7);
    assert_eq!(env.next_block_id(), BlockId(7));
    assert_eq!(env.next_block_id(), BlockId(8));
    let a = env.new_identifier(None);
    let b = env.new_identifier(Some("b".to_string()));
    assert_eq!(a.id, IdentifierId(0));
    assert_eq!(b.id, IdentifierId(1));
    assert_eq!(env.identifier(b.id).type_, Type::Var(TypeVarId(1)));
    assert_eq!(env.identifier(a.id).mutable_range, MutableRange::new());
    assert_eq!(env.next_type_var_id(), TypeVarId(2));
    let data = IdentifierData {
        mutable_range: MutableRange { start: InstructionId(2), end: InstructionId(5) },
        scope: Some(ReactiveScope { id: ScopeId(1), range: MutableRange::new() }),
        type_: Type::Object,
    };
    env.set_identifier(a.id, data);
    assert_eq!(env.identifier(a.id).mutable_range.end, InstructionId(5));
    assert_eq!(env.identifier(a.id).scope.unwrap().id, ScopeId(1));
}

#[test]
fn rewriter_keeps_replaces_removes_and_adds() {
    let blocks = vec![block(0, vec![], goto(1)), block(1, vec![], goto(2)), block(2, vec![], ret(0))];
    let mut rewriter = BlockRewriter::new(blocks);
    let first = rewriter.next_block().unwrap();
    assert_eq!(first.id, BlockId(0));
    rewriter.commit(BlockRewriterAction::Keep(first));
    let second = rewriter.next_block().unwrap();
    assert_eq!(second.id, BlockId(1));
    rewriter.commit(BlockRewriterAction::Remove);
    let third = rewriter.next_block().unwrap();
    rewriter.commit(BlockRewriterAction::Replace(block(9, vec![], ret(0))));
    assert_eq!(third.id, BlockId(2));
    rewriter.add_block(block(5, vec![], ret(0)));
    assert!(rewriter.next_block().is_none());
    let ids: Vec<BlockId> = rewriter.finish().iter().map(|b| b.id).collect();
    assert_eq!(ids, vec![BlockId(0), BlockId(9), BlockId(5)]);
}

#[test]
fn rewriter_keeps_unvisited_blocks() {
    let blocks = vec![block(0, vec![], goto(1)), block(1, vec![], ret(0))];
    let mut rewriter = BlockRewriter::new(blocks);
    let first = rewriter.next_block().unwrap();
    rewriter.commit(BlockRewriterAction::Keep(first));
    rewriter.add_block(block(3, vec![], ret(0)));
    let ids: Vec<BlockId> = rewriter.finish().iter().map(|b| b.id).collect();
    assert_eq!(ids, vec![BlockId(0), BlockId(1), BlockId(3)]);
}

#[test]
fn merging_moves_indices_up() {
    let mut parent = HIR {
        entry: BlockId(0),
        blocks: vec![block(0, vec![0, 1], ret(1))],
        instructions: vec![
            instr(InstructionValue::LoadGlobal(LoadGlobal { name: "a".to_string() })),
            instr(InstructionValue::LoadGlobal(LoadGlobal { name: "b".to_string() })),
        ],
    };
    let other = HIR {
        entry: BlockId(1),
        blocks: vec![block(
            1,
            vec![0, 1],
            TerminalValue::If(IfTerminal { test: op(1), consequent: BlockId(2), alternate: BlockId(3) }),
        )],
        instructions: vec![
            instr(InstructionValue::LoadGlobal(LoadGlobal { name: "c".to_string() })),
            instr(InstructionValue::Call(Call { callee: op(0), arguments: vec![PlaceOrSpread::Place(op(0))] })),
        ],
    };
    parent.inline(other);
    assert_eq!(parent.entry, BlockId(0));
    assert_eq!(parent.instructions.len(), 4);
    assert_eq!(parent.instructions[3].each_operand(), vec![op(2), op(2)]);
    assert_eq!(parent.blocks.len(), 2);
    assert_eq!(parent.blocks[1].id, BlockId(1));
    assert_eq!(parent.blocks[1].instructions, vec![InstrIx(2), InstrIx(3)]);
    assert_eq!(
        parent.blocks[1].terminal.value,
        TerminalValue::If(IfTerminal { test: op(3), consequent: BlockId(2), alternate: BlockId(3) })
    );
    assert_eq!(parent.blocks[0].instructions, vec![InstrIx(0), InstrIx(1)]);
}

#[test]
fn reverse_postorder_and_predecessors() {
    let mut body = HIR {
        entry: BlockId(0),
        blocks: vec![
            block(3, vec![], ret(0)),
            block(
                0,
                vec![],
                TerminalValue::If(IfTerminal { test: op(0), consequent: BlockId(1), alternate: BlockId(2) }),
            ),
            block(2, vec![], goto(3)),
            block(1, vec![], goto(3)),
            block(7, vec![], goto(3)),
        ],
        instructions: vec![instr(InstructionValue::Tombstone)],
    };
    assert_eq!(find_block(&body.blocks, BlockId(2)), Some(2));
    assert_eq!(find_block(&body.blocks, BlockId(9)), None);
    reverse_postorder_blocks(&mut body);
    let ids: Vec<BlockId> = body.blocks.iter().map(|b| b.id).collect();
    assert_eq!(ids, vec![BlockId(0), BlockId(2), BlockId(1), BlockId(3)]);
    mark_predecessors(&mut body);
    assert_eq!(body.blocks[3].predecessors, vec![BlockId(2), BlockId(1)]);
    assert_eq!(body.blocks[1].predecessors, vec![BlockId(0)]);
    assert!(body.blocks[0].predecessors.is_empty());
}

#[test]
fn missing_entry_leaves_no_blocks() {
    let mut body = HIR { entry: BlockId(4), blocks: vec![block(0, vec![], ret(0))], instructions: Vec::new() };
    reverse_postorder_blocks(&mut body);
    assert!(body.blocks.is_empty());
}

#[test]
fn duplicate_block_ids_keep_the_first() {
    let mut body = HIR {
        entry: BlockId(0),
        blocks: vec![block(0, vec![], goto(1)), block(1, vec![], ret(0)), block(1, vec![7], ret(0))],
        instructions: Vec::new(),
    };
    reverse_postorder_blocks(&mut body);
    assert_eq!(body.blocks.len(), 2);
    assert!(body.blocks[1].instructions.is_empty());
}

#[test]
fn recognizes_use_memo_calls() {
    let instructions = vec![
        instr(InstructionValue::LoadGlobal(LoadGlobal { name: "useMemo".to_string() })),
        instr(InstructionValue::LoadGlobal(LoadGlobal { name: "other".to_string() })),
        instr(InstructionValue::Call(Call { callee: op(0), arguments: vec![PlaceOrSpread::Place(op(1))] })),
        instr(InstructionValue::Call(Call { callee: op(0), arguments: vec![] })),
    ];
    assert_eq!(use_memo_lambda_of(&instructions, InstrIx(2)), None);
    assert_eq!(use_memo_lambda_of(&instructions, InstrIx(3)), None);
    assert_eq!(use_memo_lambda_of(&instructions, InstrIx(9)), None);
    assert_eq!(find_use_memo(&instructions, &vec![InstrIx(0), InstrIx(2), InstrIx(3)]), None);
}

#[test]
fn numbers_instructions_in_block_order() {
    let mut body = HIR {
        entry: BlockId(0),
        blocks: vec![block(0, vec![2, 0], goto(1)), block(1, vec![1], ret(1))],
        instructions: vec![
            instr(InstructionValue::Tombstone),
            instr(InstructionValue::Tombstone),
            instr(InstructionValue::Tombstone),
        ],
    };
    mark_instruction_ids(&mut body);
    assert_eq!(body.instructions[2].id, InstructionId(1));
    assert_eq!(body.instructions[0].id, InstructionId(2));
    assert_eq!(body.blocks[0].terminal.id, InstructionId(3));
    assert_eq!(body.instructions[1].id, InstructionId(4));
    assert_eq!(body.blocks[1].terminal.id, InstructionId(5));
}
