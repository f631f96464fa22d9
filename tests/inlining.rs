use forget_hir::diagnostic::DiagnosticKind;
use forget_hir::environment::Environment;
use forget_hir::function::{
    BasicBlock, BlockKind, Function, GotoKind, GotoTerminal, IfTerminal, LabelTerminal, ReturnTerminal, Terminal,
    TerminalValue, HIR,
};
use forget_hir::identifier::Identifier;
use forget_hir::ids::{BlockId, InstrIx, InstructionId};
use forget_hir::initialize::initialize_hir;
use forget_hir::inline_use_memo::{inline_use_memo, inline_use_memo_calls};
use forget_hir::instruction::{
    Call, FunctionExpression, IdentifierOperand, Instruction, InstructionValue, LValue, LoadGlobal, LoadLocal,
    Operand, PlaceOrSpread, StoreLocal,
};
use forget_hir::value::{InstructionKind, Number, Primitive, PrimitiveValue};

fn op(ix: u32) -> Operand {
    Operand { ix: InstrIx(ix), effect: None }
}

fn instr(id: u32, value: InstructionValue) -> Instruction {
    Instruction { id: InstructionId(id), value }
}

fn global(name: &str) -> InstructionValue {
    InstructionValue::LoadGlobal(LoadGlobal { name: name.to_string() })
}

fn number(v: f64) -> InstructionValue {
    InstructionValue::Primitive(Primitive { value: PrimitiveValue::Number(Number::from_bits(v.to_bits())) })
}

fn call(callee: u32, args: Vec<PlaceOrSpread>) -> InstructionValue {
    InstructionValue::Call(Call { callee: op(callee), arguments: args })
}

fn block(id: u32, instructions: Vec<u32>, terminal: TerminalValue) -> BasicBlock {
    BasicBlock {
        id: BlockId(id),
        kind: BlockKind::Block,
        instructions: instructions.into_iter().map(InstrIx).collect(),
        predecessors: Vec::new(),
        terminal: Terminal { id: InstructionId(100 + id), value: terminal },
    }
}

fn ret(ix: u32) -> TerminalValue {
    TerminalValue::Return(ReturnTerminal { value: op(ix) })
}

fn operand_of(identifier: &Identifier) -> IdentifierOperand {
    IdentifierOperand { identifier: identifier.duplicate(), effect: None }
}

fn lambda(blocks: Vec<BasicBlock>, instructions: Vec<Instruction>, entry: u32) -> InstructionValue {
    InstructionValue::Function(FunctionExpression {
        dependencies: Vec::new(),
        lowered_function: Box::new(Function {
            params: Vec::new(),
            is_async: false,
            is_generator: false,
            body: HIR { entry: BlockId(entry), blocks, instructions },
        }),
    })
}

fn outer(instructions: Vec<Instruction>, terminal: TerminalValue, n: u32) -> Function {
    Function {
        params: Vec::new(),
        is_async: false,
        is_generator: false,
        body: HIR { entry: BlockId(0), blocks: vec![block(0, (0..n).collect(), terminal)], instructions },
    }
}

/// `f(); const x = useMemo(() => { return 1; }); x;`
fn simple(env: &mut Environment) -> (Function, Identifier) {
    let x = env.new_identifier(Some("x".to_string()));
    let body = lambda(vec![block(1, vec![0], ret(0))], vec![instr(10, number(1.0))], 1);
    let instructions = vec![
        instr(1, global("f")),
        instr(2, call(0, vec![])),
        instr(3, global("useMemo")),
        instr(4, body),
        instr(5, call(2, vec![PlaceOrSpread::Place(op(3))])),
        instr(
            6,
            InstructionValue::StoreLocal(StoreLocal {
                lvalue: LValue { identifier: operand_of(&x), kind: InstructionKind::Const },
                value: op(4),
            }),
        ),
        instr(7, InstructionValue::LoadLocal(LoadLocal { place: operand_of(&x) })),
    ];
    (outer(instructions, ret(6), 7), x)
}

fn block_by_id(f: &Function, id: BlockId) -> &BasicBlock {
    f.body.blocks.iter().find(|b| b.id == id).expect("block present")
}

fn no_return_left(f: &Function) -> bool {
    f.body.blocks.iter().all(|b| !matches!(b.terminal.value, TerminalValue::Return(_)) || b.id == BlockId(2))
}

#[test]
fn inlines_simple_callback() {
    let mut env = Environment::new(2);
    let (mut f, x) = simple(&mut env);
    assert!(inline_use_memo(&mut env, &mut f).is_ok());
    let temp = match &f.body.instructions[4].value {
        InstructionValue::LoadLocal(l) => {
            assert!(l.place.effect.is_none());
            l.place.identifier.duplicate()
        }
        other => panic!("call not replaced: {:?}", other),
    };
    assert_eq!(f.body.instructions[4].id, InstructionId(5));
    assert_eq!(temp.name.as_deref(), Some("t"));
    assert_ne!(temp.id, x.id);
    assert!(matches!(f.body.instructions[3].value, InstructionValue::Tombstone));
    assert_eq!(f.body.blocks.len(), 3);
    let head = &f.body.blocks[0];
    assert_eq!(head.id, BlockId(0));
    assert_eq!(head.instructions, vec![InstrIx(0), InstrIx(1), InstrIx(2), InstrIx(3), InstrIx(7)]);
    match &f.body.instructions[7].value {
        InstructionValue::DeclareLocal(d) => {
            assert_eq!(d.lvalue.identifier.identifier.id, temp.id);
            assert!(d.lvalue.identifier.effect.is_none());
            assert_eq!(d.lvalue.kind, InstructionKind::Let);
        }
        other => panic!("expected a declaration, got {:?}", other),
    }
    let cont_id = BlockId(2);
    assert_eq!(
        head.terminal.value,
        TerminalValue::Label(LabelTerminal { block: BlockId(1), fallthrough: Some(cont_id) })
    );
    let inner = block_by_id(&f, BlockId(1));
    assert_eq!(inner.instructions, vec![InstrIx(8), InstrIx(9)]);
    assert!(matches!(f.body.instructions[8].value, InstructionValue::Primitive(_)));
    match &f.body.instructions[9].value {
        InstructionValue::StoreLocal(s) => {
            assert_eq!(s.lvalue.identifier.identifier.id, temp.id);
            assert_eq!(s.lvalue.kind, InstructionKind::Reassign);
            assert_eq!(s.value.ix, InstrIx(8));
        }
        other => panic!("expected a store, got {:?}", other),
    }
    assert_eq!(
        inner.terminal.value,
        TerminalValue::Goto(GotoTerminal { block: cont_id, kind: GotoKind::Break })
    );
    let cont = block_by_id(&f, cont_id);
    assert_eq!(cont.instructions, vec![InstrIx(4), InstrIx(5), InstrIx(6)]);
    assert_eq!(cont.terminal.value, ret(6));
    assert!(no_return_left(&f));
}

/// `const x = useMemo(() => { if (a) { return b; } return c; }); x;`
fn branching(env: &mut Environment) -> Function {
    let x = env.new_identifier(Some("x".to_string()));
    let body = lambda(
        vec![
            block(1, vec![0], TerminalValue::If(IfTerminal { test: op(0), consequent: BlockId(2), alternate: BlockId(3) })),
            block(2, vec![1], ret(1)),
            block(3, vec![2], ret(2)),
        ],
        vec![instr(10, global("a")), instr(11, global("b")), instr(12, global("c"))],
        1,
    );
    let instructions = vec![
        instr(1, global("useMemo")),
        instr(2, body),
        instr(3, call(0, vec![PlaceOrSpread::Place(op(1))])),
        instr(
            4,
            InstructionValue::StoreLocal(StoreLocal {
                lvalue: LValue { identifier: operand_of(&x), kind: InstructionKind::Const },
                value: op(2),
            }),
        ),
    ];
    outer(instructions, ret(3), 4)
}

#[test]
fn inlines_branching_callback() {
    let mut env = Environment::new(4);
    let mut f = branching(&mut env);
    assert!(inline_use_memo(&mut env, &mut f).is_ok());
    let cont_id = BlockId(4);
    for id in [BlockId(2), BlockId(3)] {
        let b = block_by_id(&f, id);
        assert_eq!(b.terminal.value, TerminalValue::Goto(GotoTerminal { block: cont_id, kind: GotoKind::Break }));
        let store = *b.instructions.last().unwrap();
        assert!(matches!(f.body.instructions[store.0 as usize].value, InstructionValue::StoreLocal(_)));
    }
    let stores: Vec<InstrIx> =
        [BlockId(2), BlockId(3)].iter().map(|id| *block_by_id(&f, *id).instructions.last().unwrap()).collect();
    assert_ne!(stores[0], stores[1]);
    let cont = block_by_id(&f, cont_id);
    assert!(cont.predecessors.contains(&BlockId(2)));
    assert!(cont.predecessors.contains(&BlockId(3)));
    assert!(f.body.blocks.iter().all(|b| b.id == cont_id || !matches!(b.terminal.value, TerminalValue::Return(_))));
    assert_eq!(f.body.blocks[0].id, BlockId(0));
}

#[test]
fn spread_argument_is_left_alone() {
    let mut env = Environment::new(2);
    let body = lambda(vec![block(1, vec![0], ret(0))], vec![instr(10, number(1.0))], 1);
    let instructions = vec![
        instr(1, global("useMemo")),
        instr(2, body),
        instr(3, call(0, vec![PlaceOrSpread::Spread(op(1))])),
    ];
    let mut f = outer(instructions, ret(2), 3);
    assert!(inline_use_memo(&mut env, &mut f).is_ok());
    assert!(matches!(f.body.instructions[2].value, InstructionValue::Call(_)));
    assert!(matches!(f.body.instructions[1].value, InstructionValue::Function(_)));
    assert_eq!(f.body.blocks.len(), 1);
    assert_eq!(f.body.instructions.len(), 3);
}

#[test]
fn non_function_argument_is_left_alone() {
    let mut env = Environment::new(1);
    let instructions = vec![
        instr(1, global("useMemo")),
        instr(2, global("compute")),
        instr(3, call(0, vec![PlaceOrSpread::Place(op(1))])),
    ];
    let mut f = outer(instructions, ret(2), 3);
    assert!(inline_use_memo(&mut env, &mut f).is_ok());
    assert!(matches!(f.body.instructions[2].value, InstructionValue::Call(_)));
    assert_eq!(f.body.blocks.len(), 1);
    assert_eq!(f.body.instructions.len(), 3);
}

#[test]
fn other_global_is_left_alone() {
    let mut env = Environment::new(2);
    let body = lambda(vec![block(1, vec![0], ret(0))], vec![instr(10, number(1.0))], 1);
    let instructions =
        vec![instr(1, global("useCallback")), instr(2, body), instr(3, call(0, vec![PlaceOrSpread::Place(op(1))]))];
    let mut f = outer(instructions, ret(2), 3);
    assert!(inline_use_memo(&mut env, &mut f).is_ok());
    assert!(matches!(f.body.instructions[2].value, InstructionValue::Call(_)));
    assert_eq!(f.body.blocks.len(), 1);
}

fn with_flags(env: &mut Environment, params: usize, is_async: bool, is_generator: bool) -> Function {
    let (mut f, _) = simple(env);
    if let InstructionValue::Function(e) = &mut f.body.instructions[3].value {
        for _ in 0..params {
            let p = env.new_identifier(Some("p".to_string()));
            e.lowered_function.params.push(operand_of(&p));
        }
        e.lowered_function.is_async = is_async;
        e.lowered_function.is_generator = is_generator;
    }
    f
}

#[test]
fn callback_with_parameters_is_rejected() {
    let mut env = Environment::new(2);
    let mut f = with_flags(&mut env, 1, false, false);
    let err = inline_use_memo(&mut env, &mut f).unwrap_err();
    assert_eq!(err.kind, DiagnosticKind::InvalidReact);
    assert_eq!(err.message, "useMemo callbacks may not accept any arguments");
    assert!(err.location.is_none());
    assert!(matches!(f.body.instructions[3].value, InstructionValue::Function(_)));
    assert!(matches!(f.body.instructions[4].value, InstructionValue::Call(_)));
    assert_eq!(f.body.instructions.len(), 7);
    assert_eq!(f.body.blocks.len(), 1);
}

#[test]
fn async_callback_is_rejected() {
    let mut env = Environment::new(2);
    let mut f = with_flags(&mut env, 0, true, false);
    let err = inline_use_memo(&mut env, &mut f).unwrap_err();
    assert_eq!(err.message, "useMemo callbacks may not be async or generator functions");
    assert!(matches!(f.body.instructions[3].value, InstructionValue::Function(_)));
    assert!(matches!(f.body.instructions[4].value, InstructionValue::Call(_)));
}

#[test]
fn generator_callback_is_rejected() {
    let mut env = Environment::new(2);
    let mut f = with_flags(&mut env, 0, false, true);
    let err = inline_use_memo(&mut env, &mut f).unwrap_err();
    assert_eq!(err.kind, DiagnosticKind::InvalidReact);
    assert_eq!(err.message, "useMemo callbacks may not be async or generator functions");
    assert_eq!(f.body.blocks.len(), 1);
}

fn all_block_ids(f: &Function, out: &mut Vec<BlockId>) {
    for b in &f.body.blocks {
        out.push(b.id);
    }
    for i in &f.body.instructions {
        if let InstructionValue::Function(e) = &i.value {
            all_block_ids(&e.lowered_function, out);
        }
    }
}

fn unique(ids: &[BlockId]) -> bool {
    ids.iter().enumerate().all(|(i, a)| ids[i + 1..].iter().all(|b| a != b))
}

#[test]
fn block_ids_stay_unique_across_nesting() {
    let mut env = Environment::new(4);
    let mut f = branching(&mut env);
    let mut before = Vec::new();
    all_block_ids(&f, &mut before);
    assert!(unique(&before));
    inline_use_memo(&mut env, &mut f).unwrap();
    let mut after = Vec::new();
    all_block_ids(&f, &mut after);
    assert!(unique(&after));
    assert_eq!(after.len(), 5);
}

#[test]
fn reinitialization_is_idempotent() {
    let mut env = Environment::new(4);
    let mut f = branching(&mut env);
    inline_use_memo(&mut env, &mut f).unwrap();
    let order: Vec<BlockId> = f.body.blocks.iter().map(|b| b.id).collect();
    let preds: Vec<Vec<BlockId>> = f.body.blocks.iter().map(|b| b.predecessors.clone()).collect();
    assert!(initialize_hir(&mut f.body).is_ok());
    let order2: Vec<BlockId> = f.body.blocks.iter().map(|b| b.id).collect();
    let preds2: Vec<Vec<BlockId>> = f.body.blocks.iter().map(|b| b.predecessors.clone()).collect();
    assert_eq!(order, order2);
    assert_eq!(preds, preds2);
}

#[test]
fn reinitialization_drops_unreachable_blocks() {
    let mut body = HIR {
        entry: BlockId(0),
        blocks: vec![
            block(5, vec![], ret(0)),
            block(0, vec![0], TerminalValue::Goto(GotoTerminal { block: BlockId(1), kind: GotoKind::Continue })),
            block(1, vec![], ret(0)),
        ],
        instructions: vec![instr(1, number(0.0))],
    };
    assert!(initialize_hir(&mut body).is_ok());
    let order: Vec<BlockId> = body.blocks.iter().map(|b| b.id).collect();
    assert_eq!(order, vec![BlockId(0), BlockId(1)]);
    assert_eq!(body.blocks[0].predecessors, Vec::<BlockId>::new());
    assert_eq!(body.blocks[1].predecessors, vec![BlockId(0)]);
}

#[test]
fn rewrite_before_reinitialization() {
    let mut env = Environment::new(2);
    let (mut f, _) = simple(&mut env);
    assert_eq!(inline_use_memo_calls(&mut env, &mut f).unwrap(), true);
    let ids: Vec<BlockId> = f.body.blocks.iter().map(|b| b.id).collect();
    assert_eq!(ids, vec![BlockId(0), BlockId(2), BlockId(1)]);
    assert_eq!(f.body.blocks[1].instructions, vec![InstrIx(4), InstrIx(5), InstrIx(6)]);
    assert_eq!(f.body.blocks[1].terminal.value, ret(6));
    assert!(f.body.blocks.iter().all(|b| b.predecessors.is_empty()));
    let mut g = simple(&mut env).0;
    if let InstructionValue::LoadGlobal(l) = &mut g.body.instructions[2].value {
        l.name = "useState".to_string();
    }
    assert_eq!(inline_use_memo_calls(&mut env, &mut g).unwrap(), false);
    assert_eq!(g.body.blocks.len(), 1);
}
