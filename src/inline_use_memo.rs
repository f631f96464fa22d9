use vstd::prelude::*;
use crate::diagnostic::{Diagnostic, DiagnosticKind};
use crate::environment::Environment;
use crate::function::{
    exchange, BasicBlock, Function, GotoKind, GotoTerminal, LabelTerminal, Terminal, TerminalValue, HIR,
};
use crate::identifier::Identifier;
use crate::ids::{BlockId, InstrIx, InstructionId};
use crate::initialize::{ids_unique, initialize_hir, initialized_from, predecessors_marked};
use crate::instruction::{
    DeclareLocal, IdentifierOperand, Instruction, InstructionValue, LValue, LoadLocal, Operand, PlaceOrSpread,
    StoreLocal,
};
use crate::merge::{block_shifted, references_in_bounds, shift_ix, shift_operand, terminal_shifted, value_below, value_shifted};
use crate::rewriter::{BlockRewriter, BlockRewriterAction};
use crate::value::InstructionKind;

verus! {

/// The instruction at `ix` loads the global named `useMemo`.
pub open spec fn is_use_memo_global(instrs: Seq<Instruction>, ix: InstrIx) -> bool {
    ix.0 < instrs.len() && match instrs[ix.0 as int].value {
        InstructionValue::LoadGlobal(g) => g.name@ == "useMemo"@,
        _ => false,
    }
}

/// The instruction at `ix` is a function literal.
pub open spec fn is_function_literal(instrs: Seq<Instruction>, ix: InstrIx) -> bool {
    ix.0 < instrs.len() && instrs[ix.0 as int].value is Function
}

/// Where the instruction at `ix` calls `useMemo` with a function literal as its
/// first, plain argument, the index of that literal.
pub open spec fn use_memo_lambda(instrs: Seq<Instruction>, ix: InstrIx) -> Option<InstrIx> {
    if ix.0 < instrs.len() {
        match instrs[ix.0 as int].value {
            InstructionValue::Call(c) => if c.arguments@.len() > 0 && is_use_memo_global(instrs, c.callee.ix) {
                match c.arguments@[0] {
                    PlaceOrSpread::Place(p) => if is_function_literal(instrs, p.ix) {
                        Some(p.ix)
                    } else {
                        None
                    },
                    PlaceOrSpread::Spread(_) => None,
                }
            } else {
                None
            },
            _ => None,
        }
    } else {
        None
    }
}

/// Position `p` of a block's instruction list holds its first inlinable call.
pub open spec fn first_match_at(instrs: Seq<Instruction>, ixs: Seq<InstrIx>, p: int) -> bool {
    &&& 0 <= p < ixs.len()
    &&& use_memo_lambda(instrs, ixs[p]) is Some
    &&& forall|q: int| 0 <= q < p ==> use_memo_lambda(instrs, #[trigger] ixs[q]) is None
}

/// The block holds no inlinable call.
pub open spec fn no_match(instrs: Seq<Instruction>, ixs: Seq<InstrIx>) -> bool {
    forall|q: int| 0 <= q < ixs.len() ==> use_memo_lambda(instrs, #[trigger] ixs[q]) is None
}

/// A callback that takes parameters, or is async or a generator.
pub open spec fn function_invalid(f: Function) -> bool {
    f.params@.len() > 0 || f.is_async || f.is_generator
}

pub open spec fn lambda_invalid(instrs: Seq<Instruction>, ix: InstrIx) -> bool {
    match instrs[ix.0 as int].value {
        InstructionValue::Function(f) => function_invalid(*f.lowered_function),
        _ => false,
    }
}

/// The diagnostic for an invalid callback: parameters are reported first.
pub open spec fn invalid_message(f: Function) -> Seq<char> {
    if f.params@.len() > 0 {
        "useMemo callbacks may not accept any arguments"@
    } else {
        "useMemo callbacks may not be async or generator functions"@
    }
}

/// The function a function literal instruction holds.
pub open spec fn lambda_function(i: Instruction) -> Function {
    match i.value {
        InstructionValue::Function(f) => *f.lowered_function,
        _ => arbitrary(),
    }
}

/// `d` reports the invalid callback of some block's first inlinable call.
pub open spec fn reports_invalid_use(body: HIR, d: Diagnostic) -> bool {
    &&& d.kind == DiagnosticKind::InvalidReact
    &&& d.location is None
    &&& exists|b: int, p: int|
        0 <= b < body.blocks@.len() && #[trigger] first_match_at(body.instructions@, body.blocks@[b].instructions@, p)
            && lambda_invalid(body.instructions@, use_memo_lambda(body.instructions@, body.blocks@[b].instructions@[p])->0)
            && d.message@ == invalid_message(
            lambda_function(
                body.instructions@[ix_of(use_memo_lambda(body.instructions@, body.blocks@[b].instructions@[p]))],
            ),
        )
}

/// Some block's first inlinable call passes an invalid callback.
pub open spec fn has_invalid_use(body: HIR) -> bool {
    exists|b: int, p: int|
        0 <= b < body.blocks@.len() && #[trigger] first_match_at(body.instructions@, body.blocks@[b].instructions@, p)
            && lambda_invalid(body.instructions@, use_memo_lambda(body.instructions@, body.blocks@[b].instructions@[p])->0)
}

/// Some block holds an inlinable call.
pub open spec fn has_use(body: HIR) -> bool {
    exists|b: int| 0 <= b < body.blocks@.len() && !no_match(body.instructions@, #[trigger] body.blocks@[b].instructions@)
}

fn is_use_memo_name(name: &String) -> (r: bool)
    ensures
        r == (name@ == "useMemo"@),
{
    let target = "useMemo".to_owned();
    name.eq(&target)
}

/// The function literal passed to `useMemo` by the instruction at `ix`, if
/// that instruction is such a call.
pub fn use_memo_lambda_of(instrs: &Vec<Instruction>, ix: InstrIx) -> (r: Option<InstrIx>)
    ensures
        r == use_memo_lambda(instrs@, ix),
{
    if ix.0 as usize >= instrs.len() {
        return None;
    }
    match &instrs[ix.0 as usize].value {
        InstructionValue::Call(c) => {
            if c.arguments.len() == 0 {
                return None;
            }
            let callee = c.callee.ix.0 as usize;
            if callee >= instrs.len() {
                return None;
            }
            let is_global = match &instrs[callee].value {
                InstructionValue::LoadGlobal(g) => is_use_memo_name(&g.name),
                _ => false,
            };
            if !is_global {
                return None;
            }
            match c.arguments[0] {
                PlaceOrSpread::Place(p) => {
                    let l = p.ix.0 as usize;
                    if l >= instrs.len() {
                        return None;
                    }
                    match &instrs[l].value {
                        InstructionValue::Function(_) => Some(p.ix),
                        _ => None,
                    }
                },
                PlaceOrSpread::Spread(_) => None,
            }
        },
        _ => None,
    }
}

/// The position of the first inlinable call in a block, with its callback.
pub fn find_use_memo(instrs: &Vec<Instruction>, ixs: &Vec<InstrIx>) -> (r: Option<(usize, InstrIx)>)
    ensures
        match r {
            Some((p, l)) => first_match_at(instrs@, ixs@, p as int) && use_memo_lambda(instrs@, ixs@[p as int])
                == Some(l),
            None => no_match(instrs@, ixs@),
        },
{
    let mut i: usize = 0;
    while i < ixs.len()
        invariant
            i <= ixs@.len(),
            forall|q: int| 0 <= q < i ==> use_memo_lambda(instrs@, #[trigger] ixs@[q]) is None,
        decreases ixs@.len() - i,
    {
        match use_memo_lambda_of(instrs, ixs[i]) {
            Some(l) => {
                return Some((i, l));
            },
            None => {},
        }
        i = i + 1;
    }
    None
}

/// Checks a `useMemo` callback: it may take no parameters and may be neither
/// async nor a generator.
pub fn validate_callback(f: &Function) -> (r: Result<(), Diagnostic>)
    ensures
        r is Err <==> function_invalid(*f),
        match r {
            Err(d) => d.kind == DiagnosticKind::InvalidReact && d.location is None && (f.params@.len() > 0 ==> d.message@
                == "useMemo callbacks may not accept any arguments"@) && (f.params@.len() == 0 ==> d.message@
                == "useMemo callbacks may not be async or generator functions"@),
            Ok(_) => true,
        },
{
    if f.params.len() > 0 {
        return Err(Diagnostic::invalid_react("useMemo callbacks may not accept any arguments", None));
    }
    if f.is_async || f.is_generator {
        return Err(Diagnostic::invalid_react("useMemo callbacks may not be async or generator functions", None));
    }
    Ok(())
}

/// Checks the callback of the first inlinable call of every block, without
/// changing anything, and returns each block's first inlinable call.
pub fn collect_use_memo_calls(body: &HIR) -> (r: Result<Vec<Option<(usize, InstrIx)>>, Diagnostic>)
    ensures
        r is Err <==> has_invalid_use(*body),
        match r {
            Ok(calls) => calls@.len() == body.blocks@.len() && forall|b: int|
                0 <= b < calls@.len() ==> match #[trigger] calls@[b] {
                    Some((p, l)) => first_match_at(body.instructions@, body.blocks@[b].instructions@, p as int)
                        && use_memo_lambda(body.instructions@, body.blocks@[b].instructions@[p as int]) == Some(l),
                    None => no_match(body.instructions@, body.blocks@[b].instructions@),
                },
            Err(d) => reports_invalid_use(*body, d),
        },
{
    let mut calls: Vec<Option<(usize, InstrIx)>> = Vec::new();
    let mut b: usize = 0;
    while b < body.blocks.len()
        invariant
            b <= body.blocks@.len(),
            calls@.len() == b,
            forall|k: int|
                0 <= k < b ==> match #[trigger] calls@[k] {
                    Some((p, l)) => first_match_at(body.instructions@, body.blocks@[k].instructions@, p as int)
                        && use_memo_lambda(body.instructions@, body.blocks@[k].instructions@[p as int]) == Some(l)
                        && !lambda_invalid(body.instructions@, l),
                    None => no_match(body.instructions@, body.blocks@[k].instructions@),
                },
        decreases body.blocks@.len() - b,
    {
        let found = find_use_memo(&body.instructions, &body.blocks[b].instructions);
        match found {
            Some((p, l)) => {
                match &body.instructions[l.0 as usize].value {
                    InstructionValue::Function(f) => {
                        match validate_callback(&f.lowered_function) {
                            Err(d) => {
                                assert(first_match_at(body.instructions@, body.blocks@[b as int].instructions@, p as int));
                                assert(reports_invalid_use(*body, d));
                                return Err(d);
                            },
                            Ok(()) => {},
                        }
                    },
                    _ => {},
                }
            },
            None => {},
        }
        calls.push(found);
        b = b + 1;
    }
    proof {
        if has_invalid_use(*body) {
            let (bb, p) = choose|bb: int, p: int|
                0 <= bb < body.blocks@.len() && #[trigger] first_match_at(body.instructions@, body.blocks@[bb].instructions@, p)
                    && lambda_invalid(body.instructions@, use_memo_lambda(body.instructions@, body.blocks@[bb].instructions@[p])->0);
            match calls@[bb] {
                Some((p2, l)) => {
                    assert(p2 as int == p);
                },
                None => {
                    assert(use_memo_lambda(body.instructions@, body.blocks@[bb].instructions@[p]) is None);
                },
            }
        }
    }
    Ok(calls)
}

/// The store of a returned value into the callback's result.
pub open spec fn store_result(id: InstructionId, temp: Identifier, value: Operand) -> Instruction {
    Instruction {
        id,
        value: InstructionValue::StoreLocal(
            StoreLocal {
                lvalue: LValue {
                    identifier: IdentifierOperand { identifier: temp, effect: None },
                    kind: InstructionKind::Reassign,
                },
                value: Operand { ix: value.ix, effect: None },
            },
        ),
    }
}

/// `b` is the block `a` of an inlined callback: a return became a store of
/// the returned value into `temp` followed by a break to `cont`; any other
/// block is unchanged.
pub open spec fn return_rewritten(
    a: BasicBlock,
    b: BasicBlock,
    instrs: Seq<Instruction>,
    temp: Identifier,
    cont: BlockId,
    id: InstructionId,
) -> bool {
    match a.terminal.value {
        TerminalValue::Return(r) => {
            &&& b.id == a.id
            &&& b.kind == a.kind
            &&& b.predecessors == a.predecessors
            &&& b.instructions@.len() == a.instructions@.len() + 1
            &&& b.instructions@.drop_last() == a.instructions@
            &&& b.instructions@.last().0 < instrs.len()
            &&& instrs[b.instructions@.last().0 as int] == store_result(id, temp, r.value)
            &&& b.terminal == Terminal {
                id: a.terminal.id,
                value: TerminalValue::Goto(GotoTerminal { block: cont, kind: GotoKind::Break }),
            }
        },
        _ => b == a,
    }
}

/// Turns every return of a callback body into a store of the returned value
/// into `temp` and a break to `cont`.
fn rewrite_returns(body: &mut HIR, temp: &Identifier, cont: BlockId, id: InstructionId)
    requires
        references_in_bounds(*old(body)),
        old(body).instructions@.len() + old(body).blocks@.len() <= u32::MAX,
    ensures
        references_in_bounds(*final(body)),
        final(body).entry == old(body).entry,
        final(body).blocks@.len() == old(body).blocks@.len(),
        final(body).instructions@.len() <= old(body).instructions@.len() + old(body).blocks@.len(),
        final(body).instructions@.take(old(body).instructions@.len() as int) == old(body).instructions@,
        forall|k: int|
            0 <= k < old(body).blocks@.len() ==> return_rewritten(
                old(body).blocks@[k],
                #[trigger] final(body).blocks@[k],
                final(body).instructions@,
                *temp,
                cont,
                id,
            ),
{
    let ghost b0 = *body;
    let mut k: usize = 0;
    while k < body.blocks.len()
        invariant
            k <= body.blocks@.len(),
            body.entry == b0.entry,
            body.blocks@.len() == b0.blocks@.len(),
            b0.instructions@.len() + b0.blocks@.len() <= u32::MAX,
            references_in_bounds(b0),
            references_in_bounds(*body),
            body.instructions@.len() <= b0.instructions@.len() + k,
            body.instructions@.len() >= b0.instructions@.len(),
            body.instructions@.take(b0.instructions@.len() as int) == b0.instructions@,
            forall|j: int| k <= j < body.blocks@.len() ==> #[trigger] body.blocks@[j] == b0.blocks@[j],
            forall|j: int|
                0 <= j < k ==> return_rewritten(
                    b0.blocks@[j],
                    #[trigger] body.blocks@[j],
                    body.instructions@,
                    *temp,
                    cont,
                    id,
                ),
        decreases b0.blocks@.len() - k,
    {
        let ghost before = *body;
        match body.blocks[k].terminal.value {
            TerminalValue::Return(r) => {
                let store_ix = InstrIx(body.instructions.len() as u32);
                let lvalue = LValue {
                    identifier: IdentifierOperand { identifier: temp.duplicate(), effect: None },
                    kind: InstructionKind::Reassign,
                };
                let store = Instruction {
                    id,
                    value: InstructionValue::StoreLocal(
                        StoreLocal { lvalue, value: Operand { ix: r.value.ix, effect: None } },
                    ),
                };
                body.instructions.push(store);
                let terminal_id = body.blocks[k].terminal.id;
                body.blocks[k].instructions.push(store_ix);
                body.blocks[k].terminal = Terminal {
                    id: terminal_id,
                    value: TerminalValue::Goto(GotoTerminal { block: cont, kind: GotoKind::Break }),
                };
                proof {
                    let n0 = before.instructions@.len();
                    let n1 = body.instructions@.len();
                    assert(body.instructions@.take(n0 as int) =~= before.instructions@);
                    assert(body.instructions@.take(b0.instructions@.len() as int) =~= b0.instructions@) by {
                        assert forall|j: int| 0 <= j < b0.instructions@.len() implies body.instructions@[j] == b0.instructions@[j] by {
                            assert(before.instructions@.take(b0.instructions@.len() as int)[j] == b0.instructions@[j]);
                        }
                    }
                    assert(body.blocks@[k as int].instructions@.drop_last() =~= b0.blocks@[k as int].instructions@);
                    assert forall|j: int| 0 <= j < n1 implies value_below(#[trigger] body.instructions@[j].value, n1) by {
                        if j < n0 {
                            assert(value_below(before.instructions@[j].value, n0));
                            crate::merge::lemma_value_below_grows(before.instructions@[j].value, n0, n1);
                        }
                    }
                    assert forall|j: int| 0 <= j < body.blocks@.len() implies crate::merge::block_below(#[trigger] body.blocks@[j], n1) by {
                        assert(crate::merge::block_below(before.blocks@[j], n0));
                        if j == k {
                            let bi = body.blocks@[j].instructions@;
                            assert forall|q: int| 0 <= q < bi.len() implies (#[trigger] bi[q]).0 < n1 by {
                                if q < bi.len() - 1 {
                                    assert(bi[q] == before.blocks@[j].instructions@[q]);
                                }
                            }
                        }
                    }
                    assert forall|j: int| 0 <= j < k implies return_rewritten(
                        b0.blocks@[j],
                        #[trigger] body.blocks@[j],
                        body.instructions@,
                        *temp,
                        cont,
                        id,
                    ) by {
                        assert(return_rewritten(b0.blocks@[j], before.blocks@[j], before.instructions@, *temp, cont, id));
                        if b0.blocks@[j].terminal.value is Return {
                            let s = before.blocks@[j].instructions@.last().0 as int;
                            assert(body.instructions@[s] == before.instructions@[s]);
                        }
                    }
                }
            },
            _ => {},
        }
        k = k + 1;
    }
}

/// The callback body held by a function literal instruction.
pub open spec fn lambda_body(i: Instruction) -> HIR {
    match i.value {
        InstructionValue::Function(f) => f.lowered_function.body,
        _ => arbitrary(),
    }
}

/// The callback body can be rewritten and merged: its references stay in it
/// and its size leaves room for one store per block.
pub open spec fn lambda_mergeable(i: Instruction) -> bool {
    &&& i.value is Function
    &&& references_in_bounds(lambda_body(i))
    &&& lambda_body(i).instructions@.len() + lambda_body(i).blocks@.len() <= u32::MAX
}

/// A reference to the callback's result.
pub open spec fn result_operand(temp: Identifier) -> IdentifierOperand {
    IdentifierOperand { identifier: temp, effect: None }
}

/// The instruction list after one call site is inlined: the call becomes a
/// load of the result, the literal a tombstone, and the declaration of the
/// result is appended.
pub open spec fn instructions_after_inline(
    instrs: Seq<Instruction>,
    call: InstrIx,
    lambda: InstrIx,
    temp: Identifier,
) -> Seq<Instruction> {
    let id = instrs[call.0 as int].id;
    instrs.update(
        call.0 as int,
        Instruction { id, value: InstructionValue::LoadLocal(LoadLocal { place: result_operand(temp) }) },
    ).update(lambda.0 as int, Instruction { id: instrs[lambda.0 as int].id, value: InstructionValue::Tombstone }).push(
        Instruction {
            id,
            value: InstructionValue::DeclareLocal(
                DeclareLocal { lvalue: LValue { identifier: result_operand(temp), kind: InstructionKind::Let } },
            ),
        },
    )
}

/// Inlines the `useMemo` call at position `pos` of `block`, whose callback is
/// the function literal at `lambda`. Returns the block cut at the call, which
/// now declares the result and opens a label over the callback's entry; the
/// continuation block, which starts with the load of the result and ends with
/// the block's former terminal; the callback body with its returns rewritten
/// into stores of the result and breaks to the continuation; and the result.
fn inline_call(
    env: &mut Environment,
    instructions: &mut Vec<Instruction>,
    block: BasicBlock,
    pos: usize,
    lambda: InstrIx,
) -> (r: (BasicBlock, BasicBlock, HIR, Identifier))
    requires
        old(env).wf(),
        old(env).has_room(1),
        pos < block.instructions@.len(),
        block.instructions@[pos as int].0 < old(instructions)@.len(),
        lambda.0 < old(instructions)@.len(),
        block.instructions@[pos as int] != lambda,
        old(instructions)@.len() < u32::MAX,
        lambda_mergeable(old(instructions)@[lambda.0 as int]),
    ensures
        ({
            let (head, cont, body, temp) = r;
            let call = block.instructions@[pos as int];
            let n = old(instructions)@.len();
            let f = lambda_body(old(instructions)@[lambda.0 as int]);
            let id = old(instructions)@[call.0 as int].id;
            &&& final(env).wf()
            &&& final(env).identifier_counter() == old(env).identifier_counter() + 1
            &&& final(env).block_counter() == old(env).block_counter() + 1
            &&& final(env).type_var_counter() == old(env).type_var_counter() + 1
            &&& temp.id.0 == old(env).identifier_counter()
            &&& temp.name matches Some(s) && s@ == "t"@
            &&& final(instructions)@ == instructions_after_inline(old(instructions)@, call, lambda, temp)
            &&& head.id == block.id && head.kind == block.kind && head.predecessors == block.predecessors
            &&& head.instructions@ == block.instructions@.take(pos as int).push(InstrIx(n as u32))
            &&& head.terminal == Terminal {
                id: block.terminal.id,
                value: TerminalValue::Label(LabelTerminal { block: f.entry, fallthrough: Some(cont.id) }),
            }
            &&& cont.id.0 == old(env).block_counter()
            &&& cont.kind == block.kind
            &&& cont.instructions@ == block.instructions@.skip(pos as int)
            &&& cont.predecessors@.len() == 0
            &&& cont.terminal == block.terminal
            &&& body.entry == f.entry
            &&& references_in_bounds(body)
            &&& body.instructions@.len() <= f.instructions@.len() + f.blocks@.len()
            &&& body.instructions@.take(f.instructions@.len() as int) == f.instructions@
            &&& body.blocks@.len() == f.blocks@.len()
            &&& forall|k: int|
                0 <= k < f.blocks@.len() ==> return_rewritten(
                    f.blocks@[k],
                    #[trigger] body.blocks@[k],
                    body.instructions@,
                    temp,
                    cont.id,
                    id,
                )
        }),
{
    let call = block.instructions[pos];
    let id = instructions[call.0 as usize].id;
    let ghost i0 = instructions@;

    // The result must be named: memoization recognizes it by that name.
    let temp = env.new_identifier(Some("t".to_owned()));
    let cont_id = env.next_block_id();

    // Consumers of the call already point at its index, so the call becomes a
    // load of the result in place.
    instructions.set(
        call.0 as usize,
        Instruction {
            id,
            value: InstructionValue::LoadLocal(
                LoadLocal { place: IdentifierOperand { identifier: temp.duplicate(), effect: None } },
            ),
        },
    );

    // Move the callback out of its instruction; block ids are unique across
    // the function tree, so its blocks can join the outer body as they are.
    let lambda_id = instructions[lambda.0 as usize].id;
    let taken = exchange(
        &mut instructions[lambda.0 as usize],
        Instruction { id: lambda_id, value: InstructionValue::Tombstone },
    );
    let mut body = match taken.value {
        InstructionValue::Function(f) => f.lowered_function.body,
        _ => {
            assert(false);
            HIR { entry: block.id, blocks: Vec::new(), instructions: Vec::new() }
        },
    };
    rewrite_returns(&mut body, &temp, cont_id, id);

    let ghost b0 = block;
    let mut block = block;
    let cont_instructions = block.instructions.split_off(pos);
    let declare_ix = InstrIx(instructions.len() as u32);
    instructions.push(
        Instruction {
            id,
            value: InstructionValue::DeclareLocal(
                DeclareLocal {
                    lvalue: LValue {
                        identifier: IdentifierOperand { identifier: temp.duplicate(), effect: None },
                        kind: InstructionKind::Let,
                    },
                },
            ),
        },
    );
    block.instructions.push(declare_ix);
    let terminal = block.terminal;
    block.terminal = Terminal {
        id: terminal.id,
        value: TerminalValue::Label(LabelTerminal { block: body.entry, fallthrough: Some(cont_id) }),
    };
    let cont = BasicBlock {
        id: cont_id,
        kind: block.kind,
        instructions: cont_instructions,
        predecessors: Vec::new(),
        terminal,
    };
    proof {
        assert(instructions@ =~= instructions_after_inline(i0, call, lambda, temp));
        assert(block.instructions@ =~= b0.instructions@.take(pos as int).push(declare_ix));
    }
    (block, cont, body, temp)
}

/// The instructions and blocks a function literal instruction holds.
pub open spec fn instr_size(i: Instruction) -> nat {
    if i.value is Function {
        lambda_body(i).instructions@.len() + lambda_body(i).blocks@.len()
    } else {
        0
    }
}

/// The instructions and blocks held by all function literals of a list.
pub open spec fn nested_size(s: Seq<Instruction>) -> nat
    decreases s.len(),
{
    if s.len() == 0 {
        0
    } else {
        nested_size(s.drop_last()) + instr_size(s.last())
    }
}

proof fn lemma_nested_size_update(s: Seq<Instruction>, k: int, x: Instruction)
    requires
        0 <= k < s.len(),
    ensures
        nested_size(s.update(k, x)) + instr_size(s[k]) == nested_size(s) + instr_size(x),
    decreases s.len(),
{
    if k == s.len() - 1 {
        assert(s.update(k, x).drop_last() =~= s.drop_last());
    } else {
        assert(s.update(k, x).drop_last() =~= s.drop_last().update(k, x));
        lemma_nested_size_update(s.drop_last(), k, x);
    }
}

proof fn lemma_nested_size_push(s: Seq<Instruction>, x: Instruction)
    ensures
        nested_size(s.push(x)) == nested_size(s) + instr_size(x),
{
    assert(s.push(x).drop_last() =~= s);
}

/// The instructions held by a list of bodies.
pub open spec fn total_instructions(s: Seq<HIR>) -> nat
    decreases s.len(),
{
    if s.len() == 0 {
        0
    } else {
        total_instructions(s.drop_last()) + s.last().instructions@.len()
    }
}

/// What the pass needs of its input: every function literal can be merged,
/// and everything fits in `u32` indices once merged.
pub open spec fn inlinable_body(body: HIR) -> bool {
    &&& forall|k: int|
        0 <= k < body.instructions@.len() && (#[trigger] body.instructions@[k]).value is Function
            ==> lambda_mergeable(body.instructions@[k])
    &&& body.instructions@.len() + body.blocks@.len() + nested_size(body.instructions@) <= u32::MAX
}

/// The index an optional instruction index holds, or -1.
pub open spec fn ix_of(o: Option<InstrIx>) -> int {
    match o {
        Some(i) => i.0 as int,
        None => -1,
    }
}

/// The instruction, with id `id`, loads the result of an inlined callback: a
/// variable named `t` issued at or after identifier counter `ctr`, through an
/// operand without effect.
pub open spec fn is_result_load(i: Instruction, id: InstructionId, ctr: nat) -> bool {
    &&& i.id == id
    &&& match i.value {
        InstructionValue::LoadLocal(l) => l.place.effect is None && l.place.identifier.id.0 >= ctr && (
        l.place.identifier.name matches Some(s) && s@ == "t"@),
        _ => false,
    }
}

/// The callback of the first inlinable call of block `b`, at `p`, is not the
/// callback of an earlier block's first inlinable call.
pub open spec fn first_claim(body: HIR, b: int, p: int) -> bool {
    forall|b2: int, p2: int|
        0 <= b2 < b && #[trigger] first_match_at(body.instructions@, body.blocks@[b2].instructions@, p2)
            ==> use_memo_lambda(body.instructions@, body.blocks@[b2].instructions@[p2]) != use_memo_lambda(
            body.instructions@,
            body.blocks@[b].instructions@[p],
        )
}

/// In `after`, the call at position `p` of block `b` of `before` loads the
/// result of its inlined callback, and the callback's literal is a tombstone.
pub open spec fn call_inlined(before: HIR, after: Seq<Instruction>, b: int, p: int, ctr: nat) -> bool {
    let c = before.blocks@[b].instructions@[p];
    let l = use_memo_lambda(before.instructions@, c)->0;
    &&& is_result_load(after[c.0 as int], before.instructions@[c.0 as int].id, ctr)
    &&& after[l.0 as int].value is Tombstone
}

/// The instruction at `k` is the callback of the first inlinable call of a
/// block before `b`.
pub open spec fn claimed_before(before: HIR, b: int, k: int) -> bool {
    exists|b2: int, p2: int|
        0 <= b2 < b && #[trigger] first_match_at(before.instructions@, before.blocks@[b2].instructions@, p2)
            && ix_of(use_memo_lambda(before.instructions@, before.blocks@[b2].instructions@[p2])) == k
}

/// Every first inlinable call of the blocks before `b` whose callback is not
/// an earlier block's has been inlined.
spec fn inlined_upto(before: HIR, b: int, cur: Seq<Instruction>, ctr: nat) -> bool {
    forall|b2: int, p2: int|
        0 <= b2 < b && #[trigger] first_match_at(before.instructions@, before.blocks@[b2].instructions@, p2)
            && first_claim(before, b2, p2) ==> call_inlined(before, cur, b2, p2, ctr)
}

/// Each former instruction is unchanged, a tombstone of a claimed callback, or
/// a former call that now loads an inlined result.
spec fn slots_accounted(before: HIR, b: int, cur: Seq<Instruction>, ctr: nat) -> bool {
    &&& cur.len() >= before.instructions@.len()
    &&& forall|k: int|
        0 <= k < before.instructions@.len() ==> #[trigger] cur[k] == before.instructions@[k] || (cur[k].value is Tombstone
            && claimed_before(before, b, k)) || (is_result_load(cur[k], before.instructions@[k].id, ctr) && before.instructions@[k].value is Call)
}

proof fn lemma_first_match_unique(instrs: Seq<Instruction>, ixs: Seq<InstrIx>, p: int, q: int)
    requires
        first_match_at(instrs, ixs, p),
        first_match_at(instrs, ixs, q),
    ensures
        p == q,
{
    if p < q {
        assert(use_memo_lambda(instrs, ixs[p]) is None);
    } else if q < p {
        assert(use_memo_lambda(instrs, ixs[q]) is None);
    }
}

proof fn lemma_step_skipped(before: HIR, b: int, cur: Seq<Instruction>, ctr: nat)
    requires
        0 <= b < before.blocks@.len(),
        slots_accounted(before, b, cur, ctr),
        inlined_upto(before, b, cur, ctr),
        forall|p: int| #[trigger] first_match_at(before.instructions@, before.blocks@[b].instructions@, p)
            ==> !first_claim(before, b, p),
    ensures
        slots_accounted(before, b + 1, cur, ctr),
        inlined_upto(before, b + 1, cur, ctr),
{
    let i0 = before.instructions@;
    assert forall|k: int| 0 <= k < i0.len() && claimed_before(before, b, k) implies claimed_before(before, b + 1, k) by {
        let (b2, p2) = choose|b2: int, p2: int|
            0 <= b2 < b && #[trigger] first_match_at(i0, before.blocks@[b2].instructions@, p2)
                && ix_of(use_memo_lambda(i0, before.blocks@[b2].instructions@[p2])) == k;
        assert(first_match_at(i0, before.blocks@[b2].instructions@, p2));
    }
}

proof fn lemma_step_inlined(
    before: HIR,
    b: int,
    p: int,
    cur: Seq<Instruction>,
    temp: Identifier,
    ctr: nat,
)
    requires
        0 <= b < before.blocks@.len(),
        first_match_at(before.instructions@, before.blocks@[b].instructions@, p),
        slots_accounted(before, b, cur, ctr),
        inlined_upto(before, b, cur, ctr),
        cur[ix_of(use_memo_lambda(before.instructions@, before.blocks@[b].instructions@[p])) as int].value is Function,
        temp.id.0 >= ctr,
        temp.name matches Some(s) && s@ == "t"@,
    ensures
        ({
            let c = before.blocks@[b].instructions@[p];
            let l = use_memo_lambda(before.instructions@, c)->0;
            let cur2 = instructions_after_inline(cur, c, l, temp);
            slots_accounted(before, b + 1, cur2, ctr) && inlined_upto(before, b + 1, cur2, ctr)
        }),
{
    let i0 = before.instructions@;
    let c = before.blocks@[b].instructions@[p];
    let l = use_memo_lambda(i0, c)->0;
    let cur2 = instructions_after_inline(cur, c, l, temp);
    assert(i0[c.0 as int].value is Call);
    assert(i0[l.0 as int].value is Function);
    assert(c.0 != l.0);
    assert(is_result_load(cur2[c.0 as int], i0[c.0 as int].id, ctr));
    assert forall|k: int| 0 <= k < i0.len() && claimed_before(before, b, k) implies claimed_before(before, b + 1, k) by {
        let (b2, p2) = choose|b2: int, p2: int|
            0 <= b2 < b && #[trigger] first_match_at(i0, before.blocks@[b2].instructions@, p2)
                && ix_of(use_memo_lambda(i0, before.blocks@[b2].instructions@[p2])) == k;
        assert(first_match_at(i0, before.blocks@[b2].instructions@, p2));
    }
    assert(claimed_before(before, b + 1, l.0 as int)) by {
        assert(first_match_at(i0, before.blocks@[b].instructions@, p));
    }
    assert forall|k: int| 0 <= k < i0.len() implies #[trigger] cur2[k] == i0[k] || (cur2[k].value is Tombstone
        && claimed_before(before, b + 1, k)) || (is_result_load(cur2[k], i0[k].id, ctr) && i0[k].value is Call) by {
        if k != c.0 && k != l.0 {
            assert(cur2[k] == cur[k]);
        }
    }
    assert forall|b2: int, p2: int|
        0 <= b2 < b + 1 && #[trigger] first_match_at(i0, before.blocks@[b2].instructions@, p2) && first_claim(
            before,
            b2,
            p2,
        ) implies call_inlined(before, cur2, b2, p2, ctr) by {
        if b2 == b {
            lemma_first_match_unique(i0, before.blocks@[b].instructions@, p, p2);
        } else {
            assert(call_inlined(before, cur, b2, p2, ctr));
            let c2 = before.blocks@[b2].instructions@[p2];
            let l2 = use_memo_lambda(i0, c2)->0;
            assert(c2.0 != l.0);
            if l2.0 == c.0 {
                assert(cur[c.0 as int] == i0[c.0 as int] || (cur[c.0 as int].value is Tombstone && claimed_before(
                    before,
                    b,
                    c.0 as int,
                )) || (is_result_load(cur[c.0 as int], i0[c.0 as int].id, ctr) && i0[c.0 as int].value is Call));
                if claimed_before(before, b, c.0 as int) {
                    let (b3, p3) = choose|b3: int, p3: int|
                        0 <= b3 < b && #[trigger] first_match_at(i0, before.blocks@[b3].instructions@, p3)
                            && ix_of(use_memo_lambda(i0, before.blocks@[b3].instructions@[p3])) == c.0;
                }
            }
            assert(l2.0 != l.0);
        }
    }
}

proof fn lemma_claim_inlines(before: HIR, b: int, p: int, cur: Seq<Instruction>, ctr: nat)
    requires
        0 <= b < before.blocks@.len(),
        first_match_at(before.instructions@, before.blocks@[b].instructions@, p),
        first_claim(before, b, p),
        slots_accounted(before, b, cur, ctr),
    ensures
        ({
            let c = before.blocks@[b].instructions@[p];
            let l = use_memo_lambda(before.instructions@, c)->0;
            &&& c.0 < cur.len()
            &&& l.0 < cur.len()
            &&& c != l
            &&& cur[l.0 as int].value is Function
        }),
{
    let i0 = before.instructions@;
    let c = before.blocks@[b].instructions@[p];
    let l = use_memo_lambda(i0, c)->0;
    assert(i0[c.0 as int].value is Call);
    assert(i0[l.0 as int].value is Function);
    let k = l.0 as int;
    assert(cur[k] == i0[k] || (cur[k].value is Tombstone && claimed_before(before, b, k)) || (is_result_load(cur[k], i0[k].id, ctr)
        && i0[k].value is Call));
    if cur[k] != i0[k] && cur[k].value is Tombstone && claimed_before(before, b, k) {
        let (b2, p2) = choose|b2: int, p2: int|
            0 <= b2 < b && #[trigger] first_match_at(i0, before.blocks@[b2].instructions@, p2)
                && ix_of(use_memo_lambda(i0, before.blocks@[b2].instructions@[p2])) == k;
        assert(use_memo_lambda(i0, before.blocks@[b2].instructions@[p2]) == Some(l));
    }
}

/// Block `b` of `before` holds a first inlinable call whose callback no
/// earlier block claimed.
pub open spec fn claims(before: HIR, b: int) -> bool {
    exists|p: int| #[trigger] first_match_at(before.instructions@, before.blocks@[b].instructions@, p) && first_claim(before, b, p)
}

/// `after` is block `before` cut at its inlined call at `p`: the instructions
/// before the call, then a declaration appended at or after `n0`; its
/// terminal opens a label with a fallthrough.
pub open spec fn block_cut(before: BasicBlock, after: BasicBlock, p: int, instrs: Seq<Instruction>, n0: nat) -> bool {
    &&& after.id == before.id
    &&& after.kind == before.kind
    &&& after.predecessors == before.predecessors
    &&& after.instructions@.len() == p + 1
    &&& after.instructions@.take(p) == before.instructions@.take(p)
    &&& n0 <= after.instructions@[p].0 < instrs.len()
    &&& instrs[after.instructions@[p].0 as int].value is DeclareLocal
    &&& after.terminal.id == before.terminal.id
    &&& after.terminal.value is Label
    &&& after.terminal.value->Label_0.fallthrough is Some
}

/// The identifier that a load instruction reads.
pub open spec fn loaded_identifier(i: Instruction) -> Identifier {
    match i.value {
        InstructionValue::LoadLocal(l) => l.place.identifier,
        _ => arbitrary(),
    }
}

/// The declaration that ends the cut block `after` of block `b` of `f0`
/// declares, with kind `Let`, the variable that the former call now loads;
/// the label that follows opens on the entry of the callback's body.
pub open spec fn head_links(f0: HIR, b: int, p: int, after: BasicBlock, instrs: Seq<Instruction>) -> bool {
    let c = f0.blocks@[b].instructions@[p];
    let l = use_memo_lambda(f0.instructions@, c)->0;
    &&& instrs[after.instructions@[p].0 as int].value == InstructionValue::DeclareLocal(
        DeclareLocal {
            lvalue: LValue {
                identifier: IdentifierOperand { identifier: loaded_identifier(instrs[c.0 as int]), effect: None },
                kind: InstructionKind::Let,
            },
        },
    )
    &&& after.terminal.value->Label_0.block == lambda_body(f0.instructions@[l.0 as int]).entry
}

proof fn lemma_head_links_kept(
    f0: HIR,
    b: int,
    p: int,
    after: BasicBlock,
    cur: Seq<Instruction>,
    c2: InstrIx,
    l2: InstrIx,
    temp: Identifier,
    ctr: nat,
)
    requires
        0 <= b < f0.blocks@.len(),
        first_match_at(f0.instructions@, f0.blocks@[b].instructions@, p),
        head_links(f0, b, p, after, cur),
        call_inlined(f0, cur, b, p, ctr),
        block_cut(f0.blocks@[b], after, p, cur, f0.instructions@.len() as nat),
        use_memo_lambda(f0.instructions@, c2) == Some(l2),
        cur.len() >= f0.instructions@.len(),
        cur[l2.0 as int].value is Function,
    ensures
        head_links(f0, b, p, after, instructions_after_inline(cur, c2, l2, temp)),
        block_cut(f0.blocks@[b], after, p, instructions_after_inline(cur, c2, l2, temp), f0.instructions@.len() as nat),
{
    let c = f0.blocks@[b].instructions@[p];
    let l = use_memo_lambda(f0.instructions@, c)->0;
    let cur2 = instructions_after_inline(cur, c2, l2, temp);
    let d = after.instructions@[p].0 as int;
    assert(c2.0 < f0.instructions@.len() && l2.0 < f0.instructions@.len());
    assert(cur2[d] == cur[d]);
    assert(c != l2);
    if c == c2 {
        assert(l == l2);
    }
    assert(cur2[c.0 as int] == cur[c.0 as int]);
}

/// `cont` carries on block `before` from its inlined call at `p`: a fresh
/// block, issued at or after block counter `ctr`, with the instructions from
/// the call on and the former terminal.
pub open spec fn block_continues(before: BasicBlock, cont: BasicBlock, p: int, ctr: nat) -> bool {
    &&& cont.id.0 >= ctr
    &&& cont.kind == before.kind
    &&& cont.instructions@ == before.instructions@.skip(p)
    &&& cont.terminal == before.terminal
}

/// Some block of `blocks` is the fallthrough of the label that ends `head`
/// and carries on `before` from position `p`.
pub open spec fn continued_in(before: BasicBlock, head: BasicBlock, blocks: Seq<BasicBlock>, p: int, ctr: nat) -> bool {
    exists|t: int|
        0 <= t < blocks.len() && #[trigger] blocks[t].id == head.terminal.value->Label_0.fallthrough->0
            && block_continues(before, blocks[t], p, ctr)
}

proof fn lemma_claimed_is_tombstone(before: HIR, b: int, l: InstrIx, cur: Seq<Instruction>, ctr: nat)
    requires
        0 <= b <= before.blocks@.len(),
        inlined_upto(before, b, cur, ctr),
        exists|b2: int, p2: int|
            0 <= b2 < b && #[trigger] first_match_at(before.instructions@, before.blocks@[b2].instructions@, p2)
                && use_memo_lambda(before.instructions@, before.blocks@[b2].instructions@[p2]) == Some(l),
    ensures
        cur[l.0 as int].value is Tombstone,
    decreases b,
{
    let (b2, p2) = choose|b2: int, p2: int|
        0 <= b2 < b && #[trigger] first_match_at(before.instructions@, before.blocks@[b2].instructions@, p2)
            && use_memo_lambda(before.instructions@, before.blocks@[b2].instructions@[p2]) == Some(l);
    if first_claim(before, b2, p2) {
        assert(call_inlined(before, cur, b2, p2, ctr));
    } else {
        let (b3, p3) = choose|b3: int, p3: int|
            0 <= b3 < b2 && #[trigger] first_match_at(before.instructions@, before.blocks@[b3].instructions@, p3)
                && use_memo_lambda(before.instructions@, before.blocks@[b3].instructions@[p3]) == use_memo_lambda(
                before.instructions@,
                before.blocks@[b2].instructions@[p2],
            );
        assert(first_match_at(before.instructions@, before.blocks@[b3].instructions@, p3));
        lemma_claimed_is_tombstone(before, b2, l, cur, ctr);
    }
}

/// Walks the blocks of a body and inlines, in each, the first inlinable call
/// listed in `calls`, provided no earlier block took its callback. The new
/// blocks follow the visited ones; the callbacks' bodies are handed back,
/// their returns rewritten, to be merged.
proof fn lemma_track_move(
    f0: HIR,
    i0: Seq<Instruction>,
    i1: Seq<Instruction>,
    ls0: Seq<int>,
    in0: Seq<HIR>,
    in1: Seq<HIR>,
    moved: HIR,
    lambda: InstrIx,
    call: InstrIx,
    temp: Identifier,
    cont: BlockId,
)
    requires
        in0.len() == ls0.len(),
        in1 == in0.push(moved),
        lambda.0 < f0.instructions@.len(),
        call.0 < f0.instructions@.len(),
        i0.len() >= f0.instructions@.len(),
        f0.instructions@[call.0 as int].value is Call,
        f0.instructions@[lambda.0 as int].value is Function,
        i0[lambda.0 as int] == f0.instructions@[lambda.0 as int],
        i1 == instructions_after_inline(i0, call, lambda, temp),
        moved.blocks@.len() == lambda_body(f0.instructions@[lambda.0 as int]).blocks@.len(),
        forall|k: int|
            0 <= k < moved.blocks@.len() ==> return_rewritten(
                lambda_body(f0.instructions@[lambda.0 as int]).blocks@[k],
                #[trigger] moved.blocks@[k],
                moved.instructions@,
                temp,
                cont,
                i0[call.0 as int].id,
            ),
        forall|i: int|
            0 <= i < ls0.len() ==> 0 <= #[trigger] ls0[i] < f0.instructions@.len() && f0.instructions@[ls0[i]].value is Function
                && i0[ls0[i]].value is Tombstone,
        forall|i: int|
            0 <= i < ls0.len() ==> (#[trigger] in0[i]).blocks@.len() == lambda_body(f0.instructions@[ls0[i]]).blocks@.len(),
        forall|i: int, m: int|
            0 <= i < ls0.len() && 0 <= m < in0[i].blocks@.len() ==> (#[trigger] in0[i].blocks@[m]).id == lambda_body(
                f0.instructions@[ls0[i]],
            ).blocks@[m].id,
        forall|i: int, j: int| 0 <= i < ls0.len() && 0 <= j < ls0.len() && i != j ==> ls0[i] != ls0[j],
    ensures
        ({
            let ls = ls0.push(lambda.0 as int);
            &&& in1.len() == ls.len()
            &&& forall|i: int|
                0 <= i < ls.len() ==> 0 <= #[trigger] ls[i] < f0.instructions@.len() && f0.instructions@[ls[i]].value is Function
                    && i1[ls[i]].value is Tombstone
            &&& forall|i: int|
                0 <= i < ls.len() ==> (#[trigger] in1[i]).blocks@.len() == lambda_body(f0.instructions@[ls[i]]).blocks@.len()
            &&& forall|i: int, m: int|
                0 <= i < ls.len() && 0 <= m < in1[i].blocks@.len() ==> (#[trigger] in1[i].blocks@[m]).id == lambda_body(
                    f0.instructions@[ls[i]],
                ).blocks@[m].id
            &&& forall|i: int, j: int| 0 <= i < ls.len() && 0 <= j < ls.len() && i != j ==> ls[i] != ls[j]
        }),
{
    let ls = ls0.push(lambda.0 as int);
    let f = lambda_body(f0.instructions@[lambda.0 as int]);
    let c = call.0 as int;
    assert(in1[in0.len() as int] == moved);
    assert forall|m: int| 0 <= m < moved.blocks@.len() implies (#[trigger] moved.blocks@[m]).id == f.blocks@[m].id by {
        assert(return_rewritten(f.blocks@[m], moved.blocks@[m], moved.instructions@, temp, cont, i0[c].id));
    }
    assert forall|i: int| 0 <= i < ls0.len() implies ls0[i] != lambda.0 as int && ls0[i] != c by {
        assert(i0[ls0[i]].value is Tombstone);
        assert(f0.instructions@[ls0[i]].value is Function);
    }
    assert forall|i: int| 0 <= i < ls.len() implies 0 <= #[trigger] ls[i] < f0.instructions@.len()
        && f0.instructions@[ls[i]].value is Function && i1[ls[i]].value is Tombstone by {
        if i < ls0.len() {
            assert(ls[i] == ls0[i]);
            assert(i1[ls0[i]] == i0[ls0[i]]);
        }
    }
    assert forall|i: int| 0 <= i < ls.len() implies (#[trigger] in1[i]).blocks@.len()
        == lambda_body(f0.instructions@[ls[i]]).blocks@.len() by {
        if i < ls0.len() {
            assert(in1[i] == in0[i]);
        }
    }
    assert forall|i: int, m: int| 0 <= i < ls.len() && 0 <= m < in1[i].blocks@.len() implies (#[trigger] in1[i].blocks@[m]).id
        == lambda_body(f0.instructions@[ls[i]]).blocks@[m].id by {
        if i < ls0.len() {
            assert(in1[i] == in0[i]);
            assert(ls[i] == ls0[i]);
        } else {
            assert(moved.blocks@[m].id == f.blocks@[m].id);
        }
    }
}

#[verifier::rlimit(50)]
#[verifier::spinoff_prover]
fn rewrite_calls(env: &mut Environment, body: &mut HIR, calls: &Vec<Option<(usize, InstrIx)>>) -> (inlined: Vec<HIR>)
    requires
        old(env).wf(),
        old(env).has_room(old(body).blocks@.len()),
        inlinable_body(*old(body)),
        calls@.len() == old(body).blocks@.len(),
        forall|k: int|
            0 <= k < calls@.len() ==> match #[trigger] calls@[k] {
                Some((p, l)) => first_match_at(old(body).instructions@, old(body).blocks@[k].instructions@, p as int)
                    && use_memo_lambda(old(body).instructions@, old(body).blocks@[k].instructions@[p as int]) == Some(l),
                None => no_match(old(body).instructions@, old(body).blocks@[k].instructions@),
            },
    ensures
        final(env).wf(),
        final(body).entry == old(body).entry,
        final(body).instructions@.len() + total_instructions(inlined@) <= u32::MAX,
        forall|i: int| 0 <= i < inlined@.len() ==> references_in_bounds(#[trigger] inlined@[i]),
        slots_accounted(*old(body), old(body).blocks@.len() as int, final(body).instructions@, old(env).identifier_counter()),
        inlined_upto(*old(body), old(body).blocks@.len() as int, final(body).instructions@, old(env).identifier_counter()),
        final(body).blocks@.len() >= old(body).blocks@.len(),
        forall|b2: int, p: int|
            0 <= b2 < old(body).blocks@.len() && #[trigger] first_match_at(
                old(body).instructions@,
                old(body).blocks@[b2].instructions@,
                p,
            ) && first_claim(*old(body), b2, p) ==> block_cut(
                old(body).blocks@[b2],
                final(body).blocks@[b2],
                p,
                final(body).instructions@,
                old(body).instructions@.len() as nat,
            ) && continued_in(
                old(body).blocks@[b2],
                final(body).blocks@[b2],
                final(body).blocks@,
                p,
                old(env).block_counter(),
            ),
        forall|b2: int|
            0 <= b2 < old(body).blocks@.len() && !claims(*old(body), b2) ==> #[trigger] final(body).blocks@[b2]
                == old(body).blocks@[b2],
        block_ids_distinct_below(*old(body), old(env).block_counter()) ==> all_ids_distinct(final(body).blocks@, inlined@),
        forall|b2: int, p: int|
            0 <= b2 < old(body).blocks@.len() && #[trigger] first_match_at(
                old(body).instructions@,
                old(body).blocks@[b2].instructions@,
                p,
            ) && first_claim(*old(body), b2, p) ==> head_links(*old(body), b2, p, final(body).blocks@[b2], final(body).instructions@),
{
    let ghost f0 = *body;
    let ghost ctr0 = env.identifier_counter();
    let ghost bctr0 = env.block_counter();
    let ghost n0 = f0.instructions@.len();
    let n = body.blocks.len();
    let blocks = exchange(&mut body.blocks, Vec::new());
    let mut rewriter = BlockRewriter::new(blocks);
    let mut inlined: Vec<HIR> = Vec::new();
    let ghost mut ls: Seq<int> = Seq::empty();
    let mut b: usize = 0;
    while b < n
        invariant
            moves_tracked(f0, body.instructions@, ls, inlined@, rewriter.added(), rewriter.rewritten(), bctr0, env.block_counter()),
            b <= n,
            n == f0.blocks@.len(),
            calls@.len() == n,
            rewriter.remaining() == f0.blocks@.skip(b as int),
            env.wf(),
            env.has_room((n - b) as nat),
            body.entry == f0.entry,
            body.instructions@.len() >= f0.instructions@.len(),
            forall|k: int|
                0 <= k < body.instructions@.len() && (#[trigger] body.instructions@[k]).value is Function
                    ==> lambda_mergeable(body.instructions@[k]),
            body.instructions@.len() + (n - b) + nested_size(body.instructions@) + total_instructions(inlined@)
                <= u32::MAX,
            forall|i: int| 0 <= i < inlined@.len() ==> references_in_bounds(#[trigger] inlined@[i]),
            env.identifier_counter() >= ctr0,
            slots_accounted(f0, b as int, body.instructions@, ctr0),
            inlined_upto(f0, b as int, body.instructions@, ctr0),
            env.block_counter() >= bctr0,
            n0 == f0.instructions@.len(),
            rewriter.rewritten().len() == b,
            forall|b2: int, p: int|
                0 <= b2 < b && #[trigger] first_match_at(f0.instructions@, f0.blocks@[b2].instructions@, p)
                    && first_claim(f0, b2, p) ==> block_cut(
                    f0.blocks@[b2],
                    rewriter.rewritten()[b2],
                    p,
                    body.instructions@,
                    n0,
                ) && continued_in(f0.blocks@[b2], rewriter.rewritten()[b2], rewriter.added(), p, bctr0),
            forall|b2: int, p: int|
                0 <= b2 < b && #[trigger] first_match_at(f0.instructions@, f0.blocks@[b2].instructions@, p)
                    && first_claim(f0, b2, p) ==> head_links(f0, b2, p, rewriter.rewritten()[b2], body.instructions@),
            forall|b2: int| 0 <= b2 < b && !claims(f0, b2) ==> #[trigger] rewriter.rewritten()[b2] == f0.blocks@[b2],
            forall|k: int|
                0 <= k < n ==> match #[trigger] calls@[k] {
                    Some((p, l)) => first_match_at(f0.instructions@, f0.blocks@[k].instructions@, p as int)
                        && use_memo_lambda(f0.instructions@, f0.blocks@[k].instructions@[p as int]) == Some(l),
                    None => no_match(f0.instructions@, f0.blocks@[k].instructions@),
                },
        decreases n - b,
    {
        let block = rewriter.next_block().unwrap();
        assert(block == f0.blocks@[b as int]) by {
            assert(f0.blocks@.skip(b as int)[0] == f0.blocks@[b as int]);
        }
        let mut kept = block;
        match calls[b] {
            Some((pos, lambda)) => {
                let mut go = false;
                if pos < kept.instructions.len() && (lambda.0 as usize) < body.instructions.len() {
                    let call = kept.instructions[pos];
                    let is_function = match &body.instructions[lambda.0 as usize].value {
                        InstructionValue::Function(_) => true,
                        _ => false,
                    };
                    go = (call.0 as usize) < body.instructions.len() && call != lambda && is_function;
                }
                if go {
                    let call = kept.instructions[pos];
                    let ghost i0 = body.instructions@;
                    let ghost lam = i0[lambda.0 as int];
                    let ghost bc = env.block_counter();
                    let ghost ls0 = ls;
                    let ghost in0 = inlined@;
                    proof {
                        assert(i0[lambda.0 as int] == f0.instructions@[lambda.0 as int]) by {
                            let k = lambda.0 as int;
                            assert(i0[k] == f0.instructions@[k] || (i0[k].value is Tombstone && claimed_before(f0, b as int, k))
                                || (is_result_load(i0[k], f0.instructions@[k].id, ctr0) && f0.instructions@[k].value is Call));
                        }
                    }
                    let (head, cont, moved, temp) = inline_call(
                        env,
                        &mut body.instructions,
                        kept,
                        pos,
                        lambda,
                    );
                    proof {
                        let i1 = body.instructions@;
                        let id = i0[call.0 as int].id;
                        let load = Instruction { id, value: InstructionValue::LoadLocal(LoadLocal { place: result_operand(temp) }) };
                        let tomb = Instruction { id: lam.id, value: InstructionValue::Tombstone };
                        let s1 = i0.update(call.0 as int, load);
                        lemma_nested_size_update(i0, call.0 as int, load);
                        lemma_nested_size_update(s1, lambda.0 as int, tomb);
                        let s2 = s1.update(lambda.0 as int, tomb);
                        lemma_nested_size_push(s2, i1.last());
                        assert(i1 == s2.push(i1.last()));
                        assert(s1[lambda.0 as int] == lam);
                        assert(inlined@.push(moved).drop_last() =~= inlined@);
                        assert forall|k: int|
                            0 <= k < i1.len() && (#[trigger] i1[k]).value is Function
                                implies lambda_mergeable(i1[k]) by {
                            assert(k < i0.len() && i1[k] == i0[k]);
                        }
                        lemma_step_inlined(f0, b as int, pos as int, i0, temp, ctr0);
                        if !first_claim(f0, b as int, pos as int) {
                            lemma_claimed_is_tombstone(f0, b as int, lambda, i0, ctr0);
                        }
                    }
                    let ghost rw0 = rewriter.rewritten();
                    let ghost ad0 = rewriter.added();
                    let ghost cur0 = i0;
                    rewriter.add_block(cont);
                    inlined.push(moved);
                    kept = head;
                    proof {
                        ls = ls.push(lambda.0 as int);
                        lemma_track_move(f0, i0, body.instructions@, ls0, in0, inlined@, moved, lambda, call, temp, cont.id);
                        assert forall|b2: int, p: int|
                            0 <= b2 < b && #[trigger] first_match_at(f0.instructions@, f0.blocks@[b2].instructions@, p)
                                && first_claim(f0, b2, p) implies head_links(f0, b2, p, rw0[b2], body.instructions@) by {
                            lemma_head_links_kept(f0, b2, p, rw0[b2], i0, call, lambda, temp, ctr0);
                        }
                        assert forall|p: int|
                            #[trigger] first_match_at(f0.instructions@, f0.blocks@[b as int].instructions@, p)
                                && first_claim(f0, b as int, p) implies head_links(f0, b as int, p, kept, body.instructions@) by {
                            lemma_first_match_unique(f0.instructions@, f0.blocks@[b as int].instructions@, p, pos as int);
                            assert(kept.instructions@[p].0 == i0.len());
                        }
                    }
                    proof {
                        let i1 = body.instructions@;
                        let ad1 = rewriter.added();
                        assert(ad1[ad0.len() as int] == cont);
                        assert forall|b2: int, p: int|
                            0 <= b2 < b && #[trigger] first_match_at(f0.instructions@, f0.blocks@[b2].instructions@, p)
                                && first_claim(f0, b2, p) implies block_cut(f0.blocks@[b2], rw0[b2], p, i1, n0)
                                && continued_in(f0.blocks@[b2], rw0[b2], ad1, p, bctr0) by {
                            assert(block_cut(f0.blocks@[b2], rw0[b2], p, cur0, n0));
                            assert(continued_in(f0.blocks@[b2], rw0[b2], ad0, p, bctr0));
                            let d = rw0[b2].instructions@[p].0 as int;
                            assert(i1[d] == cur0[d]);
                            let t = choose|t: int|
                                0 <= t < ad0.len() && #[trigger] ad0[t].id == rw0[b2].terminal.value->Label_0.fallthrough->0
                                    && block_continues(f0.blocks@[b2], ad0[t], p, bctr0);
                            assert(ad1[t] == ad0[t]);
                        }
                        assert(kept.instructions@.take(pos as int) =~= f0.blocks@[b as int].instructions@.take(pos as int));
                        assert(claims(f0, b as int)) by {
                            assert(first_match_at(f0.instructions@, f0.blocks@[b as int].instructions@, pos as int));
                        }
                        assert(continued_in(f0.blocks@[b as int], kept, ad1, pos as int, bctr0)) by {
                            assert(ad1[ad0.len() as int].id == kept.terminal.value->Label_0.fallthrough->0);
                        }
                    }
                } else {
                    proof {
                        assert forall|p: int|
                            #[trigger] first_match_at(f0.instructions@, f0.blocks@[b as int].instructions@, p)
                                implies !first_claim(f0, b as int, p) by {
                            lemma_first_match_unique(f0.instructions@, f0.blocks@[b as int].instructions@, p, pos as int);
                            if first_claim(f0, b as int, p) {
                                lemma_claim_inlines(f0, b as int, p, body.instructions@, ctr0);
                            }
                        }
                        lemma_step_skipped(f0, b as int, body.instructions@, ctr0);
                    }
                }
            },
            None => {
                proof {
                    assert forall|p: int|
                        #[trigger] first_match_at(f0.instructions@, f0.blocks@[b as int].instructions@, p)
                            implies !first_claim(f0, b as int, p) by {
                        assert(use_memo_lambda(f0.instructions@, f0.blocks@[b as int].instructions@[p]) is None);
                    }
                    lemma_step_skipped(f0, b as int, body.instructions@, ctr0);
                }
            },
        }
        let ghost rw_before = rewriter.rewritten();
        let ghost kept_block = kept;
        assert(forall|b2: int, p: int|
            0 <= b2 < b && #[trigger] first_match_at(f0.instructions@, f0.blocks@[b2].instructions@, p)
                && first_claim(f0, b2, p) ==> head_links(f0, b2, p, rw_before[b2], body.instructions@));
        assert(forall|p: int|
            #[trigger] first_match_at(f0.instructions@, f0.blocks@[b as int].instructions@, p)
                && first_claim(f0, b as int, p) ==> head_links(f0, b as int, p, kept_block, body.instructions@));
        rewriter.commit(BlockRewriterAction::Keep(kept));
        proof {
            assert(rewriter.remaining() =~= f0.blocks@.skip(b + 1));
            let rw = rewriter.rewritten();
            assert(rw == rw_before.push(kept_block));
            assert forall|b2: int, p: int|
                0 <= b2 < b + 1 && #[trigger] first_match_at(f0.instructions@, f0.blocks@[b2].instructions@, p)
                    && first_claim(f0, b2, p) implies block_cut(f0.blocks@[b2], rw[b2], p, body.instructions@, n0)
                    && continued_in(f0.blocks@[b2], rw[b2], rewriter.added(), p, bctr0) by {
                if b2 < b {
                    assert(rw[b2] == rw_before[b2]);
                } else {
                    assert(claims(f0, b as int));
                }
            }
            assert forall|b2: int, p: int|
                0 <= b2 < b + 1 && #[trigger] first_match_at(f0.instructions@, f0.blocks@[b2].instructions@, p)
                    && first_claim(f0, b2, p) implies head_links(f0, b2, p, rw[b2], body.instructions@) by {
                if b2 < b {
                    assert(rw[b2] == rw_before[b2]);
                }
            }
            assert forall|b2: int| 0 <= b2 < b + 1 && !claims(f0, b2) implies #[trigger] rw[b2] == f0.blocks@[b2] by {
                if b2 < b {
                    assert(rw[b2] == rw_before[b2]);
                }
            }
        }
        b = b + 1;
    }
    let ghost rw = rewriter.rewritten();
    let ghost ad = rewriter.added();
    let ghost rem = rewriter.remaining();
    body.blocks = rewriter.finish();
    proof {
        let fb = body.blocks@;
        assert(rem.len() == 0);
        assert(fb =~= rw + ad);
        assert forall|b2: int, p: int|
            0 <= b2 < n && #[trigger] first_match_at(f0.instructions@, f0.blocks@[b2].instructions@, p)
                && first_claim(f0, b2, p) implies continued_in(f0.blocks@[b2], fb[b2], fb, p, bctr0) by {
            assert(fb[b2] == rw[b2]);
            assert(continued_in(f0.blocks@[b2], rw[b2], ad, p, bctr0));
            let t = choose|t: int|
                0 <= t < ad.len() && #[trigger] ad[t].id == rw[b2].terminal.value->Label_0.fallthrough->0
                    && block_continues(f0.blocks@[b2], ad[t], p, bctr0);
            assert(fb[n + t] == ad[t]);
        }
        assert forall|b2: int| 0 <= b2 < n implies #[trigger] fb[b2] == rw[b2] by {}
        if block_ids_distinct_below(f0, bctr0) {
            lemma_moves_distinct(f0, body.instructions@, ls, inlined@, ad, rw, bctr0, env.block_counter());
        }
    }
    inlined
}

/// The blocks of the body, and those of each of its function literals, have
/// ids that are distinct across all of them and lie below `ctr`.
pub open spec fn block_ids_distinct_below(body: HIR, ctr: nat) -> bool {
    let instrs = body.instructions@;
    &&& ids_unique(body.blocks@)
    &&& forall|j: int| 0 <= j < body.blocks@.len() ==> (#[trigger] body.blocks@[j]).id.0 < ctr
    &&& forall|k: int|
        0 <= k < instrs.len() && (#[trigger] instrs[k]).value is Function ==> {
            let lb = lambda_body(instrs[k]).blocks@;
            &&& ids_unique(lb)
            &&& ids_disjoint(lb, body.blocks@)
            &&& forall|m: int| 0 <= m < lb.len() ==> (#[trigger] lb[m]).id.0 < ctr
        }
    &&& forall|k1: int, k2: int|
        0 <= k1 < instrs.len() && 0 <= k2 < instrs.len() && k1 != k2 && (#[trigger] instrs[k1]).value is Function
            && (#[trigger] instrs[k2]).value is Function ==> ids_disjoint(
            lambda_body(instrs[k1]).blocks@,
            lambda_body(instrs[k2]).blocks@,
        )
}

/// What the walk over the blocks keeps track of to show that block ids stay
/// distinct: the literals `ls` whose bodies were moved out, in order, now
/// tombstones; the continuation blocks' fresh, increasing ids; and the visited
/// blocks' ids.
spec fn moves_tracked(
    f0: HIR,
    cur: Seq<Instruction>,
    ls: Seq<int>,
    inlined: Seq<HIR>,
    added: Seq<BasicBlock>,
    rewritten: Seq<BasicBlock>,
    bctr0: nat,
    bctr: nat,
) -> bool {
    &&& inlined.len() == ls.len()
    &&& forall|i: int|
        0 <= i < ls.len() ==> 0 <= #[trigger] ls[i] < f0.instructions@.len() && f0.instructions@[ls[i]].value is Function
            && cur[ls[i]].value is Tombstone
    &&& forall|i: int|
        0 <= i < ls.len() ==> (#[trigger] inlined[i]).blocks@.len() == lambda_body(f0.instructions@[ls[i]]).blocks@.len()
    &&& forall|i: int, m: int|
        0 <= i < ls.len() && 0 <= m < inlined[i].blocks@.len() ==> (#[trigger] inlined[i].blocks@[m]).id == lambda_body(
            f0.instructions@[ls[i]],
        ).blocks@[m].id
    &&& forall|i: int, j: int| 0 <= i < ls.len() && 0 <= j < ls.len() && i != j ==> ls[i] != ls[j]
    &&& forall|a: int| 0 <= a < added.len() ==> bctr0 <= (#[trigger] added[a]).id.0 < bctr
    &&& forall|a1: int, a2: int| 0 <= a1 < a2 < added.len() ==> (#[trigger] added[a1]).id.0 < (#[trigger] added[a2]).id.0
    &&& rewritten.len() <= f0.blocks@.len()
    &&& forall|b: int| 0 <= b < rewritten.len() ==> (#[trigger] rewritten[b]).id == f0.blocks@[b].id
}

proof fn lemma_moves_distinct(
    f0: HIR,
    cur: Seq<Instruction>,
    ls: Seq<int>,
    inlined: Seq<HIR>,
    added: Seq<BasicBlock>,
    rewritten: Seq<BasicBlock>,
    bctr0: nat,
    bctr: nat,
)
    requires
        moves_tracked(f0, cur, ls, inlined, added, rewritten, bctr0, bctr),
        block_ids_distinct_below(f0, bctr0),
    ensures
        all_ids_distinct(rewritten + added, inlined),
{
    let all = rewritten + added;
    let nr = rewritten.len();
    let i0 = f0.instructions@;
    assert forall|a: int, b: int| 0 <= a < all.len() && 0 <= b < all.len() && a != b implies all[a].id != all[b].id by {
        if a < nr && b < nr {
            assert(all[a].id == f0.blocks@[a].id && all[b].id == f0.blocks@[b].id);
        } else if a < nr {
            assert(all[a].id == f0.blocks@[a].id);
            assert(f0.blocks@[a].id.0 < bctr0);
            assert(all[b] == added[b - nr]);
        } else if b < nr {
            assert(all[b].id == f0.blocks@[b].id);
            assert(f0.blocks@[b].id.0 < bctr0);
            assert(all[a] == added[a - nr]);
        } else {
            assert(all[a] == added[a - nr] && all[b] == added[b - nr]);
            if a < b {
                assert(added[a - nr].id.0 < added[b - nr].id.0);
            } else {
                assert(added[b - nr].id.0 < added[a - nr].id.0);
            }
        }
    }
    assert forall|i: int| 0 <= i < inlined.len() implies ids_unique(#[trigger] inlined[i].blocks@) && ids_disjoint(
        inlined[i].blocks@,
        all,
    ) by {
        let k = ls[i];
        assert(i0[k].value is Function);
        let lb = lambda_body(i0[k]).blocks@;
        let ib = inlined[i].blocks@;
        assert forall|x: int, y: int| 0 <= x < ib.len() && 0 <= y < ib.len() && x != y implies ib[x].id != ib[y].id by {
            assert(ib[x].id == lb[x].id && ib[y].id == lb[y].id);
        }
        assert forall|x: int, y: int| 0 <= x < ib.len() && 0 <= y < all.len() implies ib[x].id != all[y].id by {
            assert(ib[x].id == lb[x].id);
            assert(lb[x].id.0 < bctr0);
            if y < nr {
                assert(all[y].id == f0.blocks@[y].id);
            } else {
                assert(all[y] == added[y - nr]);
            }
        }
    }
    assert forall|i: int, j: int| 0 <= i < inlined.len() && 0 <= j < inlined.len() && i != j implies ids_disjoint(
        #[trigger] inlined[i].blocks@,
        #[trigger] inlined[j].blocks@,
    ) by {
        let ki = ls[i];
        let kj = ls[j];
        assert(ki != kj);
        assert(i0[ki].value is Function && i0[kj].value is Function);
        assert(ids_disjoint(lambda_body(i0[ki]).blocks@, lambda_body(i0[kj]).blocks@));
        assert forall|x: int, y: int| 0 <= x < inlined[i].blocks@.len() && 0 <= y < inlined[j].blocks@.len() implies inlined[i].blocks@[x].id
            != inlined[j].blocks@[y].id by {
            assert(inlined[i].blocks@[x].id == lambda_body(i0[ki]).blocks@[x].id);
            assert(inlined[j].blocks@[y].id == lambda_body(i0[kj]).blocks@[y].id);
        }
    }
}

/// Two block lists share no id.
pub open spec fn ids_disjoint(a: Seq<BasicBlock>, b: Seq<BasicBlock>) -> bool {
    forall|i: int, j: int| 0 <= i < a.len() && 0 <= j < b.len() ==> a[i].id != b[j].id
}

/// No two blocks, among `blocks` and the blocks of every body of `bodies`,
/// share an id.
pub open spec fn all_ids_distinct(blocks: Seq<BasicBlock>, bodies: Seq<HIR>) -> bool {
    &&& ids_unique(blocks)
    &&& forall|i: int|
        0 <= i < bodies.len() ==> ids_unique(#[trigger] bodies[i].blocks@) && ids_disjoint(bodies[i].blocks@, blocks)
    &&& forall|i: int, j: int|
        0 <= i < bodies.len() && 0 <= j < bodies.len() && i != j ==> ids_disjoint(
            #[trigger] bodies[i].blocks@,
            #[trigger] bodies[j].blocks@,
        )
}

/// The body `x` was merged into `body` with its instruction indices moved up
/// by `off`: its instructions stand from `off` on, and each of its blocks,
/// renumbered, stands at or after position `nb0`.
pub open spec fn placed(body: HIR, x: HIR, off: nat, nb0: nat) -> bool {
    &&& off + x.instructions@.len() <= body.instructions@.len()
    &&& forall|j: int| 0 <= j < x.instructions@.len() ==> #[trigger] instruction_placed(body, x, j, off)
    &&& forall|m: int| 0 <= m < x.blocks@.len() ==> #[trigger] block_placed(body, x, m, off, nb0)
}

/// Instruction `j` of `x` stands, renumbered, at `off + j` in `body`.
pub open spec fn instruction_placed(body: HIR, x: HIR, j: int, off: nat) -> bool {
    let a = x.instructions@[j];
    let b = body.instructions@[off + j];
    b.id == a.id && value_shifted(a.value, b.value, off)
}

/// Block `m` of `x` stands, renumbered, at or after position `nb0` in `body`.
pub open spec fn block_placed(body: HIR, x: HIR, m: int, off: nat, nb0: nat) -> bool {
    exists|t: int| nb0 <= t < body.blocks@.len() && #[trigger] block_shifted(x.blocks@[m], body.blocks@[t], off)
}

/// The body `x` was merged into `body` with some offset.
pub open spec fn placed_somewhere(body: HIR, x: HIR, nb0: nat) -> bool {
    exists|off: nat| #[trigger] placed(body, x, off, nb0)
}

proof fn lemma_placed_kept(prev: HIR, next: HIR, x: HIR, off: nat, nb0: nat)
    requires
        placed(prev, x, off, nb0),
        next.instructions@.len() >= prev.instructions@.len(),
        forall|k: int| 0 <= k < prev.instructions@.len() ==> #[trigger] next.instructions@[k] == prev.instructions@[k],
        next.blocks@.len() >= prev.blocks@.len(),
        forall|k: int| 0 <= k < prev.blocks@.len() ==> #[trigger] next.blocks@[k] == prev.blocks@[k],
    ensures
        placed(next, x, off, nb0),
{
    assert forall|j: int| 0 <= j < x.instructions@.len() implies #[trigger] instruction_placed(next, x, j, off) by {
        assert(instruction_placed(prev, x, j, off));
        assert(next.instructions@[off + j] == prev.instructions@[off + j]);
    }
    assert forall|m: int| 0 <= m < x.blocks@.len() implies #[trigger] block_placed(next, x, m, off, nb0) by {
        assert(block_placed(prev, x, m, off, nb0));
        let t = choose|t: int| nb0 <= t < prev.blocks@.len() && #[trigger] block_shifted(x.blocks@[m], prev.blocks@[t], off);
        assert(next.blocks@[t] == prev.blocks@[t]);
        assert(block_shifted(x.blocks@[m], next.blocks@[t], off));
    }
}

/// Merges the given bodies into `body`, keeping what it holds in place.
fn merge_bodies(body: &mut HIR, inlined: Vec<HIR>)
    requires
        old(body).instructions@.len() + total_instructions(inlined@) <= u32::MAX,
        forall|i: int| 0 <= i < inlined@.len() ==> references_in_bounds(#[trigger] inlined@[i]),
    ensures
        final(body).entry == old(body).entry,
        final(body).instructions@.len() >= old(body).instructions@.len(),
        forall|k: int| 0 <= k < old(body).instructions@.len() ==> #[trigger] final(body).instructions@[k] == old(body).instructions@[k],
        final(body).blocks@.len() >= old(body).blocks@.len(),
        forall|k: int| 0 <= k < old(body).blocks@.len() ==> #[trigger] final(body).blocks@[k] == old(body).blocks@[k],
        all_ids_distinct(old(body).blocks@, inlined@) ==> ids_unique(final(body).blocks@),
        forall|i: int|
            0 <= i < inlined@.len() ==> placed_somewhere(*final(body), #[trigger] inlined@[i], old(body).blocks@.len() as nat),
{
    let ghost b0 = *body;
    let ghost in0 = inlined@;
    let mut inlined = inlined;
    while inlined.len() > 0
        invariant
            body.entry == b0.entry,
            body.instructions@.len() >= b0.instructions@.len(),
            forall|k: int| 0 <= k < b0.instructions@.len() ==> #[trigger] body.instructions@[k] == b0.instructions@[k],
            body.blocks@.len() >= b0.blocks@.len(),
            forall|k: int| 0 <= k < b0.blocks@.len() ==> #[trigger] body.blocks@[k] == b0.blocks@[k],
            body.instructions@.len() + total_instructions(inlined@) <= u32::MAX,
            forall|i: int| 0 <= i < inlined@.len() ==> references_in_bounds(#[trigger] inlined@[i]),
            all_ids_distinct(b0.blocks@, in0) ==> all_ids_distinct(body.blocks@, inlined@),
            inlined@.len() <= in0.len(),
            forall|i: int| 0 <= i < inlined@.len() ==> inlined@[i] == #[trigger] in0[i],
            forall|i: int|
                inlined@.len() <= i < in0.len() ==> placed_somewhere(*body, #[trigger] in0[i], b0.blocks@.len() as nat),
        decreases inlined@.len(),
    {
        let ghost before = inlined@;
        let next = inlined.pop().unwrap();
        proof {
            assert(before.drop_last() =~= inlined@);
            assert(references_in_bounds(before[before.len() - 1]));
            assert(next == before.last());
        }
        let ghost prev = *body;
        body.inline(next);
        proof {
            assert forall|k: int| 0 <= k < b0.instructions@.len() implies #[trigger] body.instructions@[k] == b0.instructions@[k] by {
                assert(body.instructions@.take(prev.instructions@.len() as int)[k] == prev.instructions@[k]);
            }
            assert forall|k: int| 0 <= k < b0.blocks@.len() implies #[trigger] body.blocks@[k] == b0.blocks@[k] by {
                assert(body.blocks@.take(prev.blocks@.len() as int)[k] == prev.blocks@[k]);
            }
            if all_ids_distinct(b0.blocks@, in0) {
                lemma_merge_keeps_distinct(prev.blocks@, before, body.blocks@);
            }
            let off = prev.instructions@.len() as nat;
            let k = inlined@.len() as int;
            assert(next == in0[k]);
            assert forall|m: int| 0 <= m < next.blocks@.len() implies #[trigger] block_placed(*body, next, m, off, b0.blocks@.len() as nat) by {
                assert(block_shifted(next.blocks@[m], body.blocks@[prev.blocks@.len() + m], off));
            }
            assert forall|j: int| 0 <= j < next.instructions@.len() implies #[trigger] instruction_placed(*body, next, j, off) by {
                let a = next.instructions@[j];
                let b = body.instructions@[prev.instructions@.len() + j];
                assert(b.id == a.id && value_shifted(a.value, b.value, prev.instructions@.len() as nat));
            }
            assert(placed(*body, in0[k], off, b0.blocks@.len() as nat));
            assert forall|i: int| inlined@.len() <= i < in0.len() implies placed_somewhere(*body, #[trigger] in0[i], b0.blocks@.len() as nat) by {
                if i > k {
                    let o = choose|o: nat| placed(prev, in0[i], o, b0.blocks@.len() as nat);
                    lemma_placed_kept(prev, *body, in0[i], o, b0.blocks@.len() as nat);
                }
            }
        }
    }
}

proof fn lemma_merge_keeps_distinct(blocks: Seq<BasicBlock>, bodies: Seq<HIR>, merged: Seq<BasicBlock>)
    requires
        bodies.len() > 0,
        all_ids_distinct(blocks, bodies),
        merged.len() == blocks.len() + bodies.last().blocks@.len(),
        merged.take(blocks.len() as int) == blocks,
        forall|k: int|
            0 <= k < bodies.last().blocks@.len() ==> (#[trigger] merged[blocks.len() + k]).id
                == bodies.last().blocks@[k].id,
    ensures
        all_ids_distinct(merged, bodies.drop_last()),
{
    let n = blocks.len();
    let x = bodies.last().blocks@;
    let rest = bodies.drop_last();
    assert(ids_unique(x) && ids_disjoint(x, blocks)) by {
        assert(ids_unique(bodies[bodies.len() - 1].blocks@));
    }
    assert forall|k: int| 0 <= k < n implies #[trigger] merged[k] == blocks[k] by {
        assert(merged.take(n as int)[k] == blocks[k]);
    }
    assert forall|a: int, b: int| 0 <= a < merged.len() && 0 <= b < merged.len() && a != b implies merged[a].id
        != merged[b].id by {
        if a < n && b >= n {
            let k = b - n;
            assert(merged[blocks.len() + k].id == x[k].id);
        } else if a >= n && b < n {
            let k = a - n;
            assert(merged[blocks.len() + k].id == x[k].id);
        } else if a >= n && b >= n {
            let ka = a - n;
            let kb = b - n;
            assert(merged[blocks.len() + ka].id == x[ka].id);
            assert(merged[blocks.len() + kb].id == x[kb].id);
        }
    }
    assert forall|i: int| 0 <= i < rest.len() implies ids_unique(#[trigger] rest[i].blocks@) && ids_disjoint(
        rest[i].blocks@,
        merged,
    ) by {
        assert(rest[i] == bodies[i]);
        assert(ids_unique(bodies[i].blocks@) && ids_disjoint(bodies[i].blocks@, blocks));
        assert(ids_disjoint(bodies[i].blocks@, bodies[bodies.len() - 1].blocks@));
        assert forall|a: int, b: int| 0 <= a < rest[i].blocks@.len() && 0 <= b < merged.len() implies rest[i].blocks@[a].id
            != merged[b].id by {
            if b >= n {
                let k = b - n;
                assert(merged[blocks.len() + k].id == x[k].id);
            }
        }
    }
    assert forall|i: int, j: int| 0 <= i < rest.len() && 0 <= j < rest.len() && i != j implies ids_disjoint(
        #[trigger] rest[i].blocks@,
        #[trigger] rest[j].blocks@,
    ) by {
        assert(rest[i] == bodies[i] && rest[j] == bodies[j]);
        assert(ids_disjoint(bodies[i].blocks@, bodies[j].blocks@));
    }
}

proof fn lemma_merged(f0: HIR, mid: HIR, fin: HIR, ctr0: nat, bctr0: nat)
    requires
        slots_accounted(f0, f0.blocks@.len() as int, mid.instructions@, ctr0),
        inlined_upto(f0, f0.blocks@.len() as int, mid.instructions@, ctr0),
        mid.blocks@.len() >= f0.blocks@.len(),
        forall|b2: int, p: int|
            0 <= b2 < f0.blocks@.len() && #[trigger] first_match_at(f0.instructions@, f0.blocks@[b2].instructions@, p)
                && first_claim(f0, b2, p) ==> block_cut(f0.blocks@[b2], mid.blocks@[b2], p, mid.instructions@, f0.instructions@.len() as nat)
                && continued_in(f0.blocks@[b2], mid.blocks@[b2], mid.blocks@, p, bctr0),
        forall|b2: int| 0 <= b2 < f0.blocks@.len() && !claims(f0, b2) ==> #[trigger] mid.blocks@[b2] == f0.blocks@[b2],
        forall|b2: int, p: int|
            0 <= b2 < f0.blocks@.len() && #[trigger] first_match_at(f0.instructions@, f0.blocks@[b2].instructions@, p)
                && first_claim(f0, b2, p) ==> head_links(f0, b2, p, mid.blocks@[b2], mid.instructions@),
        fin.instructions@.len() >= mid.instructions@.len(),
        forall|k: int| 0 <= k < mid.instructions@.len() ==> #[trigger] fin.instructions@[k] == mid.instructions@[k],
        fin.blocks@.len() >= mid.blocks@.len(),
        forall|k: int| 0 <= k < mid.blocks@.len() ==> #[trigger] fin.blocks@[k] == mid.blocks@[k],
    ensures
        fin.instructions@.len() >= f0.instructions@.len(),
        fin.blocks@.len() >= f0.blocks@.len(),
        forall|b: int, p: int|
            0 <= b < f0.blocks@.len() && #[trigger] first_match_at(f0.instructions@, f0.blocks@[b].instructions@, p)
                && first_claim(f0, b, p) ==> call_inlined(f0, fin.instructions@, b, p, ctr0),
        forall|k: int|
            0 <= k < f0.instructions@.len() ==> #[trigger] fin.instructions@[k] == f0.instructions@[k]
                || fin.instructions@[k].value is Tombstone || is_result_load(fin.instructions@[k], f0.instructions@[k].id, ctr0),
        forall|b2: int, p: int|
            0 <= b2 < f0.blocks@.len() && #[trigger] first_match_at(f0.instructions@, f0.blocks@[b2].instructions@, p)
                && first_claim(f0, b2, p) ==> block_cut(f0.blocks@[b2], fin.blocks@[b2], p, fin.instructions@, f0.instructions@.len() as nat)
                && continued_in(f0.blocks@[b2], fin.blocks@[b2], fin.blocks@, p, bctr0),
        forall|b2: int| 0 <= b2 < f0.blocks@.len() && !claims(f0, b2) ==> #[trigger] fin.blocks@[b2] == f0.blocks@[b2],
        forall|b2: int, p: int|
            0 <= b2 < f0.blocks@.len() && #[trigger] first_match_at(f0.instructions@, f0.blocks@[b2].instructions@, p)
                && first_claim(f0, b2, p) ==> head_links(f0, b2, p, fin.blocks@[b2], fin.instructions@),
{
    let fi = fin.instructions@;
    let mi = mid.instructions@;
    assert forall|bb: int, p: int|
        0 <= bb < f0.blocks@.len() && #[trigger] first_match_at(f0.instructions@, f0.blocks@[bb].instructions@, p)
            && first_claim(f0, bb, p) implies call_inlined(f0, fi, bb, p, ctr0) by {
        assert(call_inlined(f0, mi, bb, p, ctr0));
        let c = f0.blocks@[bb].instructions@[p];
        let l = use_memo_lambda(f0.instructions@, c)->0;
        assert(fi[c.0 as int] == mi[c.0 as int]);
        assert(fi[l.0 as int] == mi[l.0 as int]);
    }
    assert forall|k: int| 0 <= k < f0.instructions@.len() implies #[trigger] fi[k] == f0.instructions@[k]
        || fi[k].value is Tombstone || is_result_load(fi[k], f0.instructions@[k].id, ctr0) by {
        assert(fi[k] == mi[k]);
        assert(mi[k] == f0.instructions@[k] || (mi[k].value is Tombstone && claimed_before(f0, f0.blocks@.len() as int, k))
            || (is_result_load(mi[k], f0.instructions@[k].id, ctr0) && f0.instructions@[k].value is Call));
    }
    assert forall|b2: int, p: int|
        0 <= b2 < f0.blocks@.len() && #[trigger] first_match_at(f0.instructions@, f0.blocks@[b2].instructions@, p)
            && first_claim(f0, b2, p) implies block_cut(f0.blocks@[b2], fin.blocks@[b2], p, fi, f0.instructions@.len() as nat)
            && continued_in(f0.blocks@[b2], fin.blocks@[b2], fin.blocks@, p, bctr0) by {
        assert(fin.blocks@[b2] == mid.blocks@[b2]);
        let d = mid.blocks@[b2].instructions@[p].0 as int;
        assert(fi[d] == mi[d]);
        let t = choose|t: int|
            0 <= t < mid.blocks@.len() && #[trigger] mid.blocks@[t].id == mid.blocks@[b2].terminal.value->Label_0.fallthrough->0
                && block_continues(f0.blocks@[b2], mid.blocks@[t], p, bctr0);
        assert(fin.blocks@[t] == mid.blocks@[t]);
    }
    assert forall|b2: int| 0 <= b2 < f0.blocks@.len() && !claims(f0, b2) implies #[trigger] fin.blocks@[b2] == f0.blocks@[b2] by {
        assert(fin.blocks@[b2] == mid.blocks@[b2]);
    }
    assert forall|b2: int, p: int|
        0 <= b2 < f0.blocks@.len() && #[trigger] first_match_at(f0.instructions@, f0.blocks@[b2].instructions@, p)
            && first_claim(f0, b2, p) implies head_links(f0, b2, p, fin.blocks@[b2], fi) by {
        assert(fin.blocks@[b2] == mid.blocks@[b2]);
        assert(block_cut(f0.blocks@[b2], mid.blocks@[b2], p, mi, f0.instructions@.len() as nat));
        assert(call_inlined(f0, mi, b2, p, ctr0));
        let c = f0.blocks@[b2].instructions@[p].0 as int;
        let d = mid.blocks@[b2].instructions@[p].0 as int;
        assert(fi[c] == mi[c]);
        assert(fi[d] == mi[d]);
    }
}

/// `after` is `before` with the first inlinable call of every block rewritten
/// as `inline_use_memo_calls` states, before re-initialization: each call
/// whose callback no earlier block claimed loads a fresh result named `t`; its
/// block is cut at the call, declares the result with kind `Let` and opens a
/// label on the callback's entry; a fresh continuation block holds the rest
/// of the block and its former terminal; every other block stays as it was.
pub open spec fn calls_rewritten(before: HIR, after: HIR, ctr: nat, bctr: nat) -> bool {
    &&& after.entry == before.entry
    &&& after.blocks@.len() >= before.blocks@.len()
    &&& after.instructions@.len() >= before.instructions@.len()
    &&& forall|b: int, p: int|
        0 <= b < before.blocks@.len() && #[trigger] first_match_at(before.instructions@, before.blocks@[b].instructions@, p)
            && first_claim(before, b, p) ==> {
            &&& call_inlined(before, after.instructions@, b, p, ctr)
            &&& block_cut(before.blocks@[b], after.blocks@[b], p, after.instructions@, before.instructions@.len() as nat)
            &&& head_links(before, b, p, after.blocks@[b], after.instructions@)
            &&& continued_in(before.blocks@[b], after.blocks@[b], after.blocks@, p, bctr)
        }
    &&& forall|b: int| 0 <= b < before.blocks@.len() && !claims(before, b) ==> #[trigger] after.blocks@[b] == before.blocks@[b]
    &&& forall|k: int|
        0 <= k < before.instructions@.len() ==> #[trigger] after.instructions@[k] == before.instructions@[k]
            || after.instructions@[k].value is Tombstone || is_result_load(after.instructions@[k], before.instructions@[k].id, ctr)
    &&& block_ids_distinct_below(before, bctr) ==> ids_unique(after.blocks@)
}

/// Rewrites the first inlinable `useMemo` call of every block, as
/// `inline_use_memo` describes, and merges the callbacks' bodies into the
/// function, without recomputing predecessors or block order. Returns whether
/// any block held such a call, that is, whether the blocks changed.
///
/// Moving a callback's blocks into the caller needs no renumbering: where the
/// caller's blocks and its function literals' blocks have distinct ids below
/// the block counter, the blocks of the result still have distinct ids.
pub fn inline_use_memo_calls(env: &mut Environment, fun: &mut Function) -> (r: Result<bool, Diagnostic>)
    requires
        old(env).wf(),
        old(env).has_room(old(fun).body.blocks@.len()),
        inlinable_body(old(fun).body),
    ensures
        r is Err <==> has_invalid_use(old(fun).body),
        r is Err ==> *final(fun) == *old(fun) && *final(env) == *old(env),
        match r {
            Err(d) => reports_invalid_use(old(fun).body, d),
            Ok(_) => true,
        },
        r is Ok ==> (r->Ok_0 <==> has_use(old(fun).body)),
        r == Ok::<bool, Diagnostic>(false) ==> *final(fun) == *old(fun),
        final(fun).body.entry == old(fun).body.entry,
        r is Ok ==> final(fun).body.blocks@.len() >= old(fun).body.blocks@.len(),
        r is Ok ==> forall|b: int, p: int|
            0 <= b < old(fun).body.blocks@.len() && #[trigger] first_match_at(
                old(fun).body.instructions@,
                old(fun).body.blocks@[b].instructions@,
                p,
            ) && first_claim(old(fun).body, b, p) ==> block_cut(
                old(fun).body.blocks@[b],
                final(fun).body.blocks@[b],
                p,
                final(fun).body.instructions@,
                old(fun).body.instructions@.len() as nat,
            ) && continued_in(
                old(fun).body.blocks@[b],
                final(fun).body.blocks@[b],
                final(fun).body.blocks@,
                p,
                old(env).block_counter(),
            ),
        r is Ok ==> forall|b: int, p: int|
            0 <= b < old(fun).body.blocks@.len() && #[trigger] first_match_at(
                old(fun).body.instructions@,
                old(fun).body.blocks@[b].instructions@,
                p,
            ) && first_claim(old(fun).body, b, p) ==> head_links(
                old(fun).body,
                b,
                p,
                final(fun).body.blocks@[b],
                final(fun).body.instructions@,
            ),
        r is Ok ==> forall|b: int|
            0 <= b < old(fun).body.blocks@.len() && !claims(old(fun).body, b) ==> #[trigger] final(fun).body.blocks@[b]
                == old(fun).body.blocks@[b],
        r is Ok ==> forall|b: int, p: int|
            0 <= b < old(fun).body.blocks@.len() && #[trigger] first_match_at(
                old(fun).body.instructions@,
                old(fun).body.blocks@[b].instructions@,
                p,
            ) && first_claim(old(fun).body, b, p) ==> call_inlined(
                old(fun).body,
                final(fun).body.instructions@,
                b,
                p,
                old(env).identifier_counter(),
            ),
        r is Ok ==> final(fun).body.instructions@.len() >= old(fun).body.instructions@.len(),
        r is Ok ==> forall|k: int|
            0 <= k < old(fun).body.instructions@.len() ==> #[trigger] final(fun).body.instructions@[k]
                == old(fun).body.instructions@[k] || final(fun).body.instructions@[k].value is Tombstone
                || is_result_load(final(fun).body.instructions@[k], old(fun).body.instructions@[k].id, old(env).identifier_counter()),
        r is Ok && block_ids_distinct_below(old(fun).body, old(env).block_counter()) ==> ids_unique(
            final(fun).body.blocks@,
        ),
        r is Ok ==> calls_rewritten(old(fun).body, final(fun).body, old(env).identifier_counter(), old(env).block_counter()),
        final(fun).params == old(fun).params,
        final(fun).is_async == old(fun).is_async,
        final(fun).is_generator == old(fun).is_generator,
        final(env).wf(),
{
    let calls = match collect_use_memo_calls(&fun.body) {
        Ok(calls) => calls,
        Err(d) => {
            return Err(d);
        },
    };
    let mut any = false;
    let mut c: usize = 0;
    while c < calls.len()
        invariant
            c <= calls@.len(),
            any <==> exists|k: int| 0 <= k < c && (#[trigger] calls@[k]) is Some,
        decreases calls@.len() - c,
    {
        if calls[c].is_some() {
            any = true;
        }
        c = c + 1;
    }
    if !any {
        proof {
            if has_use(fun.body) {
                let b = choose|b: int| 0 <= b < fun.body.blocks@.len() && !no_match(fun.body.instructions@, #[trigger] fun.body.blocks@[b].instructions@);
                assert(calls@[b] is Some);
            }
            assert forall|bb: int, p: int|
                0 <= bb < fun.body.blocks@.len() && #[trigger] first_match_at(
                    fun.body.instructions@,
                    fun.body.blocks@[bb].instructions@,
                    p,
                ) implies false by {
                assert(calls@[bb] is Some);
            }
        }
        return Ok(false);
    }
    let ghost f0 = *fun;
    let ghost ctr0 = env.identifier_counter();
    let ghost bctr0 = env.block_counter();
    let n = fun.body.blocks.len();
    let inlined = rewrite_calls(env, &mut fun.body, &calls);
    let ghost mid = fun.body;
    merge_bodies(&mut fun.body, inlined);
    proof {
        lemma_merged(f0.body, mid, fun.body, ctr0, bctr0);
        let w = choose|w: int| 0 <= w < calls@.len() && (#[trigger] calls@[w]) is Some;
        assert(!no_match(f0.body.instructions@, f0.body.blocks@[w].instructions@));
    }
    Ok(true)
}

/// Inlines calls of `useMemo` whose argument is a function literal: the
/// callback's blocks join the caller under a label, each of its returns
/// becomes a store into a fresh result variable named `t` and a break to the
/// code after the call, and the call itself becomes a load of that variable.
/// One call per block is inlined in a run; run again to inline more.
///
/// Every callback is checked before anything changes: one that takes
/// parameters, or is async or a generator, fails the pass with an
/// invalid-usage diagnostic and leaves the function and environment as they
/// were.
pub fn inline_use_memo(env: &mut Environment, fun: &mut Function) -> (r: Result<(), Diagnostic>)
    requires
        old(env).wf(),
        old(env).has_room(old(fun).body.blocks@.len()),
        inlinable_body(old(fun).body),
    ensures
        r is Err <==> has_invalid_use(old(fun).body),
        r is Err ==> *final(fun) == *old(fun) && *final(env) == *old(env),
        match r {
            Err(d) => reports_invalid_use(old(fun).body, d),
            Ok(_) => true,
        },
        r is Ok && !has_use(old(fun).body) ==> *final(fun) == *old(fun),
        r is Ok && has_use(old(fun).body) ==> {
            &&& final(fun).body.entry == old(fun).body.entry
            &&& ids_unique(final(fun).body.blocks@)
            &&& predecessors_marked(final(fun).body.blocks@)
            &&& final(fun).body.instructions@.len() >= old(fun).body.instructions@.len()
        },
        r is Ok ==> forall|b: int, p: int|
            0 <= b < old(fun).body.blocks@.len() && #[trigger] first_match_at(
                old(fun).body.instructions@,
                old(fun).body.blocks@[b].instructions@,
                p,
            ) && first_claim(old(fun).body, b, p) ==> call_inlined(
                old(fun).body,
                final(fun).body.instructions@,
                b,
                p,
                old(env).identifier_counter(),
            ),
        r is Ok ==> final(fun).body.instructions@.len() >= old(fun).body.instructions@.len(),
        r is Ok ==> forall|k: int|
            0 <= k < old(fun).body.instructions@.len() ==> #[trigger] final(fun).body.instructions@[k]
                == old(fun).body.instructions@[k] || final(fun).body.instructions@[k].value is Tombstone
                || is_result_load(final(fun).body.instructions@[k], old(fun).body.instructions@[k].id, old(env).identifier_counter()),
        r is Ok && has_use(old(fun).body) ==> exists|mid: HIR|
            calls_rewritten(old(fun).body, mid, old(env).identifier_counter(), old(env).block_counter())
                && #[trigger] initialized_from(mid, final(fun).body),
        final(fun).params == old(fun).params,
        final(fun).is_async == old(fun).is_async,
        final(fun).is_generator == old(fun).is_generator,
        final(env).wf(),
{
    match inline_use_memo_calls(env, fun) {
        Err(d) => Err(d),
        Ok(false) => Ok(()),
        Ok(true) => {
            let ghost mid = fun.body;
            let _ = initialize_hir(&mut fun.body);
            assert(initialized_from(mid, fun.body));
            Ok(())
        },
    }
}

} // verus!
