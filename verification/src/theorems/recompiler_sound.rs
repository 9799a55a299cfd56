//! Generated code does what the program does: on the model of the
//! processor, the code that the code generator makes of a program shows the
//! same as the interpreter that walks the program's tree.

use vstd::prelude::*;
use crate::bf_memory::{
    BfMemory, BfMemoryMemSafe, BfMemoryMemSafeSingleArray, BfMemoryMemUnsafe, fixed_move_ops,
    standard_move_ops,
};
use crate::executors::{Fault, Step, run_spec};
use crate::executors::bf_interpreter::{InterpreterState, interpreter_steps};
use crate::executors::bf_opt_interpreter::{
    OptState, advanced, block_at, control_valid, lemma_control_enter, lemma_control_last_in_block,
    lemma_control_leave, lemma_control_replace_last, opt_next, opt_steps, shown_tape, stands_at,
    visible_cells,
};
use crate::executors::bf_recompiler::{
    Callbacks, LOOP_HEAD_SIZE, LOOP_TAIL_SIZE, MAX_LOOP_BODY, call_head, call_tail, emit_instr,
    emit_ops, epilogue, flush_cell, fn_call, imm32, imm64, instr_jumps_fit, le_bytes, le_value,
    lemma_emit_ops_concat, lemma_jumps_fit_prefix, lemma_le_bytes_len, lemma_le_value_of_le_bytes,
    lemma_le_value_of_le_bytes_4, lemma_signed_32_of_twos_complement, loop_head, loop_tail,
    ops_jumps_fit, pow256, program_code, prologue, reload_cell, signed_32, twos_complement_32,
    twos_complement_8,
};
use crate::executors::emulator::{emulator_steps, fits, lemma_emulator_runs_as_the_processor};
use crate::executors::machine::{
    Cpu, Ins, Reg, Setting, Word, call, cpu_entering, cpu_next, cpu_steps, decode, execute, has,
    imm, low_32, returned,
};
use crate::executors::operations::{Instr, optimize_fix, parse};
use crate::theorems::equivalence::{
    all_cells_reachable, lemma_text_interpreter_follows_tree_interpreter,
    lemma_tree_interpreter_follows_text_interpreter, tape_is_total, text_start, tree_start,
};
use crate::theorems::optimizer_sound::{
    lemma_optimized_tree_follows_text, lemma_text_follows_optimized_tree,
};
use crate::theorems::simulation::{
    after_steps, all_silent, ends_stretched, fed, holds, is_stretched_simulation,
    lemma_silent_steps_add, lemma_stretched_simulation, lemma_stretched_simulation_back,
    same_observation, stretch_matches,
};

verus! {

/// The fragment that moves the cursor, by the kind of tape.
pub open spec fn move_code(grows: bool, bf_memory_addr: Seq<u8>, get_ref: usize, delta: i32) -> Seq<u8> {
    if grows {
        standard_move_ops(bf_memory_addr, get_ref, delta)
    } else {
        fixed_move_ops(delta)
    }
}

/// Whether the tape `T` moves the cursor as a tape of this kind does: one
/// that grows asks for every cell, the fixed one computes the address.
pub open spec fn tape_kind<T: BfMemory>(grows: bool) -> bool {
    forall|bf_memory_addr: Seq<u8>, get_ref: usize, delta: i32| #[trigger]
        T::move_ops(bf_memory_addr, get_ref, delta) == move_code(
            grows,
            bf_memory_addr,
            get_ref,
            delta,
        )
}

/// Where the code of the place `control` begins in the code of `ops`.
pub open spec fn code_offset<T: BfMemory>(
    ops: Seq<Instr>,
    control: Seq<int>,
    addr: Seq<u8>,
    callbacks: Callbacks,
) -> int
    decreases control.len(),
{
    if control.len() == 0 {
        0
    } else {
        let before = emit_ops::<T>(ops.take(control[0]), addr, callbacks).len() as int;
        if control.len() == 1 {
            before
        } else if 0 <= control[0] < ops.len() {
            match ops[control[0]] {
                Instr::Loop(body) => before + LOOP_HEAD_SIZE + code_offset::<T>(
                    body,
                    control.drop_first(),
                    addr,
                    callbacks,
                ),
                _ => before,
            }
        } else {
            before
        }
    }
}

/// The code of a sequence is the code of what stands before an operation,
/// the code of the operation, and the code of what stands behind it.
pub proof fn lemma_emit_ops_split<T: BfMemory>(
    ops: Seq<Instr>,
    at: int,
    addr: Seq<u8>,
    callbacks: Callbacks,
)
    requires
        0 <= at < ops.len(),
    ensures
        emit_ops::<T>(ops, addr, callbacks) == emit_ops::<T>(ops.take(at), addr, callbacks)
            + emit_instr::<T>(ops[at], addr, callbacks) + emit_ops::<T>(
            ops.skip(at + 1),
            addr,
            callbacks,
        ),
        emit_ops::<T>(ops.take(at + 1), addr, callbacks) == emit_ops::<T>(
            ops.take(at),
            addr,
            callbacks,
        ) + emit_instr::<T>(ops[at], addr, callbacks),
{
    let head = ops.take(at);
    let upto = ops.take(at + 1);
    let tail = ops.skip(at + 1);
    assert(upto.drop_last() =~= head);
    assert(upto.last() == ops[at]);
    assert(ops =~= upto + tail);
    lemma_emit_ops_concat::<T>(upto, tail, addr, callbacks);
}

/// Where the code of the sequence begins that the place `control` points
/// into.
pub open spec fn block_offset<T: BfMemory>(
    ops: Seq<Instr>,
    control: Seq<int>,
    addr: Seq<u8>,
    callbacks: Callbacks,
) -> int {
    code_offset::<T>(ops, control.drop_last().push(0int), addr, callbacks)
}

/// The code of a program holds the code of the sequence that a place points
/// into, as one stretch; the place's own code begins behind the code of the
/// operations before it; and around the body of a loop stand the loop's
/// head and tail, with jumps over the length of the body.
pub proof fn lemma_code_window<T: BfMemory>(
    ops: Seq<Instr>,
    control: Seq<int>,
    addr: Seq<u8>,
    callbacks: Callbacks,
)
    requires
        control.len() > 0,
        control_valid(ops, control),
    ensures
        ({
            let whole = emit_ops::<T>(ops, addr, callbacks);
            let block = block_at(ops, control);
            let code = emit_ops::<T>(block, addr, callbacks);
            let base = block_offset::<T>(ops, control, addr, callbacks);
            let here = code_offset::<T>(ops, control, addr, callbacks);
            &&& 0 <= base
            &&& base + code.len() <= whole.len()
            &&& whole.subrange(base, base + code.len()) == code
            &&& here == base + emit_ops::<T>(block.take(control.last()), addr, callbacks).len()
            &&& control.len() > 1 ==> {
                &&& base - LOOP_HEAD_SIZE == code_offset::<T>(ops, control.drop_last(), addr, callbacks)
                &&& 0 <= base - LOOP_HEAD_SIZE
                &&& base + code.len() + LOOP_TAIL_SIZE <= whole.len()
                &&& whole.subrange(base - LOOP_HEAD_SIZE, base) == loop_head(
                    code.len() + LOOP_TAIL_SIZE,
                )
                &&& whole.subrange(base + code.len(), base + code.len() + LOOP_TAIL_SIZE)
                    == loop_tail(-(code.len() + LOOP_TAIL_SIZE + LOOP_HEAD_SIZE))
            }
        }),
    decreases control.len(),
{
    let whole = emit_ops::<T>(ops, addr, callbacks);
    let start = control.drop_last().push(0int);
    if control.len() == 1 {
        assert(start =~= seq![0int]);
        assert(ops.take(0) =~= Seq::<Instr>::empty());
        assert(whole.subrange(0, whole.len() as int) =~= whole);
    } else {
        let at = control[0];
        match ops[at] {
            Instr::Loop(body) => {
                let inner = control.drop_first();
                lemma_code_window::<T>(body, inner, addr, callbacks);
                lemma_emit_ops_split::<T>(ops, at, addr, callbacks);
                let before = emit_ops::<T>(ops.take(at), addr, callbacks);
                let inside = emit_ops::<T>(body, addr, callbacks);
                let behind = emit_ops::<T>(ops.skip(at + 1), addr, callbacks);
                let head = loop_head(inside.len() + LOOP_TAIL_SIZE);
                let tail = loop_tail(-(inside.len() + LOOP_TAIL_SIZE + LOOP_HEAD_SIZE));
                lemma_le_bytes_len(twos_complement_32(inside.len() + LOOP_TAIL_SIZE), 4);
                lemma_le_bytes_len(
                    twos_complement_32(-(inside.len() + LOOP_TAIL_SIZE + LOOP_HEAD_SIZE)),
                    4,
                );
                assert(head.len() == 9);
                assert(tail.len() == 5);
                assert(whole == before + (head + inside + tail) + behind);
                assert(start[0] == at);
                assert(start.drop_first() =~= inner.drop_last().push(0int));
                assert(control.drop_last()[0] == at);
                let block = block_at(ops, control);
                let code = emit_ops::<T>(block, addr, callbacks);
                let inner_base = block_offset::<T>(body, inner, addr, callbacks);
                let base = block_offset::<T>(ops, control, addr, callbacks);
                assert(base == before.len() + 9 + inner_base);
                assert(whole.subrange(base, base + code.len()) =~= inside.subrange(
                    inner_base,
                    inner_base + code.len(),
                ));
                if control.len() == 2 {
                    assert(inner.len() == 1);
                    assert(inner_base == 0);
                    assert(block == body);
                    assert(control.drop_last() =~= seq![at]);
                    assert(whole.subrange(base - 9, base) =~= head);
                    assert(whole.subrange(base + code.len(), base + code.len() + 5) =~= tail);
                } else {
                    assert(control.drop_last().drop_first() =~= inner.drop_last());
                    assert(whole.subrange(base - 9, base) =~= inside.subrange(
                        inner_base - 9,
                        inner_base as int,
                    ));
                    assert(whole.subrange(base + code.len(), base + code.len() + 5)
                        =~= inside.subrange(
                        inner_base + code.len(),
                        inner_base + code.len() + 5,
                    ));
                }
            },
            _ => {},
        }
    }
}

/// Whether the code holds `bytes` at `at`.
pub open spec fn placed(code: Seq<u8>, at: int, bytes: Seq<u8>) -> bool {
    &&& 0 <= at
    &&& at + bytes.len() <= code.len()
    &&& forall|i: int| 0 <= i < bytes.len() ==> code[at + i] == #[trigger] bytes[i]
}

/// A stretch of the code is placed where it was cut out.
pub proof fn lemma_placed(code: Seq<u8>, at: int, bytes: Seq<u8>)
    requires
        0 <= at,
        at + bytes.len() <= code.len(),
        code.subrange(at, at + bytes.len()) == bytes,
    ensures
        placed(code, at, bytes),
{
    assert forall|i: int| 0 <= i < bytes.len() implies code[at + i] == #[trigger] bytes[i] by {
        assert(code.subrange(at, at + bytes.len())[i] == code[at + i]);
    }
}

/// Where two stretches are placed as one, each is placed.
pub proof fn lemma_placed_parts(code: Seq<u8>, at: int, first: Seq<u8>, second: Seq<u8>)
    requires
        placed(code, at, first + second),
    ensures
        placed(code, at, first),
        placed(code, at + first.len(), second),
{
    let both = first + second;
    assert forall|i: int| 0 <= i < first.len() implies code[at + i] == #[trigger] first[i] by {
        assert(both[i] == first[i]);
    }
    assert forall|i: int| 0 <= i < second.len() implies code[at + first.len() + i]
        == #[trigger] second[i] by {
        assert(both[first.len() + i] == second[i]);
    }
}

/// What is placed in the code is the stretch of the code there.
pub proof fn lemma_placed_subrange(code: Seq<u8>, at: int, bytes: Seq<u8>)
    requires
        placed(code, at, bytes),
    ensures
        code.subrange(at, at + bytes.len()) == bytes,
{
    assert forall|i: int| 0 <= i < bytes.len() implies code.subrange(at, at + bytes.len())[i]
        == bytes[i] by {
        assert(code[at + i] == bytes[i]);
    }
    assert(code.subrange(at, at + bytes.len()) =~= bytes);
}

/// The number in a 64-bit immediate that holds an address is the address.
pub proof fn lemma_imm64(code: Seq<u8>, at: int, target: usize)
    requires
        placed(code, at, imm64(target)),
    ensures
        imm(code, at, 8) == target,
        imm64(target).len() == 8,
{
    assert(pow256(8) == 0x1_0000_0000_0000_0000) by {
        reveal_with_fuel(pow256, 9);
    }
    lemma_le_value_of_le_bytes(target as nat, 8);
    lemma_placed_subrange(code, at, imm64(target));
}

/// The number in a signed 32-bit immediate is the value that was encoded.
pub proof fn lemma_imm32(code: Seq<u8>, at: int, value: int)
    requires
        placed(code, at, imm32(value)),
        i32::MIN <= value <= i32::MAX,
    ensures
        signed_32(imm(code, at, 4) as nat) == value,
        imm(code, at, 4) == twos_complement_32(value),
        imm32(value).len() == 4,
{
    lemma_signed_32_of_twos_complement(value);
    lemma_le_value_of_le_bytes_4(twos_complement_32(value));
    lemma_le_bytes_len(twos_complement_32(value), 4);
    lemma_placed_subrange(code, at, imm32(value));
}

/// One more step that reports nothing.
pub proof fn lemma_silent_more(s: Cpu, count: nat)
    requires
        all_silent(cpu_steps(), s, count),
        cpu_next(after_steps(cpu_steps(), s, count), None).1 == Step::More,
    ensures
        all_silent(cpu_steps(), s, count + 1),
        after_steps(cpu_steps(), s, count + 1) == cpu_next(
            after_steps(cpu_steps(), s, count),
            None,
        ).0,
{
    let at = after_steps(cpu_steps(), s, count);
    assert(all_silent(cpu_steps(), at, 1)) by {
        assert(all_silent(cpu_steps(), cpu_next(at, None).0, 0));
    }
    assert(after_steps(cpu_steps(), at, 1) == cpu_next(at, None).0) by {
        assert(after_steps(cpu_steps(), cpu_next(at, None).0, 0) == cpu_next(at, None).0);
    }
    lemma_silent_steps_add(cpu_steps(), s, count, 1);
}

/// The stack pointer before a call: below what was saved and the red zone,
/// at a multiple of 16.
pub open spec fn call_rsp(rsp: int) -> int {
    (rsp - 24) - (rsp - 24) % 16 - 128
}

/// The processor before the `call` of a call sequence: the working
/// registers are saved, the stack is aligned, and the callee's address is in
/// `rax`.
pub open spec fn before_call(s: Cpu, target: usize) -> Cpu {
    Cpu {
        rip: s.rip + 27,
        rax: Word::Num(target as int),
        rbp: Word::Num(s.rsp - 24),
        rsp: call_rsp(s.rsp),
        stack: s.stack.insert(s.rsp - 8, s.rdx).insert(s.rsp - 16, s.rcx).insert(
            s.rsp - 24,
            s.rbp,
        ),
        ..s
    }
}

/// The seven instructions before the `call` of a call sequence report
/// nothing and lead to the state before the call.
pub proof fn lemma_call_before(s: Cpu, target: usize)
    requires
        placed(s.code, s.rip, fn_call(target)),
    ensures
        all_silent(cpu_steps(), s, 7),
        after_steps(cpu_steps(), s, 7) == before_call(s, target),
        placed(s.code, s.rip + 27, call_tail()),
        fn_call(target).len() == 35,
{
    reveal(decode);
    let code = s.code;
    let head = call_head();
    lemma_le_bytes_len(target as nat, 8);
    assert(fn_call(target) == head + imm64(target) + call_tail());
    lemma_placed_parts(code, s.rip, head + imm64(target), call_tail());
    lemma_placed_parts(code, s.rip, head, imm64(target));
    lemma_imm64(code, s.rip + 19, target);
    assert(head.len() == 19);
    assert(head[0] == 0x52 && head[1] == 0x51 && head[2] == 0x55);
    assert(head[3] == 0x48 && head[4] == 0x89 && head[5] == 0xe5);
    assert(head[6] == 0x48 && head[7] == 0x83 && head[8] == 0xe4 && head[9] == 0xf0);
    assert(head[10] == 0x48 && head[11] == 0x81 && head[12] == 0xec && head[13] == 0x80);
    assert(head[14] == 0x00 && head[15] == 0x00 && head[16] == 0x00);
    assert(head[17] == 0x48 && head[18] == 0xb8);
    let s0 = s;
    assert(all_silent(cpu_steps(), s0, 0));
    assert(after_steps(cpu_steps(), s0, 0) == s0);
    // push rdx
    assert(decode(code, s0.rip) == Some((Ins::Push(Reg::Rdx), 1int)));
    lemma_silent_more(s, 0);
    let s1 = after_steps(cpu_steps(), s, 1);
    // push rcx
    assert(code[s.rip + 1] == 0x51);
    assert(decode(code, s1.rip) == Some((Ins::Push(Reg::Rcx), 1int)));
    lemma_silent_more(s, 1);
    let s2 = after_steps(cpu_steps(), s, 2);
    // push rbp
    assert(code[s.rip + 2] == 0x55);
    assert(decode(code, s2.rip) == Some((Ins::Push(Reg::Rbp), 1int)));
    lemma_silent_more(s, 2);
    let s3 = after_steps(cpu_steps(), s, 3);
    // mov rbp, rsp
    assert(code[s.rip + 3] == 0x48 && code[s.rip + 4] == 0x89 && code[s.rip + 5] == 0xe5);
    assert(decode(code, s3.rip) == Some((Ins::MovRbpRsp, 3int)));
    lemma_silent_more(s, 3);
    let s4 = after_steps(cpu_steps(), s, 4);
    // and rsp, -16
    assert(code[s.rip + 6] == 0x48 && code[s.rip + 7] == 0x83 && code[s.rip + 8] == 0xe4
        && code[s.rip + 9] == 0xf0);
    assert(decode(code, s4.rip) == Some((Ins::AlignRsp, 4int)));
    lemma_silent_more(s, 4);
    let s5 = after_steps(cpu_steps(), s, 5);
    // sub rsp, 128
    assert(code[s.rip + 10] == 0x48 && code[s.rip + 11] == 0x81 && code[s.rip + 12] == 0xec
        && code[s.rip + 13] == 0x80);
    assert(code[s.rip + 14] == 0x00 && code[s.rip + 15] == 0x00 && code[s.rip + 16] == 0x00);
    assert(decode(code, s5.rip) == Some((Ins::SubRsp128, 7int)));
    lemma_silent_more(s, 5);
    let s6 = after_steps(cpu_steps(), s, 6);
    // movabs rax, target
    assert(code[s.rip + 17] == 0x48 && code[s.rip + 18] == 0xb8);
    assert(decode(code, s6.rip) == Some((Ins::Movabs(Reg::Rax, target as int), 10int)));
    lemma_silent_more(s, 6);
    assert(after_steps(cpu_steps(), s, 7) =~= before_call(s, target));
}

/// Whether the stack holds from `from` upwards what it held before.
pub open spec fn stack_kept(before: Map<int, Word>, after: Map<int, Word>, from: int) -> bool {
    forall|addr: int|
        addr >= from ==> #[trigger] after.dom().contains(addr) == before.dom().contains(addr) && (
        after.dom().contains(addr) ==> after[addr] == before[addr])
}

/// The processor when the callee of a call sequence has returned `result`,
/// with the tape asked `asked` times by then.
pub open spec fn after_call(s: Cpu, target: usize, asked: nat, result: Word) -> Cpu {
    returned(Cpu { asked, ..before_call(s, target) }, result, 2)
}

/// The processor behind a call sequence: the working registers and the
/// stack pointer are as before the sequence, `rax` holds what the callee
/// returned, and what stood on the stack before the sequence still does.
pub open spec fn finished_call(s: Cpu, target: usize, asked: nat, result: Word) -> Cpu {
    Cpu {
        rip: s.rip + 35,
        rax: result,
        rdi: Word::Junk,
        rsi: Word::Junk,
        stack: after_call(s, target, asked, result).stack,
        asked,
        ..s
    }
}

/// The four instructions behind the `call` of a call sequence report
/// nothing and lead to the state behind the sequence.
pub proof fn lemma_call_behind(s: Cpu, target: usize, asked: nat, result: Word)
    requires
        placed(s.code, s.rip + 27, call_tail()),
    ensures
        all_silent(cpu_steps(), after_call(s, target, asked, result), 4),
        after_steps(cpu_steps(), after_call(s, target, asked, result), 4) == finished_call(
            s,
            target,
            asked,
            result,
        ),
        stack_kept(s.stack, finished_call(s, target, asked, result).stack, s.rsp),
{
    reveal(decode);
    let code = s.code;
    let tail = call_tail();
    let c = after_call(s, target, asked, result);
    let at = s.rip + 27;
    assert(tail.len() == 8);
    assert(tail[2] == 0x48 && tail[3] == 0x89 && tail[4] == 0xec);
    assert(tail[5] == 0x5d && tail[6] == 0x59 && tail[7] == 0x5a);
    assert(code[at + 2] == 0x48 && code[at + 3] == 0x89 && code[at + 4] == 0xec);
    assert(code[at + 5] == 0x5d && code[at + 6] == 0x59 && code[at + 7] == 0x5a);
    assert(call_rsp(s.rsp) <= s.rsp - 24 - 128);
    assert(c.stack.dom().contains(s.rsp - 24) && c.stack[s.rsp - 24] == s.rbp);
    assert(c.stack.dom().contains(s.rsp - 16) && c.stack[s.rsp - 16] == s.rcx);
    assert(c.stack.dom().contains(s.rsp - 8) && c.stack[s.rsp - 8] == s.rdx);
    assert(all_silent(cpu_steps(), c, 0));
    assert(after_steps(cpu_steps(), c, 0) == c);
    // mov rsp, rbp
    assert(c.rip == at + 2);
    assert(decode(code, c.rip) == Some((Ins::MovRspRbp, 3int)));
    lemma_silent_more(c, 0);
    let c1 = after_steps(cpu_steps(), c, 1);
    // pop rbp
    assert(decode(code, c1.rip) == Some((Ins::Pop(Reg::Rbp), 1int)));
    lemma_silent_more(c, 1);
    let c2 = after_steps(cpu_steps(), c, 2);
    // pop rcx
    assert(decode(code, c2.rip) == Some((Ins::Pop(Reg::Rcx), 1int)));
    lemma_silent_more(c, 2);
    let c3 = after_steps(cpu_steps(), c, 3);
    // pop rdx
    assert(decode(code, c3.rip) == Some((Ins::Pop(Reg::Rdx), 1int)));
    lemma_silent_more(c, 3);
    assert(after_steps(cpu_steps(), c, 4) =~= finished_call(s, target, asked, result));
    let kept = finished_call(s, target, asked, result).stack;
    assert forall|addr: int| addr >= s.rsp implies #[trigger] kept.dom().contains(addr)
        == s.stack.dom().contains(addr) && (kept.dom().contains(addr) ==> kept[addr]
        == s.stack[addr]) by {}
}

/// The `call` of a call sequence stands behind its first seven
/// instructions, with the stack aligned.
pub proof fn lemma_call_at(s: Cpu, target: usize)
    requires
        placed(s.code, s.rip + 27, call_tail()),
    ensures
        decode(s.code, before_call(s, target).rip) == Some((Ins::CallRax, 2int)),
        before_call(s, target).rsp % 16 == 0,
{
    reveal(decode);
    let tail = call_tail();
    assert(tail[0] == 0xff && tail[1] == 0xd0);
    assert(s.code[s.rip + 27 + 0] == 0xff && s.code[s.rip + 27 + 1] == 0xd0);
}

/// The length of what generated code starts with.
pub open spec fn prologue_len() -> int {
    62
}

/// Whether the setting is one that code can be generated for: the tape's
/// address has eight bytes, and the three functions have three addresses.
pub open spec fn setting_ok(e: Setting) -> bool {
    &&& e.addr.len() == 8
    &&& e.callbacks.get_ref != e.callbacks.fetch_u8
    &&& e.callbacks.get_ref != e.callbacks.print_u8
    &&& e.callbacks.fetch_u8 != e.callbacks.print_u8
}

/// The code of a program is what it starts with, the code of its operations
/// and what it ends with, each at its place.
pub proof fn lemma_program_layout<T: BfMemory>(e: Setting, ops: Seq<Instr>)
    requires
        setting_ok(e),
    ensures
        ({
            let code = program_code::<T>(ops, e.addr, e.callbacks);
            let body = emit_ops::<T>(ops, e.addr, e.callbacks);
            &&& prologue(e.addr, e.callbacks).len() == prologue_len()
            &&& code.len() == prologue_len() + body.len() + 3
            &&& placed(code, 0, prologue(e.addr, e.callbacks))
            &&& code.subrange(prologue_len(), prologue_len() + body.len()) == body
            &&& placed(code, prologue_len() + body.len(), epilogue())
        }),
{
    let code = program_code::<T>(ops, e.addr, e.callbacks);
    let body = emit_ops::<T>(ops, e.addr, e.callbacks);
    let head = prologue(e.addr, e.callbacks);
    lemma_le_bytes_len(0, 8);
    lemma_le_bytes_len(e.callbacks.get_ref as nat, 8);
    assert(fn_call(e.callbacks.get_ref).len() == 35);
    assert(head.len() == 62);
    assert(epilogue().len() == 3);
    assert(code.subrange(0, 62) =~= head);
    lemma_placed(code, 0, head);
    assert(code.subrange(62, 62 + body.len() as int) =~= body);
    assert(code.subrange(62 + body.len() as int, 62 + body.len() as int + 3) =~= epilogue());
    lemma_placed(code, 62 + body.len() as int, epilogue());
}

/// Where the bytes of a stretch of a stretch of the code stand.
pub proof fn lemma_placed_within(code: Seq<u8>, at: int, outer: Seq<u8>, from: int, bytes: Seq<u8>)
    requires
        0 <= at,
        at + outer.len() <= code.len(),
        code.subrange(at, at + outer.len()) == outer,
        0 <= from,
        from + bytes.len() <= outer.len(),
        outer.subrange(from, from + bytes.len()) == bytes,
    ensures
        placed(code, at + from, bytes),
{
    assert forall|i: int| 0 <= i < bytes.len() implies code[at + from + i] == #[trigger] bytes[i] by {
        assert(outer.subrange(from, from + bytes.len())[i] == outer[from + i]);
        assert(code.subrange(at, at + outer.len())[from + i] == code[at + from + i]);
    }
}

/// The code of the operation at a place stands in the program's code at the
/// place's offset, and the code of the next place begins behind it; the
/// code of a loop's body begins behind the loop's head.
pub proof fn lemma_op_placed<T: BfMemory>(e: Setting, ops: Seq<Instr>, control: Seq<int>)
    requires
        setting_ok(e),
        control.len() > 0,
        control_valid(ops, control),
        control.last() < block_at(ops, control).len(),
    ensures
        ({
            let code = program_code::<T>(ops, e.addr, e.callbacks);
            let instr = block_at(ops, control)[control.last()];
            let here = prologue_len() + code_offset::<T>(ops, control, e.addr, e.callbacks);
            let bytes = emit_instr::<T>(instr, e.addr, e.callbacks);
            &&& placed(code, here, bytes)
            &&& prologue_len() + code_offset::<T>(ops, advanced(control), e.addr, e.callbacks)
                == here + bytes.len()
            &&& instr matches Instr::Loop(body) ==> prologue_len() + code_offset::<T>(
                ops,
                control.push(0int),
                e.addr,
                e.callbacks,
            ) == here + LOOP_HEAD_SIZE && bytes.len() == LOOP_HEAD_SIZE + emit_ops::<T>(
                body,
                e.addr,
                e.callbacks,
            ).len() + LOOP_TAIL_SIZE
        }),
{
    let code = program_code::<T>(ops, e.addr, e.callbacks);
    let whole = emit_ops::<T>(ops, e.addr, e.callbacks);
    let block = block_at(ops, control);
    let k = control.last();
    let instr = block[k];
    let bytes = emit_instr::<T>(instr, e.addr, e.callbacks);
    let block_code = emit_ops::<T>(block, e.addr, e.callbacks);
    let base = block_offset::<T>(ops, control, e.addr, e.callbacks);
    let before = emit_ops::<T>(block.take(k), e.addr, e.callbacks);
    lemma_control_last_in_block(ops, control);
    lemma_program_layout::<T>(e, ops);
    lemma_code_window::<T>(ops, control, e.addr, e.callbacks);
    lemma_emit_ops_split::<T>(block, k, e.addr, e.callbacks);
    let next = advanced(control);
    lemma_control_replace_last(ops, control, k + 1);
    lemma_code_window::<T>(ops, next, e.addr, e.callbacks);
    assert(next.drop_last() =~= control.drop_last());
    assert(block_code.subrange(before.len() as int, before.len() as int + bytes.len() as int)
        =~= bytes);
    lemma_placed_within(whole, base, block_code, before.len() as int, bytes);
    lemma_placed_subrange(whole, base + before.len(), bytes);
    lemma_placed_within(code, prologue_len(), whole, base + before.len(), bytes);
    match instr {
        Instr::Loop(body) => {
            lemma_control_enter(ops, control, body);
            let inside = control.push(0int);
            lemma_code_window::<T>(ops, inside, e.addr, e.callbacks);
            assert(inside.drop_last() =~= control);
            assert(inside.drop_last().push(0int) =~= inside);
            assert(body.take(0) =~= Seq::<Instr>::empty());
            lemma_le_bytes_len(
                twos_complement_32(
                    emit_ops::<T>(body, e.addr, e.callbacks).len() + LOOP_TAIL_SIZE,
                ),
                4,
            );
            lemma_le_bytes_len(
                twos_complement_32(
                    -(emit_ops::<T>(body, e.addr, e.callbacks).len() + LOOP_TAIL_SIZE
                        + LOOP_HEAD_SIZE),
                ),
                4,
            );
        },
        _ => {},
    }
}

/// At the end of the program's own sequence stands what the code ends with;
/// at the end of a loop's body stands the loop's tail, whose jump leads to
/// the loop's head, and the head's jump leads behind the tail.
pub proof fn lemma_end_placed<T: BfMemory>(e: Setting, ops: Seq<Instr>, control: Seq<int>)
    requires
        setting_ok(e),
        control.len() > 0,
        control_valid(ops, control),
        control.last() == block_at(ops, control).len(),
    ensures
        ({
            let code = program_code::<T>(ops, e.addr, e.callbacks);
            let here = prologue_len() + code_offset::<T>(ops, control, e.addr, e.callbacks);
            let size = emit_ops::<T>(block_at(ops, control), e.addr, e.callbacks).len() as int;
            &&& control.len() == 1 ==> placed(code, here, epilogue())
            &&& control.len() > 1 ==> {
                let outer = control.drop_last();
                let head = prologue_len() + code_offset::<T>(ops, outer, e.addr, e.callbacks);
                &&& placed(code, here, loop_tail(-(size + LOOP_TAIL_SIZE + LOOP_HEAD_SIZE)))
                &&& placed(code, head, loop_head(size + LOOP_TAIL_SIZE))
                &&& here == head + LOOP_HEAD_SIZE + size
                &&& prologue_len() + code_offset::<T>(
                    ops,
                    outer.push(0int),
                    e.addr,
                    e.callbacks,
                ) == head + LOOP_HEAD_SIZE
                &&& prologue_len() + code_offset::<T>(ops, advanced(outer), e.addr, e.callbacks)
                    == here + LOOP_TAIL_SIZE
            }
        }),
{
    let code = program_code::<T>(ops, e.addr, e.callbacks);
    let whole = emit_ops::<T>(ops, e.addr, e.callbacks);
    let block = block_at(ops, control);
    let block_code = emit_ops::<T>(block, e.addr, e.callbacks);
    let base = block_offset::<T>(ops, control, e.addr, e.callbacks);
    lemma_program_layout::<T>(e, ops);
    lemma_code_window::<T>(ops, control, e.addr, e.callbacks);
    assert(block.take(control.last()) =~= block);
    if control.len() == 1 {
        assert(control.drop_last().push(0int) =~= seq![0int]);
        assert(block == ops);
        assert(ops.take(0) =~= Seq::<Instr>::empty());
    } else {
        let outer = control.drop_last();
        let size = block_code.len() as int;
        let tail = loop_tail(-(size + LOOP_TAIL_SIZE + LOOP_HEAD_SIZE));
        let head = loop_head(size + LOOP_TAIL_SIZE);
        lemma_le_bytes_len(twos_complement_32(size + LOOP_TAIL_SIZE), 4);
        lemma_le_bytes_len(twos_complement_32(-(size + LOOP_TAIL_SIZE + LOOP_HEAD_SIZE)), 4);
        lemma_placed(whole, base + size, tail);
        lemma_placed(whole, base - 9, head);
        lemma_placed_subrange(whole, base + size, tail);
        lemma_placed_subrange(whole, base - 9, head);
        lemma_placed_within(code, prologue_len(), whole, base + size, tail);
        lemma_placed_within(code, prologue_len(), whole, base - 9, head);
        lemma_control_leave(ops, control);
        lemma_op_placed::<T>(e, ops, outer);
    }
}

/// Whether the processor stands where the interpreter stands: it runs the
/// code of the interpreter's program on the same tape, its stack is as on
/// entry, and, once the interpreter has done its first step, it stands at
/// the code of the interpreter's place with the held value in `dl`, the
/// address of the current cell in `rax` and, on a tape that grows, the
/// cursor in `ecx`.
pub open spec fn at_boundary<T: BfMemory>(e: Setting, a: OptState, b: Cpu) -> bool {
    &&& setting_ok(e)
    &&& tape_kind::<T>(e.grows)
    &&& ops_jumps_fit::<T>(a.ops, e.addr, e.callbacks)
    &&& b.code == program_code::<T>(a.ops, e.addr, e.callbacks)
    &&& b.callbacks == e.callbacks
    &&& b.tape_addr == le_value(e.addr)
    &&& b.grows == e.grows
    &&& b.reach == a.reach
    &&& b.cells == a.cells
    &&& tape_is_total(a.cells)
    &&& !e.grows ==> forall|index: int| #[trigger]
        a.reach.contains(index) ==> -0x4000_0000 <= index < 0x4000_0000
    &&& b.rsp == b.entry_rsp
    &&& if a.control.len() == 0 {
        b.rip == 0 && a.mem_index == 0
    } else {
        &&& control_valid(a.ops, a.control)
        &&& b.rip == prologue_len() + code_offset::<T>(a.ops, a.control, e.addr, e.callbacks)
        &&& b.rdx == Word::Low8(a.cur_pos_value)
        &&& b.rax == Word::Cell(a.mem_index as int, b.asked)
        &&& a.reach.contains(a.mem_index as int)
        &&& e.grows ==> b.rcx == Word::Num(twos_complement_32(a.mem_index as int) as int)
    }
}

/// [`at_boundary`] as a function.
pub open spec fn boundary<T: BfMemory>(e: Setting) -> spec_fn(OptState, Cpu) -> bool {
    |a: OptState, b: Cpu| at_boundary::<T>(e, a, b)
}

/// How many instructions the processor runs before the one that reports
/// what the interpreter's step reports.
pub open spec fn steps_before(e: Setting) -> spec_fn(OptState) -> nat {
    |a: OptState|
        if a.control.len() == 0 {
            if a.reach.contains(0) {
                15nat
            } else {
                9nat
            }
        } else {
            let block = block_at(a.ops, a.control);
            let at = a.control.last();
            if at >= block.len() {
                if a.control.len() == 1 {
                    1nat
                } else {
                    2nat
                }
            } else {
                match block[at] {
                    Instr::Mod(_) => 0nat,
                    Instr::SetValue(_) => 0nat,
                    Instr::Loop(_) => 1nat,
                    Instr::Move(delta) => if !e.grows {
                        2nat
                    } else if a.reach.contains(a.mem_index.wrapping_add(delta) as int) {
                        16nat
                    } else {
                        11nat
                    },
                    Instr::GetInput => 8nat,
                    Instr::PrintOutput => 9nat,
                }
            }
        }
}

/// How many instructions the processor runs behind the one that reports
/// what the interpreter's step reports.
pub open spec fn steps_behind() -> spec_fn(OptState) -> nat {
    |a: OptState|
        if a.control.len() == 0 {
            0nat
        } else {
            let block = block_at(a.ops, a.control);
            let at = a.control.last();
            if 0 <= at < block.len() {
                match block[at] {
                    Instr::GetInput => 6nat,
                    Instr::PrintOutput => 5nat,
                    _ => 0nat,
                }
            } else {
                0nat
            }
        }
}

/// Where the jumps of a program fit, those of the operation at every place
/// of it fit.
pub proof fn lemma_jumps_fit_at<T: BfMemory>(
    ops: Seq<Instr>,
    control: Seq<int>,
    addr: Seq<u8>,
    callbacks: Callbacks,
)
    requires
        ops_jumps_fit::<T>(ops, addr, callbacks),
        control.len() > 0,
        control_valid(ops, control),
        control.last() < block_at(ops, control).len(),
    ensures
        instr_jumps_fit::<T>(block_at(ops, control)[control.last()], addr, callbacks),
    decreases control.len(),
{
    let at = control[0];
    lemma_control_last_in_block(ops, control);
    lemma_jumps_fit_prefix::<T>(ops, addr, callbacks, at + 1);
    assert(ops.take(at + 1).last() == ops[at]);
    assert(ops.take(at + 1).len() > 0);
    assert(instr_jumps_fit::<T>(ops[at], addr, callbacks));
    if control.len() > 1 {
        match ops[at] {
            Instr::Loop(body) => {
                lemma_jumps_fit_at::<T>(body, control.drop_first(), addr, callbacks);
            },
            _ => {},
        }
    }
}

/// A single instruction that reports what the interpreter's step reports.
proof fn lemma_stretch_of_one<T: BfMemory>(e: Setting, a: OptState, b: Cpu)
    requires
        steps_before(e)(a) == 0,
        steps_behind()(a) == 0,
        cpu_next(b, None).1 == opt_next(a, None).1,
        opt_next(a, None).1 == Step::More,
        at_boundary::<T>(e, opt_next(a, None).0, cpu_next(b, None).0),
    ensures
        stretch_matches(opt_steps(), cpu_steps(), boundary::<T>(e), steps_before(e), steps_behind(), a, b),
{
    let b1 = cpu_next(b, None).0;
    assert(all_silent(cpu_steps(), b, 0));
    assert(after_steps(cpu_steps(), b, 0) == b);
    assert(all_silent(cpu_steps(), b1, 0));
    assert(after_steps(cpu_steps(), b1, 0) == b1);
    assert(holds(boundary::<T>(e), opt_next(a, None).0, b1));
}

/// A stretch of instructions that report nothing and one that reports what
/// the interpreter's step reports, with nothing behind it.
proof fn lemma_stretch_to_event<T: BfMemory>(e: Setting, a: OptState, b: Cpu, count: nat)
    requires
        steps_before(e)(a) == count,
        steps_behind()(a) == 0,
        all_silent(cpu_steps(), b, count),
        cpu_next(after_steps(cpu_steps(), b, count), None).1 == opt_next(a, None).1,
        opt_next(a, None).1 != Step::Input,
        !(opt_next(a, None).1 is Output),
        opt_next(a, None).1 == Step::More ==> at_boundary::<T>(
            e,
            opt_next(a, None).0,
            cpu_next(after_steps(cpu_steps(), b, count), None).0,
        ),
    ensures
        stretch_matches(opt_steps(), cpu_steps(), boundary::<T>(e), steps_before(e), steps_behind(), a, b),
{
    let at = after_steps(cpu_steps(), b, count);
    let b1 = cpu_next(at, None).0;
    assert(all_silent(cpu_steps(), b1, 0));
    assert(after_steps(cpu_steps(), b1, 0) == b1);
    if opt_next(a, None).1 == Step::More {
        assert(holds(boundary::<T>(e), opt_next(a, None).0, b1));
    }
}

/// The code of `Mod` and of `SetValue` is one instruction that does to `dl`
/// what the operation does to the held value.
proof fn lemma_value_stretch<T: BfMemory>(e: Setting, a: OptState, b: Cpu)
    requires
        at_boundary::<T>(e, a, b),
        a.control.len() > 0,
        a.control.last() < block_at(a.ops, a.control).len(),
        block_at(a.ops, a.control)[a.control.last()] is Mod || block_at(
            a.ops,
            a.control,
        )[a.control.last()] is SetValue,
    ensures
        stretch_matches(opt_steps(), cpu_steps(), boundary::<T>(e), steps_before(e), steps_behind(), a, b),
{
    let instr = block_at(a.ops, a.control)[a.control.last()];
    let bytes = emit_instr::<T>(instr, e.addr, e.callbacks);
    lemma_control_last_in_block(a.ops, a.control);
    lemma_op_placed::<T>(e, a.ops, a.control);
    lemma_control_replace_last(a.ops, a.control, a.control.last() + 1);
    match instr {
        Instr::Mod(value) => {
            lemma_value_decoded(b.code, b.rip, 0x80, 0xc2, twos_complement_8(value));
        },
        Instr::SetValue(value) => {
            lemma_value_decoded(b.code, b.rip, 0xb2, value, 0);
        },
        _ => {},
    }
    lemma_stretch_of_one::<T>(e, a, b);
}

/// What the head of a loop holds: the comparison of `dl` with 0 and the
/// jump over the body and the tail.
proof fn lemma_loop_head_decoded(code: Seq<u8>, at: int, size: int)
    requires
        placed(code, at, loop_head(size + LOOP_TAIL_SIZE)),
        0 <= size <= MAX_LOOP_BODY,
    ensures
        decode(code, at) == Some((Ins::CmpDl(0), 3int)),
        decode(code, at + 3) == Some((Ins::Je(size + LOOP_TAIL_SIZE), 6int)),
{
    reveal(decode);
    let forward = size + LOOP_TAIL_SIZE;
    let head = loop_head(forward);
    let start = seq![0x80u8, 0xfa, 0x00, 0x0f, 0x84];
    lemma_le_bytes_len(twos_complement_32(forward), 4);
    lemma_placed_parts(code, at, start, imm32(forward));
    lemma_imm32(code, at + 5, forward);
    assert(start[0] == 0x80 && start[1] == 0xfa && start[2] == 0x00 && start[3] == 0x0f
        && start[4] == 0x84);
    assert(code[at + 0] == 0x80 && code[at + 1] == 0xfa && code[at + 2] == 0x00);
    assert(code[at + 3] == 0x0f && code[at + 4] == 0x84);
}

/// At a loop the processor compares `dl` with 0 and jumps over the loop or
/// goes on into its body, as the interpreter passes or enters the loop.
proof fn lemma_loop_stretch<T: BfMemory>(e: Setting, a: OptState, b: Cpu)
    requires
        at_boundary::<T>(e, a, b),
        a.control.len() > 0,
        a.control.last() < block_at(a.ops, a.control).len(),
        block_at(a.ops, a.control)[a.control.last()] is Loop,
    ensures
        stretch_matches(opt_steps(), cpu_steps(), boundary::<T>(e), steps_before(e), steps_behind(), a, b),
{
    let instr = block_at(a.ops, a.control)[a.control.last()];
    let body = instr->Loop_0;
    let bytes = emit_instr::<T>(instr, e.addr, e.callbacks);
    let inside = emit_ops::<T>(body, e.addr, e.callbacks);
    lemma_control_last_in_block(a.ops, a.control);
    lemma_op_placed::<T>(e, a.ops, a.control);
    lemma_control_replace_last(a.ops, a.control, a.control.last() + 1);
    lemma_control_enter(a.ops, a.control, body);
    lemma_jumps_fit_at::<T>(a.ops, a.control, e.addr, e.callbacks);
    let head = loop_head(inside.len() + LOOP_TAIL_SIZE);
    lemma_placed_parts(
        b.code,
        b.rip,
        head + inside,
        loop_tail(-(inside.len() + LOOP_TAIL_SIZE + LOOP_HEAD_SIZE)),
    );
    lemma_placed_parts(b.code, b.rip, head, inside);
    lemma_loop_head_decoded(b.code, b.rip, inside.len() as int);
    assert(all_silent(cpu_steps(), b, 0));
    assert(after_steps(cpu_steps(), b, 0) == b);
    lemma_silent_more(b, 0);
    lemma_stretch_to_event::<T>(e, a, b, 1);
}

/// What the tail of a loop holds: the jump back over the body and the head.
proof fn lemma_loop_tail_decoded(code: Seq<u8>, at: int, size: int)
    requires
        placed(code, at, loop_tail(-(size + LOOP_TAIL_SIZE + LOOP_HEAD_SIZE))),
        0 <= size <= MAX_LOOP_BODY,
    ensures
        decode(code, at) == Some((Ins::Jmp(-(size + LOOP_TAIL_SIZE + LOOP_HEAD_SIZE)), 5int)),
{
    reveal(decode);
    let backward = -(size + LOOP_TAIL_SIZE + LOOP_HEAD_SIZE);
    lemma_le_bytes_len(twos_complement_32(backward), 4);
    lemma_placed_parts(code, at, seq![0xe9u8], imm32(backward));
    lemma_imm32(code, at + 1, backward);
    assert(seq![0xe9u8][0] == 0xe9);
    assert(code[at + 0] == 0xe9);
}

/// What generated code ends with: the write of `dl` and the return.
proof fn lemma_epilogue_decoded(code: Seq<u8>, at: int)
    requires
        placed(code, at, epilogue()),
    ensures
        decode(code, at) == Some((Ins::StoreDl, 2int)),
        decode(code, at + 2) == Some((Ins::Ret, 1int)),
{
    reveal(decode);
    let end = epilogue();
    assert(end =~= seq![0x88u8, 0x10, 0xc3]);
    assert(end[0] == 0x88 && end[1] == 0x10 && end[2] == 0xc3);
    assert(code[at + 0] == 0x88 && code[at + 1] == 0x10 && code[at + 2] == 0xc3);
}

/// What the code of `Mod` and of `SetValue` holds: one instruction on `dl`.
proof fn lemma_value_decoded(code: Seq<u8>, at: int, first: u8, second: u8, third: u8)
    requires
        placed(code, at, seq![first, second, third]) || placed(code, at, seq![first, second]),
    ensures
        first == 0x80 && second == 0xc2 && placed(code, at, seq![first, second, third]) ==> decode(
            code,
            at,
        ) == Some((Ins::AddDl(third), 3int)),
        first == 0xb2 ==> decode(code, at) == Some((Ins::MovDl(second), 2int)),
{
    reveal(decode);
    if placed(code, at, seq![first, second, third]) {
        let bytes = seq![first, second, third];
        assert(bytes[0] == first && bytes[1] == second && bytes[2] == third);
        assert(code[at + 0] == first && code[at + 1] == second && code[at + 2] == third);
    } else {
        let bytes = seq![first, second];
        assert(bytes[0] == first && bytes[1] == second);
        assert(code[at + 0] == first && code[at + 1] == second);
    }
}

/// At the end of a loop's body the processor jumps back to the loop's head,
/// compares `dl` with 0 and jumps behind the loop or goes on into the body,
/// as the interpreter leaves the loop or goes through it once more.
proof fn lemma_body_end_stretch<T: BfMemory>(e: Setting, a: OptState, b: Cpu)
    requires
        at_boundary::<T>(e, a, b),
        a.control.len() > 1,
        a.control.last() >= block_at(a.ops, a.control).len(),
    ensures
        stretch_matches(opt_steps(), cpu_steps(), boundary::<T>(e), steps_before(e), steps_behind(), a, b),
{
    let outer = a.control.drop_last();
    let block = block_at(a.ops, a.control);
    let size = emit_ops::<T>(block, e.addr, e.callbacks).len() as int;
    lemma_control_last_in_block(a.ops, a.control);
    lemma_end_placed::<T>(e, a.ops, a.control);
    lemma_control_leave(a.ops, a.control);
    lemma_control_replace_last(a.ops, outer, outer.last() + 1);
    lemma_control_replace_last(a.ops, a.control, 0);
    lemma_jumps_fit_at::<T>(a.ops, outer, e.addr, e.callbacks);
    assert(a.control.drop_last().push(0int) =~= outer.push(0int));
    lemma_loop_tail_decoded(b.code, b.rip, size);
    let head = b.rip - size - LOOP_HEAD_SIZE;
    lemma_loop_head_decoded(b.code, head, size);
    assert(all_silent(cpu_steps(), b, 0));
    assert(after_steps(cpu_steps(), b, 0) == b);
    lemma_silent_more(b, 0);
    lemma_silent_more(b, 1);
    lemma_stretch_to_event::<T>(e, a, b, 2);
}

/// Whether the processor has left the tape as the interpreter has left it:
/// the memory holds the interpreter's tape, `rax` the address of the cell
/// under the cursor, and the stack pointer is where it was at the start.
pub open spec fn code_left_tape(a: OptState, b: Cpu) -> bool {
    &&& b.cells == shown_tape(a)
    &&& b.rax == Word::Cell(a.mem_index as int, b.asked)
    &&& b.rsp == b.entry_rsp
}

/// [`code_left_tape`] as a function.
pub open spec fn code_left_tape_relation() -> spec_fn(OptState, Cpu) -> bool {
    |a: OptState, b: Cpu| code_left_tape(a, b)
}

/// At the end of the program the processor writes `dl` back to the current
/// cell and returns, as the interpreter ends, and has then left the tape as
/// the interpreter has.
proof fn lemma_program_end_stretch<T: BfMemory>(e: Setting, a: OptState, b: Cpu)
    requires
        at_boundary::<T>(e, a, b),
        a.control.len() == 1,
        a.control.last() >= block_at(a.ops, a.control).len(),
    ensures
        stretch_matches(opt_steps(), cpu_steps(), boundary::<T>(e), steps_before(e), steps_behind(), a, b),
        steps_before(e)(a) == 1,
        opt_next(a, None).1 == Step::Done,
        code_left_tape(opt_next(a, None).0, cpu_next(after_steps(cpu_steps(), b, 1), None).0),
{
    lemma_control_last_in_block(a.ops, a.control);
    lemma_end_placed::<T>(e, a.ops, a.control);
    lemma_epilogue_decoded(b.code, b.rip);
    assert(all_silent(cpu_steps(), b, 0));
    assert(after_steps(cpu_steps(), b, 0) == b);
    lemma_silent_more(b, 0);
    lemma_stretch_to_event::<T>(e, a, b, 1);
    let a1 = opt_next(a, None).0;
    let b1 = cpu_next(after_steps(cpu_steps(), b, 1), None).0;
    assert(b1.cells =~= shown_tape(a1));
}

/// Where the program ends, the processor has left the tape as the
/// interpreter has.
pub proof fn lemma_boundary_ends<T: BfMemory>(e: Setting)
    ensures
        ends_stretched(
            opt_steps(),
            cpu_steps(),
            boundary::<T>(e),
            steps_before(e),
            code_left_tape_relation(),
        ),
{
    assert forall|a: OptState, b: Cpu| #[trigger]
        holds(boundary::<T>(e), a, b) && opt_steps()(a, None).1 == Step::Done implies holds(
        code_left_tape_relation(),
        opt_steps()(a, None).0,
        cpu_steps()(after_steps(cpu_steps(), b, steps_before(e)(a)), None).0,
    ) by {
        assert(at_boundary::<T>(e, a, b));
        assert(opt_steps()(a, None) == opt_next(a, None));
        lemma_program_end_stretch::<T>(e, a, b);
        let at = after_steps(cpu_steps(), b, 1);
        assert(cpu_steps()(at, None) == cpu_next(at, None));
    }
}

/// What the code of a move on the fixed tape holds: the write of `dl`, the
/// change of the address, the load of `dl`.
proof fn lemma_fixed_move_decoded(code: Seq<u8>, at: int, delta: i32)
    requires
        placed(code, at, flush_cell() + fixed_move_ops(delta) + reload_cell()),
    ensures
        decode(code, at) == Some((Ins::StoreDl, 2int)),
        decode(code, at + 2) == Some((Ins::LeaRax(delta as int), 7int)),
        decode(code, at + 9) == Some((Ins::LoadDl, 2int)),
        (flush_cell() + fixed_move_ops(delta) + reload_cell()).len() == 11,
{
    reveal(decode);
    let lea = seq![0x48u8, 0x8d, 0x80];
    lemma_le_bytes_len(twos_complement_32(delta as int), 4);
    lemma_placed_parts(code, at, flush_cell() + fixed_move_ops(delta), reload_cell());
    lemma_placed_parts(code, at, flush_cell(), fixed_move_ops(delta));
    lemma_placed_parts(code, at + 2, lea, imm32(delta as int));
    lemma_imm32(code, at + 5, delta as int);
    assert(flush_cell()[0] == 0x88 && flush_cell()[1] == 0x10);
    assert(reload_cell()[0] == 0x8a && reload_cell()[1] == 0x10);
    assert(lea[0] == 0x48 && lea[1] == 0x8d && lea[2] == 0x80);
    assert(code[at + 0] == 0x88 && code[at + 1] == 0x10);
    assert(code[at + 2 + 0] == 0x48 && code[at + 2 + 1] == 0x8d && code[at + 2 + 2] == 0x80);
    assert(code[at + 9 + 0] == 0x8a && code[at + 9 + 1] == 0x10);
}

/// On a tape whose cells lie near cell 0, a cursor that a move takes out
/// of the 32-bit range is off the tape whether it wraps or not.
proof fn lemma_fixed_target(reach: Set<int>, index: i32, delta: i32)
    requires
        forall|other: int| #[trigger] reach.contains(other) ==> -0x4000_0000 <= other < 0x4000_0000,
        reach.contains(index as int),
    ensures
        reach.contains(index.wrapping_add(delta) as int) == reach.contains(index + delta),
        reach.contains(index + delta) ==> index.wrapping_add(delta) == index + delta,
{
}

/// On the fixed tape the processor writes `dl` back, moves the address and
/// loads `dl` from the new cell, as the interpreter moves the cursor.
#[verifier::rlimit(60)]
proof fn lemma_fixed_move_stretch<T: BfMemory>(e: Setting, a: OptState, b: Cpu)
    requires
        at_boundary::<T>(e, a, b),
        !e.grows,
        a.control.len() > 0,
        a.control.last() < block_at(a.ops, a.control).len(),
        block_at(a.ops, a.control)[a.control.last()] is Move,
    ensures
        stretch_matches(opt_steps(), cpu_steps(), boundary::<T>(e), steps_before(e), steps_behind(), a, b),
{
    let instr = block_at(a.ops, a.control)[a.control.last()];
    let delta = instr->Move_0;
    lemma_control_last_in_block(a.ops, a.control);
    lemma_op_placed::<T>(e, a.ops, a.control);
    lemma_control_replace_last(a.ops, a.control, a.control.last() + 1);
    assert(T::move_ops(e.addr, e.callbacks.get_ref, delta) == move_code(
        e.grows,
        e.addr,
        e.callbacks.get_ref,
        delta,
    ));
    lemma_fixed_move_decoded(b.code, b.rip, delta);
    lemma_fixed_target(a.reach, a.mem_index, delta);
    let index = a.mem_index as int;
    let flushed = a.cells.insert(index, a.cur_pos_value);
    let b1 = Cpu { rip: b.rip + 2, cells: flushed, ..b };
    assert(cpu_next(b, None) == (b1, Step::More));
    let b2 = Cpu { rip: b.rip + 9, rax: Word::Cell(index + delta, b.asked), ..b1 };
    assert(cpu_next(b1, None) == (b2, Step::More));
    assert(all_silent(cpu_steps(), b, 0));
    assert(after_steps(cpu_steps(), b, 0) == b);
    lemma_silent_more(b, 0);
    lemma_silent_more(b, 1);
    assert(after_steps(cpu_steps(), b, 2) == b2);
    let (a1, x) = opt_next(a, None);
    let (b3, y) = cpu_next(b2, None);
    assert(x == y);
    if x == Step::More {
        assert(b3 == Cpu { rip: b.rip + 11, rdx: Word::Low8(flushed[index + delta]), ..b2 });
        assert(at_boundary::<T>(e, a1, b3));
    }
    lemma_stretch_to_event::<T>(e, a, b, 2);
}

/// What the bytes of the short instructions hold.
proof fn lemma_short_decoded(code: Seq<u8>, at: int)
    requires
        0 <= at < code.len(),
    ensures
        code[at] == 0x50 ==> decode(code, at) == Some((Ins::Push(Reg::Rax), 1int)),
        code[at] == 0x58 ==> decode(code, at) == Some((Ins::Pop(Reg::Rax), 1int)),
        at + 1 < code.len() && code[at] == 0x88 && code[at + 1] == 0x10 ==> decode(code, at)
            == Some((Ins::StoreDl, 2int)),
        at + 1 < code.len() && code[at] == 0x8a && code[at + 1] == 0x10 ==> decode(code, at)
            == Some((Ins::LoadDl, 2int)),
        at + 1 < code.len() && code[at] == 0x88 && code[at + 1] == 0xc2 ==> decode(code, at)
            == Some((Ins::MovDlAl, 2int)),
        at + 1 < code.len() && code[at] == 0x89 && code[at + 1] == 0xce ==> decode(code, at)
            == Some((Ins::MovEsiEcx, 2int)),
        at + 2 < code.len() && code[at] == 0x40 && code[at + 1] == 0x88 && code[at + 2] == 0xd7
            ==> decode(code, at) == Some((Ins::MovDilDl, 3int)),
{
    reveal(decode);
}

/// What the bytes of the instructions with a number hold.
proof fn lemma_long_decoded(code: Seq<u8>, at: int)
    requires
        0 <= at,
    ensures
        at + 10 <= code.len() && code[at] == 0x48 && code[at + 1] == 0xbf ==> decode(code, at)
            == Some((Ins::Movabs(Reg::Rdi, imm(code, at + 2, 8)), 10int)),
        at + 10 <= code.len() && code[at] == 0x48 && code[at + 1] == 0xbe ==> decode(code, at)
            == Some((Ins::Movabs(Reg::Rsi, imm(code, at + 2, 8)), 10int)),
        at + 6 <= code.len() && code[at] == 0x81 && code[at + 1] == 0xc1 ==> decode(code, at)
            == Some((Ins::AddEcx(signed_32(imm(code, at + 2, 4) as nat)), 6int)),
        at + 5 <= code.len() && code[at] == 0xb9 ==> decode(code, at) == Some(
            (Ins::MovEcx(imm(code, at + 1, 4)), 5int),
        ),
{
    reveal(decode);
}

/// The seven instructions before the `call` of a call sequence report
/// nothing, and the `call` does what a call of the callee does.
proof fn lemma_call_event(s: Cpu, target: usize, input: Option<u8>)
    requires
        placed(s.code, s.rip, fn_call(target)),
    ensures
        all_silent(cpu_steps(), s, 7),
        after_steps(cpu_steps(), s, 7) == before_call(s, target),
        cpu_next(before_call(s, target), input) == call(before_call(s, target), input, 2),
        before_call(s, target).rsp % 16 == 0,
        placed(s.code, s.rip + 27, call_tail()),
{
    lemma_call_before(s, target);
    lemma_call_at(s, target);
}

/// The processor that has run `count` more instructions that report nothing.
proof fn lemma_silent_on(s: Cpu, count: nat, more: nat, then: Cpu)
    requires
        all_silent(cpu_steps(), s, count),
        all_silent(cpu_steps(), after_steps(cpu_steps(), s, count), more),
        after_steps(cpu_steps(), after_steps(cpu_steps(), s, count), more) == then,
    ensures
        all_silent(cpu_steps(), s, count + more),
        after_steps(cpu_steps(), s, count + more) == then,
{
    lemma_silent_steps_add(cpu_steps(), s, count, more);
}

/// One instruction that reports nothing, from a state that is known.
proof fn lemma_silent_one(s: Cpu, then: Cpu)
    requires
        cpu_next(s, None) == (then, Step::More),
    ensures
        all_silent(cpu_steps(), s, 1),
        after_steps(cpu_steps(), s, 1) == then,
{
    assert(all_silent(cpu_steps(), s, 0));
    assert(after_steps(cpu_steps(), s, 0) == s);
    lemma_silent_more(s, 0);
}

/// What the code of `PrintOutput` holds, and what the processor does with
/// it before the call: `rax` is saved and `dl` goes to `dil`.
proof fn lemma_print_before(b: Cpu, target: usize, value: u8)
    requires
        placed(b.code, b.rip, seq![0x50u8, 0x40, 0x88, 0xd7] + fn_call(target) + seq![0x58u8]),
        b.rdx == Word::Low8(value),
    ensures
        all_silent(cpu_steps(), b, 9),
        after_steps(cpu_steps(), b, 9) == before_call(print_ready(b, value), target),
        placed(b.code, b.rip + 4, fn_call(target)),
        b.code[b.rip + 39] == 0x58,
        b.rip + 40 <= b.code.len(),
        (seq![0x50u8, 0x40, 0x88, 0xd7] + fn_call(target) + seq![0x58u8]).len() == 40,
{
    let start = seq![0x50u8, 0x40, 0x88, 0xd7];
    let end = seq![0x58u8];
    lemma_le_bytes_len(target as nat, 8);
    assert(fn_call(target).len() == 35);
    lemma_placed_parts(b.code, b.rip, start + fn_call(target), end);
    lemma_placed_parts(b.code, b.rip, start, fn_call(target));
    assert(start[0] == 0x50 && start[1] == 0x40 && start[2] == 0x88 && start[3] == 0xd7);
    assert(end[0] == 0x58);
    assert(b.code[b.rip + 0] == 0x50 && b.code[b.rip + 1] == 0x40 && b.code[b.rip + 2] == 0x88
        && b.code[b.rip + 3] == 0xd7);
    assert(b.code[b.rip + 39 + 0] == 0x58);
    lemma_short_decoded(b.code, b.rip);
    lemma_short_decoded(b.code, b.rip + 1);
    let b1 = Cpu { rip: b.rip + 1, rsp: b.rsp - 8, stack: b.stack.insert(b.rsp - 8, b.rax), ..b };
    assert(cpu_next(b, None) == (b1, Step::More));
    lemma_silent_one(b, b1);
    let b2 = print_ready(b, value);
    assert(cpu_next(b1, None) == (b2, Step::More));
    lemma_silent_one(b1, b2);
    lemma_silent_on(b, 1, 1, b2);
    lemma_call_before(b2, target);
    lemma_silent_on(b, 2, 7, before_call(b2, target));
}

/// The processor before the call sequence of `PrintOutput`: `rax` is on the
/// stack and the byte is in `dil`.
pub open spec fn print_ready(b: Cpu, value: u8) -> Cpu {
    Cpu {
        rip: b.rip + 4,
        rsp: b.rsp - 8,
        stack: b.stack.insert(b.rsp - 8, b.rax),
        rdi: Word::Low8(value),
        ..b
    }
}

/// What the processor does behind the call of `PrintOutput`: the working
/// registers and `rax` are as before.
proof fn lemma_print_behind(b: Cpu, target: usize, value: u8)
    requires
        placed(b.code, b.rip + 4, fn_call(target)),
        0 <= b.rip,
        b.rip + 40 <= b.code.len(),
        b.code[b.rip + 39] == 0x58,
    ensures
        all_silent(cpu_steps(), after_call(print_ready(b, value), target, b.asked, Word::Junk), 5),
        after_steps(
            cpu_steps(),
            after_call(print_ready(b, value), target, b.asked, Word::Junk),
            5,
        ) == (Cpu {
            rip: b.rip + 40,
            rdi: Word::Junk,
            rsi: Word::Junk,
            stack: after_steps(
                cpu_steps(),
                after_call(print_ready(b, value), target, b.asked, Word::Junk),
                5,
            ).stack,
            ..b
        }),
{
    let ready = print_ready(b, value);
    let c = after_call(ready, target, b.asked, Word::Junk);
    lemma_call_before(ready, target);
    lemma_call_behind(ready, target, b.asked, Word::Junk);
    let done = finished_call(ready, target, b.asked, Word::Junk);
    lemma_short_decoded(b.code, b.rip + 39);
    assert(done.stack.dom().contains(b.rsp - 8) && done.stack[b.rsp - 8] == b.rax) by {
        assert(ready.stack.dom().contains(b.rsp - 8));
        assert(done.stack.dom().contains(b.rsp - 8) == ready.stack.dom().contains(b.rsp - 8));
    }
    let last = Cpu { rip: b.rip + 40, rsp: b.rsp, rax: b.rax, ..done };
    assert(cpu_next(done, None) == (last, Step::More));
    lemma_silent_one(done, last);
    lemma_silent_on(c, 4, 1, last);
    assert(last =~= (Cpu {
        rip: b.rip + 40,
        rdi: Word::Junk,
        rsi: Word::Junk,
        stack: last.stack,
        ..b
    }));
}

/// At `PrintOutput` the processor saves `rax`, calls the function that
/// writes with the held value, and restores what it saved, as the
/// interpreter reports the held value for writing.
proof fn lemma_print_stretch<T: BfMemory>(e: Setting, a: OptState, b: Cpu)
    requires
        at_boundary::<T>(e, a, b),
        a.control.len() > 0,
        a.control.last() < block_at(a.ops, a.control).len(),
        block_at(a.ops, a.control)[a.control.last()] is PrintOutput,
    ensures
        stretch_matches(opt_steps(), cpu_steps(), boundary::<T>(e), steps_before(e), steps_behind(), a, b),
{
    let target = e.callbacks.print_u8;
    let value = a.cur_pos_value;
    lemma_control_last_in_block(a.ops, a.control);
    lemma_op_placed::<T>(e, a.ops, a.control);
    lemma_control_replace_last(a.ops, a.control, a.control.last() + 1);
    lemma_print_before(b, target, value);
    let ready = print_ready(b, value);
    lemma_call_event(ready, target, None);
    lemma_print_behind(b, target, value);
    let at = before_call(ready, target);
    let (a1, x) = opt_next(a, None);
    let (b1, y) = cpu_next(at, None);
    assert(y == Step::Output(value));
    assert(b1 == after_call(ready, target, b.asked, Word::Junk));
    let last = after_steps(cpu_steps(), b1, 5);
    assert(at_boundary::<T>(e, a1, last));
    assert(holds(boundary::<T>(e), a1, last));
}

/// The processor before the call sequence of `GetInput`: `rax` is on the
/// stack.
pub open spec fn input_ready(b: Cpu) -> Cpu {
    Cpu { rip: b.rip + 1, rsp: b.rsp - 8, stack: b.stack.insert(b.rsp - 8, b.rax), ..b }
}

/// What the code of `GetInput` holds, and what the processor does with it
/// before the call: `rax` is saved.
proof fn lemma_input_before(b: Cpu, target: usize)
    requires
        placed(b.code, b.rip, seq![0x50u8] + fn_call(target) + seq![0x88u8, 0xc2, 0x58]),
    ensures
        all_silent(cpu_steps(), b, 8),
        after_steps(cpu_steps(), b, 8) == before_call(input_ready(b), target),
        placed(b.code, b.rip + 1, fn_call(target)),
        b.code[b.rip + 36] == 0x88 && b.code[b.rip + 37] == 0xc2 && b.code[b.rip + 38] == 0x58,
        b.rip + 39 <= b.code.len(),
        (seq![0x50u8] + fn_call(target) + seq![0x88u8, 0xc2, 0x58]).len() == 39,
{
    let start = seq![0x50u8];
    let end = seq![0x88u8, 0xc2, 0x58];
    lemma_le_bytes_len(target as nat, 8);
    assert(fn_call(target).len() == 35);
    lemma_placed_parts(b.code, b.rip, start + fn_call(target), end);
    lemma_placed_parts(b.code, b.rip, start, fn_call(target));
    assert(start[0] == 0x50);
    assert(end[0] == 0x88 && end[1] == 0xc2 && end[2] == 0x58);
    assert(b.code[b.rip + 0] == 0x50);
    assert(b.code[b.rip + 36 + 0] == 0x88 && b.code[b.rip + 36 + 1] == 0xc2 && b.code[b.rip + 36
        + 2] == 0x58);
    lemma_short_decoded(b.code, b.rip);
    let b1 = input_ready(b);
    assert(cpu_next(b, None) == (b1, Step::More));
    lemma_silent_one(b, b1);
    lemma_call_before(b1, target);
    lemma_silent_on(b, 1, 7, before_call(b1, target));
}

/// What the processor does behind the call of `GetInput`: the byte that was
/// read goes to `dl`, and the other working registers and `rax` are as
/// before.
proof fn lemma_input_behind(b: Cpu, target: usize, byte: u8)
    requires
        placed(b.code, b.rip + 1, fn_call(target)),
        0 <= b.rip,
        b.rip + 39 <= b.code.len(),
        b.code[b.rip + 36] == 0x88 && b.code[b.rip + 37] == 0xc2 && b.code[b.rip + 38] == 0x58,
    ensures
        all_silent(
            cpu_steps(),
            after_call(input_ready(b), target, b.asked, Word::Low8(byte)),
            6,
        ),
        after_steps(
            cpu_steps(),
            after_call(input_ready(b), target, b.asked, Word::Low8(byte)),
            6,
        ) == (Cpu {
            rip: b.rip + 39,
            rdx: Word::Low8(byte),
            rdi: Word::Junk,
            rsi: Word::Junk,
            stack: after_steps(
                cpu_steps(),
                after_call(input_ready(b), target, b.asked, Word::Low8(byte)),
                6,
            ).stack,
            ..b
        }),
{
    let ready = input_ready(b);
    let c = after_call(ready, target, b.asked, Word::Low8(byte));
    lemma_call_before(ready, target);
    lemma_call_behind(ready, target, b.asked, Word::Low8(byte));
    let done = finished_call(ready, target, b.asked, Word::Low8(byte));
    lemma_short_decoded(b.code, b.rip + 36);
    lemma_short_decoded(b.code, b.rip + 38);
    assert(done.stack.dom().contains(b.rsp - 8) && done.stack[b.rsp - 8] == b.rax) by {
        assert(ready.stack.dom().contains(b.rsp - 8));
        assert(done.stack.dom().contains(b.rsp - 8) == ready.stack.dom().contains(b.rsp - 8));
    }
    let moved = Cpu { rip: b.rip + 38, rdx: Word::Low8(byte), ..done };
    assert(cpu_next(done, None) == (moved, Step::More));
    lemma_silent_one(done, moved);
    lemma_silent_on(c, 4, 1, moved);
    let last = Cpu { rip: b.rip + 39, rsp: b.rsp, rax: b.rax, ..moved };
    assert(cpu_next(moved, None) == (last, Step::More));
    lemma_silent_one(moved, last);
    lemma_silent_on(c, 5, 1, last);
    assert(last =~= (Cpu {
        rip: b.rip + 39,
        rdx: Word::Low8(byte),
        rdi: Word::Junk,
        rsi: Word::Junk,
        stack: last.stack,
        ..b
    }));
}

/// At `GetInput` the processor saves `rax`, calls the function that reads,
/// takes the byte into `dl` and restores what it saved, as the interpreter
/// asks for a byte and holds it.
proof fn lemma_input_stretch<T: BfMemory>(e: Setting, a: OptState, b: Cpu)
    requires
        at_boundary::<T>(e, a, b),
        a.control.len() > 0,
        a.control.last() < block_at(a.ops, a.control).len(),
        block_at(a.ops, a.control)[a.control.last()] is GetInput,
    ensures
        stretch_matches(opt_steps(), cpu_steps(), boundary::<T>(e), steps_before(e), steps_behind(), a, b),
{
    let target = e.callbacks.fetch_u8;
    lemma_control_last_in_block(a.ops, a.control);
    lemma_op_placed::<T>(e, a.ops, a.control);
    lemma_control_replace_last(a.ops, a.control, a.control.last() + 1);
    lemma_input_before(b, target);
    let ready = input_ready(b);
    lemma_call_event(ready, target, None);
    let at = before_call(ready, target);
    let (a1, x) = opt_next(a, None);
    let (b1, y) = cpu_next(at, None);
    assert(y == Step::Input);
    assert(b1 == at);
    assert(a1 == a);
    assert forall|byte: u8| #[trigger]
        all_silent(cpu_steps(), fed(cpu_steps(), b1, byte), 6) && holds(
            boundary::<T>(e),
            fed(opt_steps(), a1, byte),
            after_steps(cpu_steps(), fed(cpu_steps(), b1, byte), 6),
        ) by {
        lemma_call_event(ready, target, Some(byte));
        lemma_input_behind(b, target, byte);
        let c = after_call(ready, target, b.asked, Word::Low8(byte));
        assert(fed(cpu_steps(), b1, byte) == c);
        let last = after_steps(cpu_steps(), c, 6);
        let a2 = opt_next(a, Some(byte)).0;
        assert(at_boundary::<T>(e, a2, last));
    }
}

/// The low 32 bits of a cursor that moved are the low 32 bits of the sum.
proof fn lemma_cursor_moved(index: i32, delta: i32)
    ensures
        (twos_complement_32(index as int) + delta) % 0x1_0000_0000 == twos_complement_32(
            index.wrapping_add(delta) as int,
        ),
        twos_complement_32(index.wrapping_add(delta) as int) % 0x1_0000_0000
            == twos_complement_32(index.wrapping_add(delta) as int),
        low_32(twos_complement_32(index.wrapping_add(delta) as int) as int) == index.wrapping_add(
            delta,
        ),
        low_32(0) == 0,
        twos_complement_32(0) == 0,
{
}

/// The processor before the call sequence of a move on a tape that grows:
/// `dl` is written back, the cursor in `ecx` has moved, and the tape and the
/// cursor are the arguments of the call.
pub open spec fn move_ready(b: Cpu, index: i32, value: u8, delta: i32) -> Cpu {
    let target = twos_complement_32(index.wrapping_add(delta) as int) as int;
    Cpu {
        rip: b.rip + 20,
        cells: b.cells.insert(index as int, value),
        rcx: Word::Num(target),
        rdi: Word::Num(b.tape_addr),
        rsi: Word::Num(target),
        ..b
    }
}

/// What the code of a move on a tape that grows holds, and what the
/// processor does with it before the call.
proof fn lemma_move_before(b: Cpu, addr: Seq<u8>, target: usize, index: i32, value: u8, delta: i32)
    requires
        placed(
            b.code,
            b.rip,
            flush_cell() + standard_move_ops(addr, target, delta) + reload_cell(),
        ),
        addr.len() == 8,
        b.tape_addr == le_value(addr),
        b.rax == Word::Cell(index as int, b.asked),
        b.rdx == Word::Low8(value),
        b.rcx == Word::Num(twos_complement_32(index as int) as int),
        b.reach.contains(index as int),
    ensures
        all_silent(cpu_steps(), b, 11),
        after_steps(cpu_steps(), b, 11) == before_call(
            move_ready(b, index, value, delta),
            target,
        ),
        placed(b.code, b.rip + 20, fn_call(target)),
        b.code[b.rip + 55] == 0x8a && b.code[b.rip + 56] == 0x10,
        b.rip + 57 <= b.code.len(),
        (flush_cell() + standard_move_ops(addr, target, delta) + reload_cell()).len() == 57,
{
    let add = seq![0x81u8, 0xc1];
    let movabs = seq![0x48u8, 0xbf];
    let mov = seq![0x89u8, 0xce];
    let number = imm32(delta as int);
    let fragment = standard_move_ops(addr, target, delta);
    lemma_le_bytes_len(target as nat, 8);
    lemma_le_bytes_len(twos_complement_32(delta as int), 4);
    assert(fn_call(target).len() == 35);
    assert(fragment == add + number + movabs + addr + mov + fn_call(target));
    assert(fragment.len() == 53);
    lemma_placed_parts(b.code, b.rip, flush_cell() + fragment, reload_cell());
    lemma_placed_parts(b.code, b.rip, flush_cell(), fragment);
    let at = b.rip + 2;
    lemma_placed_parts(b.code, at, add + number + movabs + addr + mov, fn_call(target));
    lemma_placed_parts(b.code, at, add + number + movabs + addr, mov);
    lemma_placed_parts(b.code, at, add + number + movabs, addr);
    lemma_placed_parts(b.code, at, add + number, movabs);
    lemma_placed_parts(b.code, at, add, number);
    lemma_imm32(b.code, at + 2, delta as int);
    lemma_placed_subrange(b.code, at + 8, addr);
    assert(flush_cell()[0] == 0x88 && flush_cell()[1] == 0x10);
    assert(reload_cell()[0] == 0x8a && reload_cell()[1] == 0x10);
    assert(add[0] == 0x81 && add[1] == 0xc1);
    assert(movabs[0] == 0x48 && movabs[1] == 0xbf);
    assert(mov[0] == 0x89 && mov[1] == 0xce);
    assert(b.code[b.rip + 0] == 0x88 && b.code[b.rip + 1] == 0x10);
    assert(b.code[at + 0] == 0x81 && b.code[at + 1] == 0xc1);
    assert(b.code[at + 6 + 0] == 0x48 && b.code[at + 6 + 1] == 0xbf);
    assert(b.code[at + 16 + 0] == 0x89 && b.code[at + 16 + 1] == 0xce);
    assert(b.code[b.rip + 55 + 0] == 0x8a && b.code[b.rip + 55 + 1] == 0x10);
    lemma_short_decoded(b.code, b.rip);
    lemma_long_decoded(b.code, b.rip + 2);
    lemma_long_decoded(b.code, b.rip + 8);
    lemma_short_decoded(b.code, b.rip + 18);
    lemma_cursor_moved(index, delta);
    let moved = twos_complement_32(index.wrapping_add(delta) as int) as int;
    let b1 = Cpu { rip: b.rip + 2, cells: b.cells.insert(index as int, value), ..b };
    assert(cpu_next(b, None) == (b1, Step::More));
    lemma_silent_one(b, b1);
    let b2 = Cpu { rip: b.rip + 8, rcx: Word::Num(moved), ..b1 };
    assert(cpu_next(b1, None) == (b2, Step::More));
    lemma_silent_one(b1, b2);
    lemma_silent_on(b, 1, 1, b2);
    let b3 = Cpu { rip: b.rip + 18, rdi: Word::Num(b.tape_addr), ..b2 };
    assert(imm(b.code, b.rip + 10, 8) == le_value(addr));
    assert(cpu_next(b2, None) == (b3, Step::More));
    lemma_silent_one(b2, b3);
    lemma_silent_on(b, 2, 1, b3);
    let b4 = move_ready(b, index, value, delta);
    assert(cpu_next(b3, None) == (b4, Step::More));
    lemma_silent_one(b3, b4);
    lemma_silent_on(b, 3, 1, b4);
    lemma_call_before(b4, target);
    lemma_silent_on(b, 4, 7, before_call(b4, target));
}

/// The processor behind a move on a tape that grows.
pub open spec fn move_done(b: Cpu, index: i32, value: u8, delta: i32) -> Cpu {
    let moved = index.wrapping_add(delta);
    let flushed = b.cells.insert(index as int, value);
    Cpu {
        rip: b.rip + 57,
        cells: flushed,
        rax: Word::Cell(moved as int, b.asked + 1),
        rcx: Word::Num(twos_complement_32(moved as int) as int),
        rdx: Word::Low8(flushed[moved as int]),
        rdi: Word::Junk,
        rsi: Word::Junk,
        asked: b.asked + 1,
        stack: finished_call(
            move_ready(b, index, value, delta),
            b.callbacks.get_ref,
            b.asked + 1,
            Word::Cell(moved as int, b.asked + 1),
        ).stack,
        ..b
    }
}

/// What the processor does from the call of a move on a tape that grows
/// on, where the tape can hand out the new cell.
proof fn lemma_move_behind(b: Cpu, index: i32, value: u8, delta: i32)
    requires
        b.grows,
        b.rdx == Word::Low8(value),
        b.reach.contains(index.wrapping_add(delta) as int),
        b.callbacks.get_ref != b.callbacks.fetch_u8,
        placed(b.code, b.rip + 20, fn_call(b.callbacks.get_ref)),
        0 <= b.rip,
        b.rip + 57 <= b.code.len(),
        b.code[b.rip + 55] == 0x8a && b.code[b.rip + 56] == 0x10,
    ensures
        all_silent(
            cpu_steps(),
            before_call(move_ready(b, index, value, delta), b.callbacks.get_ref),
            5,
        ),
        cpu_next(
            after_steps(
                cpu_steps(),
                before_call(move_ready(b, index, value, delta), b.callbacks.get_ref),
                5,
            ),
            None,
        ) == (move_done(b, index, value, delta), Step::More),
{
    let target = b.callbacks.get_ref;
    let moved = index.wrapping_add(delta);
    let ready = move_ready(b, index, value, delta);
    lemma_cursor_moved(index, delta);
    lemma_call_event(ready, target, None);
    let at = before_call(ready, target);
    let asked = b.asked + 1;
    let cell = Word::Cell(moved as int, asked);
    let c = after_call(ready, target, asked, cell);
    assert(call(at, None, 2) == (c, Step::More));
    lemma_silent_one(at, c);
    lemma_call_behind(ready, target, asked, cell);
    let done = finished_call(ready, target, asked, cell);
    lemma_silent_on(at, 1, 4, done);
    lemma_short_decoded(b.code, b.rip + 55);
    assert(decode(done.code, done.rip) == Some((Ins::LoadDl, 2int)));
    assert(cpu_next(done, None) == execute(done, Ins::LoadDl, 2, None));
    assert(execute(done, Ins::LoadDl, 2, None).0 =~= move_done(b, index, value, delta));
}

/// Where the tape cannot hand out the new cell, the call of a move on a
/// tape that grows reports so.
proof fn lemma_move_refused(b: Cpu, index: i32, value: u8, delta: i32)
    requires
        !b.reach.contains(index.wrapping_add(delta) as int),
        placed(b.code, b.rip + 20, fn_call(b.callbacks.get_ref)),
    ensures
        cpu_next(
            before_call(move_ready(b, index, value, delta), b.callbacks.get_ref),
            None,
        ).1 == Step::Fault(Fault::OutOfTape),
{
    let target = b.callbacks.get_ref;
    let ready = move_ready(b, index, value, delta);
    lemma_cursor_moved(index, delta);
    lemma_call_event(ready, target, None);
    let at = before_call(ready, target);
    assert(at.rdi == Word::Num(b.tape_addr));
    assert(at.rsi == Word::Num(twos_complement_32(index.wrapping_add(delta) as int) as int));
    assert(call(at, None, 2).1 == Step::Fault(Fault::OutOfTape));
}

/// On a tape that grows, the processor runs the code of a move to a cell
/// that the tape cannot hand out up to the call that asks for the cell,
/// which reports so.
proof fn lemma_move_refused_run(
    b: Cpu,
    addr: Seq<u8>,
    index: i32,
    value: u8,
    delta: i32,
)
    requires
        placed(
            b.code,
            b.rip,
            flush_cell() + standard_move_ops(addr, b.callbacks.get_ref, delta) + reload_cell(),
        ),
        addr.len() == 8,
        b.tape_addr == le_value(addr),
        b.rax == Word::Cell(index as int, b.asked),
        b.rdx == Word::Low8(value),
        b.rcx == Word::Num(twos_complement_32(index as int) as int),
        b.reach.contains(index as int),
        !b.reach.contains(index.wrapping_add(delta) as int),
    ensures
        all_silent(cpu_steps(), b, 11),
        cpu_next(after_steps(cpu_steps(), b, 11), None).1 == Step::Fault(Fault::OutOfTape),
{
    lemma_move_before(b, addr, b.callbacks.get_ref, index, value, delta);
    lemma_move_refused(b, index, value, delta);
}

/// The interpreter's move to a cell that the tape cannot hand out reports
/// so; the processor runs 11 instructions before it does.
proof fn lemma_move_off_tape_step(e: Setting, a: OptState)
    requires
        e.grows,
        a.control.len() > 0,
        0 <= a.control.last() < block_at(a.ops, a.control).len(),
        block_at(a.ops, a.control)[a.control.last()] is Move,
        !a.reach.contains(
            a.mem_index.wrapping_add(block_at(a.ops, a.control)[a.control.last()]->Move_0) as int,
        ),
    ensures
        opt_next(a, None).1 == Step::Fault(Fault::OutOfTape),
        steps_before(e)(a) == 11,
        steps_behind()(a) == 0,
{
}

/// On a tape that grows, a move to a cell that the tape cannot hand out
/// ends at the call that asks for the cell, as the interpreter's move does.
proof fn lemma_growing_move_off_tape<T: BfMemory>(e: Setting, a: OptState, b: Cpu)
    requires
        at_boundary::<T>(e, a, b),
        e.grows,
        a.control.len() > 0,
        a.control.last() < block_at(a.ops, a.control).len(),
        block_at(a.ops, a.control)[a.control.last()] is Move,
        !a.reach.contains(
            a.mem_index.wrapping_add(block_at(a.ops, a.control)[a.control.last()]->Move_0) as int,
        ),
    ensures
        stretch_matches(
            opt_steps(),
            cpu_steps(),
            boundary::<T>(e),
            steps_before(e),
            steps_behind(),
            a,
            b,
        ),
{
    let delta = block_at(a.ops, a.control)[a.control.last()]->Move_0;
    lemma_control_last_in_block(a.ops, a.control);
    lemma_op_placed::<T>(e, a.ops, a.control);
    assert(T::move_ops(e.addr, e.callbacks.get_ref, delta) == move_code(
        e.grows,
        e.addr,
        e.callbacks.get_ref,
        delta,
    ));
    assert(emit_instr::<T>(Instr::Move(delta), e.addr, e.callbacks) == flush_cell()
        + standard_move_ops(e.addr, b.callbacks.get_ref, delta) + reload_cell());
    lemma_move_refused_run(b, e.addr, a.mem_index, a.cur_pos_value, delta);
    lemma_move_off_tape_step(e, a);
    lemma_stretch_to_event::<T>(e, a, b, 11);
}

/// On a tape that grows, a move to a cell that the tape can hand out takes
/// the processor to the code of the interpreter's next place.
proof fn lemma_growing_move_on_tape<T: BfMemory>(e: Setting, a: OptState, b: Cpu)
    requires
        at_boundary::<T>(e, a, b),
        e.grows,
        a.control.len() > 0,
        a.control.last() < block_at(a.ops, a.control).len(),
        block_at(a.ops, a.control)[a.control.last()] is Move,
        a.reach.contains(
            a.mem_index.wrapping_add(block_at(a.ops, a.control)[a.control.last()]->Move_0) as int,
        ),
    ensures
        stretch_matches(
            opt_steps(),
            cpu_steps(),
            boundary::<T>(e),
            steps_before(e),
            steps_behind(),
            a,
            b,
        ),
{
    let delta = block_at(a.ops, a.control)[a.control.last()]->Move_0;
    let target = e.callbacks.get_ref;
    let index = a.mem_index;
    let value = a.cur_pos_value;
    let moved = index.wrapping_add(delta);
    lemma_control_last_in_block(a.ops, a.control);
    lemma_op_placed::<T>(e, a.ops, a.control);
    lemma_control_replace_last(a.ops, a.control, a.control.last() + 1);
    assert(T::move_ops(e.addr, e.callbacks.get_ref, delta) == move_code(
        e.grows,
        e.addr,
        e.callbacks.get_ref,
        delta,
    ));
    lemma_move_before(b, e.addr, target, index, value, delta);
    let ready = move_ready(b, index, value, delta);
    let at = before_call(ready, target);
    lemma_move_behind(b, index, value, delta);
    lemma_silent_on(b, 11, 5, after_steps(cpu_steps(), at, 5));
    let last = move_done(b, index, value, delta);
    let a1 = opt_next(a, None).0;
    assert(opt_next(a, None).1 == Step::More);
    assert(a1.cells == a.cells.insert(index as int, value));
    assert(a1.mem_index == moved);
    assert(a1.cur_pos_value == a1.cells[moved as int]);
    assert(a1.control == advanced(a.control));
    assert(at_boundary::<T>(e, a1, last));
    lemma_stretch_to_event::<T>(e, a, b, 16);
}

/// On a tape that grows the processor writes `dl` back, moves the cursor,
/// asks the tape for the new cell and loads `dl` from it, as the interpreter
/// moves the cursor.
proof fn lemma_growing_move_stretch<T: BfMemory>(e: Setting, a: OptState, b: Cpu)
    requires
        at_boundary::<T>(e, a, b),
        e.grows,
        a.control.len() > 0,
        a.control.last() < block_at(a.ops, a.control).len(),
        block_at(a.ops, a.control)[a.control.last()] is Move,
    ensures
        stretch_matches(
            opt_steps(),
            cpu_steps(),
            boundary::<T>(e),
            steps_before(e),
            steps_behind(),
            a,
            b,
        ),
{
    let delta = block_at(a.ops, a.control)[a.control.last()]->Move_0;
    if a.reach.contains(a.mem_index.wrapping_add(delta) as int) {
        lemma_growing_move_on_tape::<T>(e, a, b);
    } else {
        lemma_growing_move_off_tape::<T>(e, a, b);
    }
}

/// The processor before the call sequence of what generated code starts
/// with: the tape and cell 0 are the arguments of the call.
pub open spec fn start_ready(b: Cpu) -> Cpu {
    Cpu { rip: b.rip + 20, rdi: Word::Num(b.tape_addr), rsi: Word::Num(0), ..b }
}

/// What generated code starts with, and what the processor does with it
/// before the call.
proof fn lemma_start_before(b: Cpu, addr: Seq<u8>, target: usize)
    requires
        b.rip == 0,
        placed(
            b.code,
            0,
            seq![0x48u8, 0xbf] + addr + seq![0x48u8, 0xbe] + le_bytes(0, 8) + fn_call(target)
                + reload_cell() + seq![0xb9u8, 0, 0, 0, 0],
        ),
        addr.len() == 8,
        b.tape_addr == le_value(addr),
    ensures
        all_silent(cpu_steps(), b, 9),
        after_steps(cpu_steps(), b, 9) == before_call(start_ready(b), target),
        placed(b.code, 20, fn_call(target)),
        decode(b.code, 55) == Some((Ins::LoadDl, 2int)),
        decode(b.code, 57) == Some((Ins::MovEcx(0), 5int)),
{
    let first = seq![0x48u8, 0xbf];
    let second = seq![0x48u8, 0xbe];
    let zero = le_bytes(0, 8);
    let last = seq![0xb9u8, 0, 0, 0, 0];
    lemma_le_bytes_len(target as nat, 8);
    lemma_le_bytes_len(0, 8);
    assert(fn_call(target).len() == 35);
    let code = b.code;
    lemma_placed_parts(code, 0, first + addr + second + zero + fn_call(target) + reload_cell(), last);
    lemma_placed_parts(code, 0, first + addr + second + zero + fn_call(target), reload_cell());
    lemma_placed_parts(code, 0, first + addr + second + zero, fn_call(target));
    lemma_placed_parts(code, 0, first + addr + second, zero);
    lemma_placed_parts(code, 0, first + addr, second);
    lemma_placed_parts(code, 0, first, addr);
    lemma_placed_subrange(code, 2, addr);
    lemma_placed_subrange(code, 12, zero);
    assert(pow256(8) > 0) by {
        reveal_with_fuel(pow256, 9);
    }
    lemma_le_value_of_le_bytes(0, 8);
    assert(first[0] == 0x48 && first[1] == 0xbf);
    assert(second[0] == 0x48 && second[1] == 0xbe);
    assert(reload_cell()[0] == 0x8a && reload_cell()[1] == 0x10);
    assert(last[0] == 0xb9 && last[1] == 0 && last[2] == 0 && last[3] == 0 && last[4] == 0);
    assert(code[0int] == 0x48 && code[1int] == 0xbf);
    assert(code[10int] == 0x48 && code[11int] == 0xbe);
    assert(code[55int] == 0x8a && code[56int] == 0x10);
    assert(code[57int] == 0xb9);
    assert(code.subrange(58, 62) =~= seq![0u8, 0, 0, 0]) by {
        assert(code[58int] == 0 && code[59int] == 0 && code[60int] == 0 && code[61int] == 0);
    }
    assert(le_value(seq![0u8, 0, 0, 0]) == 0) by {
        reveal_with_fuel(le_value, 5);
        let z = seq![0u8, 0, 0, 0];
        assert(z.drop_first() =~= seq![0u8, 0, 0]);
        assert(z.drop_first().drop_first() =~= seq![0u8, 0]);
        assert(z.drop_first().drop_first().drop_first() =~= seq![0u8]);
        assert(z.drop_first().drop_first().drop_first().drop_first() =~= Seq::<u8>::empty());
    }
    lemma_long_decoded(code, 0);
    lemma_long_decoded(code, 10);
    lemma_short_decoded(code, 55);
    lemma_long_decoded(code, 57);
    let b1 = Cpu { rip: 10, rdi: Word::Num(b.tape_addr), ..b };
    assert(cpu_next(b, None) == (b1, Step::More));
    lemma_silent_one(b, b1);
    let b2 = start_ready(b);
    assert(cpu_next(b1, None) == (b2, Step::More));
    lemma_silent_one(b1, b2);
    lemma_silent_on(b, 1, 1, b2);
    lemma_call_before(b2, target);
    lemma_silent_on(b, 2, 7, before_call(b2, target));
}

/// At its start the processor asks the tape for cell 0, loads `dl` from it
/// and sets the cursor to 0, as the interpreter does its first step.
proof fn lemma_start_stretch<T: BfMemory>(e: Setting, a: OptState, b: Cpu)
    requires
        at_boundary::<T>(e, a, b),
        a.control.len() == 0,
    ensures
        stretch_matches(opt_steps(), cpu_steps(), boundary::<T>(e), steps_before(e), steps_behind(), a, b),
{
    let target = e.callbacks.get_ref;
    lemma_program_layout::<T>(e, a.ops);
    lemma_le_bytes_len(0, 8);
    lemma_start_before(b, e.addr, target);
    lemma_cursor_moved(0, 0);
    let ready = start_ready(b);
    lemma_call_event(ready, target, None);
    let at = before_call(ready, target);
    let (a1, x) = opt_next(a, None);
    if !a.reach.contains(0) {
        assert(cpu_next(at, None).1 == Step::Fault(Fault::OutOfTape));
        lemma_stretch_to_event::<T>(e, a, b, 9);
    } else {
        let asked = if e.grows {
            b.asked + 1
        } else {
            b.asked
        };
        let cell = Word::Cell(0, asked);
        let c = after_call(ready, target, asked, cell);
        assert(cpu_next(at, None) == (c, Step::More));
        lemma_silent_one(at, c);
        lemma_silent_on(b, 9, 1, c);
        lemma_call_behind(ready, target, asked, cell);
        let done = finished_call(ready, target, asked, cell);
        lemma_silent_on(b, 10, 4, done);
        let loaded = Cpu { rip: 57, rdx: Word::Low8(a.cells[0]), ..done };
        assert(cpu_next(done, None) == (loaded, Step::More));
        lemma_silent_one(done, loaded);
        lemma_silent_on(b, 14, 1, loaded);
        let last = Cpu { rip: 62, rcx: Word::Num(0), ..loaded };
        assert(cpu_next(loaded, None) == (last, Step::More));
        assert(a1.control =~= seq![0int]);
        assert(a.ops.take(0) =~= Seq::<Instr>::empty());
        assert(code_offset::<T>(a.ops, a1.control, e.addr, e.callbacks) == 0);
        assert(at_boundary::<T>(e, a1, last));
        lemma_stretch_to_event::<T>(e, a, b, 15);
    }
}

/// Where the processor stands where the interpreter stands, the stretch of
/// instructions that it runs next does what the interpreter's next step does.
pub proof fn lemma_boundary_is_kept<T: BfMemory>(e: Setting)
    ensures
        is_stretched_simulation(
            opt_steps(),
            cpu_steps(),
            boundary::<T>(e),
            steps_before(e),
            steps_behind(),
        ),
{
    assert forall|a: OptState, b: Cpu| #[trigger] holds(boundary::<T>(e), a, b) implies stretch_matches(
        opt_steps(),
        cpu_steps(),
        boundary::<T>(e),
        steps_before(e),
        steps_behind(),
        a,
        b,
    ) by {
        assert(at_boundary::<T>(e, a, b));
        if a.control.len() == 0 {
            lemma_start_stretch::<T>(e, a, b);
        } else {
            lemma_control_last_in_block(a.ops, a.control);
            let block = block_at(a.ops, a.control);
            let at = a.control.last();
            if at >= block.len() {
                if a.control.len() == 1 {
                    lemma_program_end_stretch::<T>(e, a, b);
                } else {
                    lemma_body_end_stretch::<T>(e, a, b);
                }
            } else {
                match block[at] {
                    Instr::Mod(_) => {
                        lemma_value_stretch::<T>(e, a, b);
                    },
                    Instr::SetValue(_) => {
                        lemma_value_stretch::<T>(e, a, b);
                    },
                    Instr::Loop(_) => {
                        lemma_loop_stretch::<T>(e, a, b);
                    },
                    Instr::Move(_) => {
                        if e.grows {
                            lemma_growing_move_stretch::<T>(e, a, b);
                        } else {
                            lemma_fixed_move_stretch::<T>(e, a, b);
                        }
                    },
                    Instr::GetInput => {
                        lemma_input_stretch::<T>(e, a, b);
                    },
                    Instr::PrintOutput => {
                        lemma_print_stretch::<T>(e, a, b);
                    },
                }
            }
        }
    }
}

/// Whether the processor has just entered the code that was generated for
/// the program `ops` in the setting `e`: it stands at the first byte of that
/// code, and the tape and the functions that the code calls back are those
/// of the setting. The jumps of the program fit; the tape holds a value for
/// every cell; a fixed tape has at most 2^31 cells.
pub open spec fn entered<T: BfMemory>(e: Setting, ops: Seq<Instr>, b: Cpu) -> bool {
    &&& setting_ok(e)
    &&& tape_kind::<T>(e.grows)
    &&& ops_jumps_fit::<T>(ops, e.addr, e.callbacks)
    &&& b.code == program_code::<T>(ops, e.addr, e.callbacks)
    &&& b.rip == 0
    &&& b.rsp == b.entry_rsp
    &&& b.callbacks == e.callbacks
    &&& b.tape_addr == le_value(e.addr)
    &&& b.grows == e.grows
    &&& tape_is_total(b.cells)
    &&& !e.grows ==> forall|index: int| #[trigger]
        b.reach.contains(index) ==> -0x4000_0000 <= index < 0x4000_0000
}

/// Generated code shows what the program shows: on the model of the
/// processor, whatever the interpreter that walks the program's tree writes,
/// reads and ends with in `fuel` steps, the code that was generated for the
/// program writes, reads and ends with in as many instructions as the result
/// says. Where the program has come to its end, the code has returned and
/// left the tape as the interpreter has.
pub proof fn lemma_generated_code_follows_program<T: BfMemory>(
    e: Setting,
    ops: Seq<Instr>,
    b: Cpu,
    input: Seq<u8>,
    fuel: nat,
) -> (other: nat)
    requires
        entered::<T>(e, ops, b),
    ensures
        same_observation(
            run_spec(opt_steps(), tree_start(ops, b.reach, b.cells), input, fuel),
            run_spec(cpu_steps(), b, input, other),
        ),
        run_spec(opt_steps(), tree_start(ops, b.reach, b.cells), input, fuel).end == Step::Done
            ==> code_left_tape(
            run_spec(opt_steps(), tree_start(ops, b.reach, b.cells), input, fuel).state,
            run_spec(cpu_steps(), b, input, other).state,
        ),
{
    lemma_boundary_is_kept::<T>(e);
    lemma_boundary_ends::<T>(e);
    let a = tree_start(ops, b.reach, b.cells);
    assert(at_boundary::<T>(e, a, b));
    assert(holds(boundary::<T>(e), a, b));
    lemma_stretched_simulation(
        opt_steps(),
        cpu_steps(),
        boundary::<T>(e),
        steps_before(e),
        steps_behind(),
        code_left_tape_relation(),
        a,
        b,
        input,
        fuel,
    )
}

/// The same the other way round: whatever generated code shows in `fuel`
/// instructions, the interpreter shows in as many steps as the result says.
pub proof fn lemma_program_follows_generated_code<T: BfMemory>(
    e: Setting,
    ops: Seq<Instr>,
    b: Cpu,
    input: Seq<u8>,
    fuel: nat,
) -> (other: nat)
    requires
        entered::<T>(e, ops, b),
    ensures
        same_observation(
            run_spec(opt_steps(), tree_start(ops, b.reach, b.cells), input, other),
            run_spec(cpu_steps(), b, input, fuel),
        ),
        run_spec(cpu_steps(), b, input, fuel).end == Step::Done ==> code_left_tape(
            run_spec(opt_steps(), tree_start(ops, b.reach, b.cells), input, other).state,
            run_spec(cpu_steps(), b, input, fuel).state,
        ),
{
    lemma_boundary_is_kept::<T>(e);
    lemma_boundary_ends::<T>(e);
    let a = tree_start(ops, b.reach, b.cells);
    assert(at_boundary::<T>(e, a, b));
    assert(holds(boundary::<T>(e), a, b));
    lemma_stretched_simulation_back(
        opt_steps(),
        cpu_steps(),
        boundary::<T>(e),
        steps_before(e),
        steps_behind(),
        code_left_tape_relation(),
        a,
        b,
        input,
        fuel,
    )
}

/// The two tapes that grow ask for every cell; the fixed tape computes the
/// address.
pub proof fn lemma_tape_kinds()
    ensures
        tape_kind::<BfMemoryMemSafe>(true),
        tape_kind::<BfMemoryMemSafeSingleArray>(true),
        tape_kind::<BfMemoryMemUnsafe>(false),
{
}

/// The program that an executor runs for the text `src`: the program that
/// the front-end builds, optimized where that is asked for.
pub open spec fn program_of(src: Seq<u8>, enable_optimizations: bool) -> Seq<Instr> {
    if enable_optimizations {
        optimize_fix(parse(src)->Ok_0)
    } else {
        parse(src)->Ok_0
    }
}

/// Whether the processor has left the tape as the text interpreter has: the
/// memory holds the interpreter's tape, and `rax` the address of the cell
/// under its cursor.
pub open spec fn code_left_text_tape(a: InterpreterState, b: Cpu) -> bool {
    b.cells == a.cells && b.rax == Word::Cell(a.mem_index as int, b.asked)
}

/// On a tape that grows and can hand out every cell, the code that is
/// generated for a program text shows what the interpreter of the text
/// shows, with the optimizer or without: whatever the text interpreter
/// writes, reads and ends with in `fuel` steps, the code writes, reads and
/// ends with, on the model of the processor, in as many instructions as the
/// result says. Where the program has come to its end, the code has left the
/// tape as the text interpreter has.
pub proof fn lemma_generated_code_follows_text<T: BfMemory>(
    e: Setting,
    src: Seq<u8>,
    enable_optimizations: bool,
    b: Cpu,
    input: Seq<u8>,
    fuel: nat,
) -> (other: nat)
    requires
        parse(src) is Ok,
        entered::<T>(e, program_of(src, enable_optimizations), b),
        all_cells_reachable(b.reach),
    ensures
        same_observation(
            run_spec(interpreter_steps(), text_start(src, b.reach, b.cells), input, fuel),
            run_spec(cpu_steps(), b, input, other),
        ),
        run_spec(interpreter_steps(), text_start(src, b.reach, b.cells), input, fuel).end
            == Step::Done ==> code_left_text_tape(
            run_spec(interpreter_steps(), text_start(src, b.reach, b.cells), input, fuel).state,
            run_spec(cpu_steps(), b, input, other).state,
        ),
{
    let ops = program_of(src, enable_optimizations);
    let tree = if enable_optimizations {
        lemma_optimized_tree_follows_text(src, b.reach, b.cells, input, fuel)
    } else {
        lemma_tree_interpreter_follows_text_interpreter(src, b.reach, b.cells, input, fuel)
    };
    lemma_generated_code_follows_program::<T>(e, ops, b, input, tree)
}

/// The same the other way round: whatever the code shows in `fuel`
/// instructions, the text interpreter shows in as many steps as the result
/// says.
pub proof fn lemma_text_follows_generated_code<T: BfMemory>(
    e: Setting,
    src: Seq<u8>,
    enable_optimizations: bool,
    b: Cpu,
    input: Seq<u8>,
    fuel: nat,
) -> (other: nat)
    requires
        parse(src) is Ok,
        entered::<T>(e, program_of(src, enable_optimizations), b),
        all_cells_reachable(b.reach),
    ensures
        same_observation(
            run_spec(interpreter_steps(), text_start(src, b.reach, b.cells), input, other),
            run_spec(cpu_steps(), b, input, fuel),
        ),
        run_spec(cpu_steps(), b, input, fuel).end == Step::Done ==> code_left_text_tape(
            run_spec(interpreter_steps(), text_start(src, b.reach, b.cells), input, other).state,
            run_spec(cpu_steps(), b, input, fuel).state,
        ),
{
    let ops = program_of(src, enable_optimizations);
    let tree = lemma_program_follows_generated_code::<T>(e, ops, b, input, fuel);
    if enable_optimizations {
        lemma_text_follows_optimized_tree(src, b.reach, b.cells, input, tree)
    } else {
        lemma_text_interpreter_follows_tree_interpreter(src, b.reach, b.cells, input, tree)
    }
}

/// What the emulator shows of generated code, the text interpreter shows:
/// whatever the emulator writes, reads and ends with in `fuel` instructions
/// without crashing, the text interpreter writes, reads and ends with in as
/// many steps as the result says.
pub proof fn lemma_text_follows_emulated_code<T: BfMemory>(
    e: Setting,
    src: Seq<u8>,
    enable_optimizations: bool,
    b: Cpu,
    input: Seq<u8>,
    fuel: nat,
) -> (other: nat)
    requires
        parse(src) is Ok,
        entered::<T>(e, program_of(src, enable_optimizations), b),
        all_cells_reachable(b.reach),
        fits(b),
        b.code.len() <= 0x4000_0000_0000_0000,
        run_spec(emulator_steps(), b, input, fuel).end != Step::Fault(Fault::Crash),
    ensures
        same_observation(
            run_spec(interpreter_steps(), text_start(src, b.reach, b.cells), input, other),
            run_spec(emulator_steps(), b, input, fuel),
        ),
{
    lemma_emulator_runs_as_the_processor(b, input, fuel);
    lemma_text_follows_generated_code::<T>(e, src, enable_optimizations, b, input, fuel)
}

/// Where the processor stands when it has run the code of the operation
/// that the interpreter stands at, where that operation neither stops the
/// run nor reads.
pub open spec fn behind_operation(e: Setting, a: OptState, b: Cpu) -> Cpu {
    after_steps(
        cpu_steps(),
        cpu_next(after_steps(cpu_steps(), b, steps_before(e)(a)), None).0,
        steps_behind()(a),
    )
}

/// Only the code of a move changes the cell that `rax` addresses and the
/// cursor in `ecx`: the code of every other operation that neither stops the
/// run nor reads leaves `rax` at the same cell and `ecx` as it found it, and
/// the code of every operation leaves in `dl` the value that the interpreter
/// holds.
pub proof fn lemma_only_moves_move_the_cursor<T: BfMemory>(e: Setting, a: OptState, b: Cpu)
    requires
        at_boundary::<T>(e, a, b),
        a.control.len() > 0,
        opt_next(a, None).1 == Step::More || opt_next(a, None).1 is Output,
    ensures
        behind_operation(e, a, b).rdx == Word::Low8(opt_next(a, None).0.cur_pos_value),
        behind_operation(e, a, b).rax == Word::Cell(
            opt_next(a, None).0.mem_index as int,
            behind_operation(e, a, b).asked,
        ),
        e.grows ==> behind_operation(e, a, b).rcx == Word::Num(
            twos_complement_32(opt_next(a, None).0.mem_index as int) as int,
        ),
        !(0 <= a.control.last() < block_at(a.ops, a.control).len() && block_at(
            a.ops,
            a.control,
        )[a.control.last()] is Move) ==> {
            &&& opt_next(a, None).0.mem_index == a.mem_index
            &&& e.grows ==> behind_operation(e, a, b).rcx == b.rcx
        },
{
    lemma_boundary_is_kept::<T>(e);
    assert(holds(boundary::<T>(e), a, b));
    assert(stretch_matches(
        opt_steps(),
        cpu_steps(),
        boundary::<T>(e),
        steps_before(e),
        steps_behind(),
        a,
        b,
    ));
    let a1 = opt_next(a, None).0;
    assert(opt_steps()(a, None) == opt_next(a, None));
    let at = after_steps(cpu_steps(), b, steps_before(e)(a));
    assert(cpu_steps()(at, None) == cpu_next(at, None));
    assert(holds(boundary::<T>(e), a1, behind_operation(e, a, b)));
    assert(at_boundary::<T>(e, a1, behind_operation(e, a, b)));
    assert(a1.control.len() > 0);
    lemma_control_last_in_block(a.ops, a.control);
}

/// Entered with 0 in `dl`, the code of a loop runs its comparison and its
/// jump and nothing else: the processor then stands behind the loop's
/// code, so that no instruction of the body has run.
pub proof fn lemma_loop_on_zero_is_jumped_over<T: BfMemory>(
    e: Setting,
    a: OptState,
    b: Cpu,
    body: Seq<Instr>,
)
    requires
        at_boundary::<T>(e, a, b),
        stands_at(a, Instr::Loop(body)),
        a.cur_pos_value == 0,
    ensures
        steps_before(e)(a) == 1,
        steps_behind()(a) == 0,
        all_silent(cpu_steps(), b, 1),
        cpu_next(after_steps(cpu_steps(), b, 1), None).1 == Step::More,
        behind_operation(e, a, b).rip == b.rip + emit_instr::<T>(
            Instr::Loop(body),
            e.addr,
            e.callbacks,
        ).len(),
        behind_operation(e, a, b).cells == b.cells,
        behind_operation(e, a, b).rdx == b.rdx,
{
    lemma_boundary_is_kept::<T>(e);
    assert(holds(boundary::<T>(e), a, b));
    assert(stretch_matches(
        opt_steps(),
        cpu_steps(),
        boundary::<T>(e),
        steps_before(e),
        steps_behind(),
        a,
        b,
    ));
    let a1 = opt_next(a, None).0;
    assert(opt_steps()(a, None) == opt_next(a, None));
    assert(opt_next(a, None).1 == Step::More);
    assert(a1.control == advanced(a.control));
    let at = after_steps(cpu_steps(), b, steps_before(e)(a));
    assert(cpu_steps()(at, None) == cpu_next(at, None));
    assert(holds(boundary::<T>(e), a1, behind_operation(e, a, b)));
    assert(at_boundary::<T>(e, a1, behind_operation(e, a, b)));
    lemma_control_last_in_block(a.ops, a.control);
    lemma_op_placed::<T>(e, a.ops, a.control);
    assert(a1.control.len() > 0);
}

/// The code of a move by 0 changes nothing that the program can see: it
/// leaves `dl` and `ecx` as it found them, `rax` at the same cell, and in
/// every cell the value that the program saw there.
pub proof fn lemma_move_zero_code_is_neutral<T: BfMemory>(e: Setting, a: OptState, b: Cpu)
    requires
        at_boundary::<T>(e, a, b),
        stands_at(a, Instr::Move(0)),
        a.reach.contains(a.mem_index as int),
    ensures
        all_silent(cpu_steps(), b, steps_before(e)(a)),
        behind_operation(e, a, b).rdx == b.rdx,
        behind_operation(e, a, b).rax == Word::Cell(
            a.mem_index as int,
            behind_operation(e, a, b).asked,
        ),
        e.grows ==> behind_operation(e, a, b).rcx == b.rcx,
        behind_operation(e, a, b).cells == visible_cells(a),
{
    lemma_boundary_is_kept::<T>(e);
    assert(holds(boundary::<T>(e), a, b));
    assert(stretch_matches(
        opt_steps(),
        cpu_steps(),
        boundary::<T>(e),
        steps_before(e),
        steps_behind(),
        a,
        b,
    ));
    let a1 = opt_next(a, None).0;
    assert(a.mem_index.wrapping_add(0) == a.mem_index);
    assert(opt_next(a, None).1 == Step::More);
    assert(opt_steps()(a, None) == opt_next(a, None));
    let at = after_steps(cpu_steps(), b, steps_before(e)(a));
    assert(cpu_steps()(at, None) == cpu_next(at, None));
    assert(holds(boundary::<T>(e), a1, behind_operation(e, a, b)));
    assert(at_boundary::<T>(e, a1, behind_operation(e, a, b)));
    assert(a1.control.len() > 0);
    assert(a1.cells =~= visible_cells(a));
}

/// The processor that enters the code of a program has entered it.
pub proof fn lemma_entering<T: BfMemory>(
    e: Setting,
    ops: Seq<Instr>,
    reach: Set<int>,
    cells: Map<int, u8>,
    rsp: int,
)
    requires
        setting_ok(e),
        tape_kind::<T>(e.grows),
        ops_jumps_fit::<T>(ops, e.addr, e.callbacks),
        tape_is_total(cells),
        !e.grows ==> forall|index: int| #[trigger]
            reach.contains(index) ==> -0x4000_0000 <= index < 0x4000_0000,
    ensures
        entered::<T>(
            e,
            ops,
            cpu_entering(program_code::<T>(ops, e.addr, e.callbacks), e, reach, cells, rsp),
        ),
{
}

} // verus!
