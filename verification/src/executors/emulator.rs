//! The model of the processor as a machine that runs: generated code can be
//! run on it where the processor itself is out of reach, step by step like
//! the interpreters.

use vstd::prelude::*;
use crate::bf_memory::{BfMemory, tape_cells, tape_reach};
use crate::executors::{Fault, Machine, Run, Step, run, run_spec};
use crate::executors::bf_recompiler::{Callbacks, le_value, pow256, signed_32};
use crate::executors::machine::{
    Cpu, Ins, Reg, Setting, Word, call, cpu_entering, cpu_next, cpu_steps, crash, decode, execute,
    has, imm, low_32, reg, returned, with_reg,
};

verus! {

/// What a register or a slot of the stack holds.
#[derive(Debug, Clone, Copy, PartialEq, Eq, Structural)]
pub enum Value {
    /// Nothing that is known.
    Junk,
    /// A number.
    Num(u64),
    /// A byte in the low 8 bits.
    Low8(u8),
    /// The address of the tape cell with this index, as handed out when the
    /// tape had been asked for cells this many times.
    Cell(i32, u64),
}

/// The model of a value.
pub open spec fn word_of(value: Value) -> Word {
    match value {
        Value::Junk => Word::Junk,
        Value::Num(number) => Word::Num(number as int),
        Value::Low8(byte) => Word::Low8(byte),
        Value::Cell(index, asked) => Word::Cell(index as int, asked as nat),
    }
}

/// A slot of the stack: an address and what stands there.
#[derive(Debug, Clone, Copy)]
pub struct Slot {
    pub addr: u64,
    pub value: Value,
}

/// The model of the stack: of two slots with one address the later counts.
pub open spec fn stack_of(slots: Seq<Slot>) -> Map<int, Word>
    decreases slots.len(),
{
    if slots.len() == 0 {
        Map::empty()
    } else {
        stack_of(slots.drop_last()).insert(slots.last().addr as int, word_of(slots.last().value))
    }
}

/// No slot but those of the stack is in the stack's model.
pub proof fn lemma_stack_of_dom(slots: Seq<Slot>, addr: int)
    ensures
        stack_of(slots).dom().contains(addr) <==> exists|i: int|
            0 <= i < slots.len() && #[trigger] slots[i].addr == addr,
    decreases slots.len(),
{
    if slots.len() > 0 {
        let init = slots.drop_last();
        lemma_stack_of_dom(init, addr);
        if stack_of(slots).dom().contains(addr) {
            if slots.last().addr == addr {
                assert(slots[slots.len() - 1].addr == addr);
            } else {
                let i = choose|i: int| 0 <= i < init.len() && #[trigger] init[i].addr == addr;
                assert(slots[i].addr == addr);
            }
        }
        if exists|i: int| 0 <= i < slots.len() && #[trigger] slots[i].addr == addr {
            let i = choose|i: int| 0 <= i < slots.len() && #[trigger] slots[i].addr == addr;
            if i < init.len() {
                assert(init[i].addr == addr);
            }
        }
    }
}

/// A slot that no later slot shares its address with counts, and a value
/// put there counts in its place.
pub proof fn lemma_stack_of_update(slots: Seq<Slot>, at: int, value: Value)
    requires
        0 <= at < slots.len(),
        forall|j: int| at < j < slots.len() ==> slots[j].addr != slots[at].addr,
    ensures
        stack_of(slots)[slots[at].addr as int] == word_of(slots[at].value),
        stack_of(slots).dom().contains(slots[at].addr as int),
        stack_of(slots.update(at, Slot { addr: slots[at].addr, value })) == stack_of(slots).insert(
            slots[at].addr as int,
            word_of(value),
        ),
    decreases slots.len(),
{
    let changed = slots.update(at, Slot { addr: slots[at].addr, value });
    if at == slots.len() - 1 {
        assert(changed.drop_last() =~= slots.drop_last());
        assert(stack_of(changed) =~= stack_of(slots).insert(slots[at].addr as int, word_of(value)));
    } else {
        let init = slots.drop_last();
        lemma_stack_of_update(init, at, value);
        assert(changed.drop_last() =~= init.update(at, Slot { addr: slots[at].addr, value }));
        assert(changed.last() == slots.last());
        assert(slots.last().addr != slots[at].addr);
        assert(stack_of(changed) =~= stack_of(slots).insert(slots[at].addr as int, word_of(value)));
    }
}

/// The index of the last slot with the address `addr`, if there is one.
pub fn stack_find(slots: &Vec<Slot>, addr: u64) -> (found: Option<usize>)
    ensures
        match found {
            Some(at) => {
                &&& at < slots@.len()
                &&& slots@[at as int].addr == addr
                &&& forall|j: int| at < j < slots@.len() ==> slots@[j].addr != addr
            },
            None => !stack_of(slots@).dom().contains(addr as int),
        },
{
    let mut i = slots.len();
    while i > 0
        invariant
            i <= slots@.len(),
            forall|j: int| i <= j < slots@.len() ==> slots@[j].addr != addr,
        decreases i,
    {
        i -= 1;
        if slots[i].addr == addr {
            return Some(i);
        }
    }
    proof {
        lemma_stack_of_dom(slots@, addr as int);
    }
    None
}

/// What stands on the stack at `addr`, if anything was put there.
pub fn stack_get(slots: &Vec<Slot>, addr: u64) -> (found: Option<Value>)
    ensures
        match found {
            Some(value) => stack_of(slots@).dom().contains(addr as int) && stack_of(
                slots@,
            )[addr as int] == word_of(value),
            None => !stack_of(slots@).dom().contains(addr as int),
        },
{
    match stack_find(slots, addr) {
        Some(at) => {
            proof {
                lemma_stack_of_update(slots@, at as int, slots@[at as int].value);
            }
            Some(slots[at].value)
        },
        None => None,
    }
}

/// Puts `value` on the stack at `addr`.
pub fn stack_put(slots: &mut Vec<Slot>, addr: u64, value: Value)
    ensures
        stack_of(final(slots)@) == stack_of(old(slots)@).insert(addr as int, word_of(value)),
{
    match stack_find(slots, addr) {
        Some(at) => {
            proof {
                lemma_stack_of_update(slots@, at as int, value);
            }
            slots.set(at, Slot { addr, value });
        },
        None => {
            let ghost before = slots@;
            slots.push(Slot { addr, value });
            assert(slots@.drop_last() =~= before);
        },
    }
}

/// Forgets what stands on the stack below `from`.
pub fn stack_cut(slots: &mut Vec<Slot>, from: u64)
    ensures
        stack_of(final(slots)@) == stack_of(old(slots)@).restrict(
            Set::new(|addr: int| addr >= from),
        ),
{
    let ghost kept = Set::new(|addr: int| addr >= from);
    let mut out: Vec<Slot> = Vec::new();
    let mut i: usize = 0;
    assert(slots@.take(0) =~= Seq::<Slot>::empty());
    assert(stack_of(out@) =~= stack_of(slots@.take(0)).restrict(kept));
    while i < slots.len()
        invariant
            i <= slots@.len(),
            kept == Set::new(|addr: int| addr >= from),
            stack_of(out@) == stack_of(slots@.take(i as int)).restrict(kept),
        decreases slots@.len() - i,
    {
        let slot = slots[i];
        let ghost before = out@;
        let ghost upto = slots@.take(i + 1);
        assert(upto.drop_last() =~= slots@.take(i as int));
        assert(upto.last() == slot);
        if slot.addr >= from {
            out.push(slot);
            assert(out@.drop_last() =~= before);
            assert(stack_of(out@) =~= stack_of(upto).restrict(kept));
        } else {
            assert(stack_of(out@) =~= stack_of(upto).restrict(kept));
        }
        i += 1;
    }
    assert(slots@.take(i as int) =~= slots@);
    *slots = out;
}

/// The number in the `count` bytes of `code` from `at` on, lowest first.
pub fn read_le(code: &[u8], at: usize, count: usize) -> (number: u64)
    requires
        count <= 8,
        at + count <= code@.len(),
    ensures
        number == le_value(code@.subrange(at as int, at + count)),
        number < pow256(count as nat),
{
    let ghost bytes = code@.subrange(at as int, at + count);
    let len = code.len();
    let mut number: u128 = 0;
    let mut i = count;
    assert(bytes.skip(count as int) =~= Seq::<u8>::empty());
    while i > 0
        invariant
            i <= count,
            count <= 8,
            at + count <= len,
            len == code@.len(),
            bytes == code@.subrange(at as int, at + count),
            number == le_value(bytes.skip(i as int)),
            number < pow256((count - i) as nat),
        decreases i,
    {
        i -= 1;
        let byte = code[at + i];
        proof {
            assert(bytes.skip(i as int).drop_first() =~= bytes.skip(i + 1));
            assert(bytes.skip(i as int)[0] == byte);
            assert(pow256(8) == 0x1_0000_0000_0000_0000) by {
                reveal_with_fuel(pow256, 9);
            }
            lemma_pow256_grows((count - i - 1) as nat, 7);
        }
        number = number * 256 + byte as u128;
    }
    assert(bytes.skip(0) =~= bytes);
    proof {
        assert(pow256(8) == 0x1_0000_0000_0000_0000) by {
            reveal_with_fuel(pow256, 9);
        }
        lemma_pow256_grows(count as nat, 8);
    }
    number as u64
}

/// A greater power of 256 is a greater number.
pub proof fn lemma_pow256_grows(less: nat, more: nat)
    requires
        less <= more,
    ensures
        pow256(less) <= pow256(more),
        pow256(less) >= 1,
    decreases more,
{
    if less < more {
        lemma_pow256_grows(less, (more - 1) as nat);
    } else if less > 0 {
        lemma_pow256_grows((less - 1) as nat, (less - 1) as nat);
    }
}

/// An instruction of generated code.
#[derive(Debug, Clone, Copy)]
pub enum Op {
    Push(Reg),
    Pop(Reg),
    MovRbpRsp,
    MovRspRbp,
    AlignRsp,
    SubRsp128,
    Movabs(Reg, u64),
    CallRax,
    LoadDl,
    StoreDl,
    MovEcx(u64),
    AddEcx(i32),
    MovEsiEcx,
    LeaRax(i32),
    AddDl(u8),
    MovDl(u8),
    CmpDl(u8),
    MovDlAl,
    MovDilDl,
    Je(i32),
    Jmp(i32),
    Ret,
}

/// The model of an instruction.
pub open spec fn ins_of(op: Op) -> Ins {
    match op {
        Op::Push(r) => Ins::Push(r),
        Op::Pop(r) => Ins::Pop(r),
        Op::MovRbpRsp => Ins::MovRbpRsp,
        Op::MovRspRbp => Ins::MovRspRbp,
        Op::AlignRsp => Ins::AlignRsp,
        Op::SubRsp128 => Ins::SubRsp128,
        Op::Movabs(r, number) => Ins::Movabs(r, number as int),
        Op::CallRax => Ins::CallRax,
        Op::LoadDl => Ins::LoadDl,
        Op::StoreDl => Ins::StoreDl,
        Op::MovEcx(number) => Ins::MovEcx(number as int),
        Op::AddEcx(number) => Ins::AddEcx(number as int),
        Op::MovEsiEcx => Ins::MovEsiEcx,
        Op::LeaRax(number) => Ins::LeaRax(number as int),
        Op::AddDl(byte) => Ins::AddDl(byte),
        Op::MovDl(byte) => Ins::MovDl(byte),
        Op::CmpDl(byte) => Ins::CmpDl(byte),
        Op::MovDlAl => Ins::MovDlAl,
        Op::MovDilDl => Ins::MovDilDl,
        Op::Je(number) => Ins::Je(number as int),
        Op::Jmp(number) => Ins::Jmp(number as int),
        Op::Ret => Ins::Ret,
    }
}

/// Whether the code holds the byte `byte` at `at`.
fn has_byte(code: &[u8], at: usize, byte: u8) -> (held: bool)
    ensures
        held == has(code@, at as int, byte),
{
    at < code.len() && code[at] == byte
}

/// The signed number in the four bytes of the code from `at` on.
fn read_signed(code: &[u8], at: usize) -> (number: i32)
    requires
        at + 4 <= code@.len(),
    ensures
        number == signed_32(imm(code@, at as int, 4) as nat),
{
    let bits = read_le(code, at, 4);
    assert(pow256(4) == 0x1_0000_0000) by {
        reveal_with_fuel(pow256, 5);
    }
    if bits >= 0x8000_0000 {
        ((bits as i64) - 0x1_0000_0000) as i32
    } else {
        bits as i32
    }
}

/// The instruction that stands in the code at `at`, with its length.
pub fn decode_at(code: &[u8], at: usize) -> (found: Option<(Op, usize)>)
    ensures
        match found {
            Some((op, length)) => decode(code@, at as int) == Some((ins_of(op), length as int))
                && 1 <= length <= 10,
            None => decode(code@, at as int) is None,
        },
{
    proof {
        reveal(decode);
    }
    let len = code.len();
    if at >= len {
        return None;
    }
    let first = code[at];
    if first == 0x50 {
        Some((Op::Push(Reg::Rax), 1))
    } else if first == 0x51 {
        Some((Op::Push(Reg::Rcx), 1))
    } else if first == 0x52 {
        Some((Op::Push(Reg::Rdx), 1))
    } else if first == 0x55 {
        Some((Op::Push(Reg::Rbp), 1))
    } else if first == 0x58 {
        Some((Op::Pop(Reg::Rax), 1))
    } else if first == 0x59 {
        Some((Op::Pop(Reg::Rcx), 1))
    } else if first == 0x5a {
        Some((Op::Pop(Reg::Rdx), 1))
    } else if first == 0x5d {
        Some((Op::Pop(Reg::Rbp), 1))
    } else if first == 0xc3 {
        Some((Op::Ret, 1))
    } else if first == 0xb2 && len - at >= 2 {
        Some((Op::MovDl(code[at + 1]), 2))
    } else if first == 0xb9 && len - at >= 5 {
        Some((Op::MovEcx(read_le(code, at + 1, 4)), 5))
    } else if first == 0xe9 && len - at >= 5 {
        Some((Op::Jmp(read_signed(code, at + 1)), 5))
    } else if first == 0x0f && has_byte(code, at + 1, 0x84) && len - at >= 6 {
        Some((Op::Je(read_signed(code, at + 2)), 6))
    } else if first == 0xff && has_byte(code, at + 1, 0xd0) {
        Some((Op::CallRax, 2))
    } else if first == 0x8a && has_byte(code, at + 1, 0x10) {
        Some((Op::LoadDl, 2))
    } else if first == 0x88 && has_byte(code, at + 1, 0x10) {
        Some((Op::StoreDl, 2))
    } else if first == 0x88 && has_byte(code, at + 1, 0xc2) {
        Some((Op::MovDlAl, 2))
    } else if first == 0x89 && has_byte(code, at + 1, 0xce) {
        Some((Op::MovEsiEcx, 2))
    } else if first == 0x80 && has_byte(code, at + 1, 0xc2) && len - at >= 3 {
        Some((Op::AddDl(code[at + 2]), 3))
    } else if first == 0x80 && has_byte(code, at + 1, 0xfa) && len - at >= 3 {
        Some((Op::CmpDl(code[at + 2]), 3))
    } else if first == 0x81 && has_byte(code, at + 1, 0xc1) && len - at >= 6 {
        Some((Op::AddEcx(read_signed(code, at + 2)), 6))
    } else if first == 0x40 && has_byte(code, at + 1, 0x88) && has_byte(code, at + 2, 0xd7) {
        Some((Op::MovDilDl, 3))
    } else if first == 0x48 {
        decode_wide(code, at)
    } else {
        None
    }
}

/// The instruction that stands in the code at `at` behind the byte `0x48`.
fn decode_wide(code: &[u8], at: usize) -> (found: Option<(Op, usize)>)
    requires
        at < code@.len(),
        code@[at as int] == 0x48,
    ensures
        match found {
            Some((op, length)) => decode(code@, at as int) == Some((ins_of(op), length as int))
                && 1 <= length <= 10,
            None => decode(code@, at as int) is None,
        },
{
    proof {
        reveal(decode);
    }
    let len = code.len();
    if has_byte(code, at + 1, 0x89) && has_byte(code, at + 2, 0xe5) {
        Some((Op::MovRbpRsp, 3))
    } else if has_byte(code, at + 1, 0x89) && has_byte(code, at + 2, 0xec) {
        Some((Op::MovRspRbp, 3))
    } else if has_byte(code, at + 1, 0x83) && has_byte(code, at + 2, 0xe4) && has_byte(
        code,
        at + 3,
        0xf0,
    ) {
        Some((Op::AlignRsp, 4))
    } else if has_byte(code, at + 1, 0x81) && has_byte(code, at + 2, 0xec) && has_byte(
        code,
        at + 3,
        0x80,
    ) && has_byte(code, at + 4, 0x00) && has_byte(code, at + 5, 0x00) && has_byte(
        code,
        at + 6,
        0x00,
    ) {
        Some((Op::SubRsp128, 7))
    } else if has_byte(code, at + 1, 0xb8) && len - at >= 10 {
        Some((Op::Movabs(Reg::Rax, read_le(code, at + 2, 8)), 10))
    } else if has_byte(code, at + 1, 0xbf) && len - at >= 10 {
        Some((Op::Movabs(Reg::Rdi, read_le(code, at + 2, 8)), 10))
    } else if has_byte(code, at + 1, 0xbe) && len - at >= 10 {
        Some((Op::Movabs(Reg::Rsi, read_le(code, at + 2, 8)), 10))
    } else if has_byte(code, at + 1, 0x8d) && has_byte(code, at + 2, 0x80) && len - at >= 7 {
        Some((Op::LeaRax(read_signed(code, at + 3)), 7))
    } else {
        None
    }
}

/// Whether the emulator has room for what a register holds: for a number
/// of 64 bits without sign, or for the address of a cell that a cursor can
/// stand on.
pub open spec fn word_fits(word: Word) -> bool {
    match word {
        Word::Num(number) => 0 <= number <= u64::MAX,
        Word::Cell(index, asked) => i32::MIN <= index <= i32::MAX && asked <= u64::MAX,
        _ => true,
    }
}

/// Whether the emulator has room for the state of the processor.
pub open spec fn fits(s: Cpu) -> bool {
    &&& i64::MIN <= s.rip <= i64::MAX
    &&& 0 <= s.rsp <= u64::MAX
    &&& s.asked <= u64::MAX
    &&& word_fits(s.rax)
    &&& word_fits(s.rcx)
    &&& word_fits(s.rdx)
    &&& word_fits(s.rbp)
    &&& word_fits(s.rdi)
    &&& word_fits(s.rsi)
}

/// One instruction of the emulator: that of the processor, where the
/// emulator has room for the state behind it; else the emulator stops.
pub open spec fn emulator_next(s: Cpu, input: Option<u8>) -> (Cpu, Step) {
    let next = cpu_next(s, input);
    if fits(next.0) {
        next
    } else {
        crash(s)
    }
}

/// The steps of the emulator as a function.
pub open spec fn emulator_steps() -> spec_fn(Cpu, Option<u8>) -> (Cpu, Step) {
    |state: Cpu, input: Option<u8>| emulator_next(state, input)
}

/// The processor of the model, with a tape of type `T`.
#[derive(Debug)]
pub struct Emulator<T> {
    code: Vec<u8>,
    rip: i64,
    rax: Value,
    rcx: Value,
    rdx: Value,
    rbp: Value,
    rdi: Value,
    rsi: Value,
    rsp: u64,
    entry_rsp: u64,
    stack: Vec<Slot>,
    zero: bool,
    tape_addr: u64,
    callbacks: Callbacks,
    grows: bool,
    asked: u64,
    memory: T,
}

impl<T: BfMemory> Emulator<T> {
    /// The processor as it enters `code`, with the stack pointer at `rsp`.
    /// The tape stands for the tape at the address whose bytes are
    /// `bf_memory_addr`; `grows` says whether it is one that grows.
    pub fn new(
        code: Vec<u8>,
        bf_memory: T,
        bf_memory_addr: [u8; 8],
        callbacks: Callbacks,
        grows: bool,
        rsp: u64,
    ) -> (emulator: Emulator<T>)
        requires
            bf_memory.wf(),
            code@.len() <= 0x4000_0000_0000_0000,
        ensures
            emulator.wf(),
            emulator.state() == cpu_entering(
                code@,
                Setting { addr: bf_memory_addr@, callbacks, grows },
                tape_reach(bf_memory),
                tape_cells(bf_memory),
                rsp as int,
            ),
    {
        let tape_addr = read_le(bf_memory_addr.as_slice(), 0, 8);
        assert(bf_memory_addr@.subrange(0, 8) =~= bf_memory_addr@);
        let emulator = Emulator {
            code,
            rip: 0,
            rax: Value::Junk,
            rcx: Value::Junk,
            rdx: Value::Junk,
            rbp: Value::Junk,
            rdi: Value::Junk,
            rsi: Value::Junk,
            rsp,
            entry_rsp: rsp,
            stack: Vec::new(),
            zero: false,
            tape_addr,
            callbacks,
            grows,
            asked: 0,
            memory: bf_memory,
        };
        assert(emulator.state() =~= cpu_entering(
            code@,
            Setting { addr: bf_memory_addr@, callbacks, grows },
            tape_reach(bf_memory),
            tape_cells(bf_memory),
            rsp as int,
        ));
        emulator
    }

    /// The tape.
    pub fn memory(&self) -> (memory: &T)
        ensures
            forall|index: int| #[trigger] memory.cell(index) == self.state().cells[index],
    {
        &self.memory
    }

    /// What the register holds.
    fn get(&self, r: Reg) -> (value: Value)
        ensures
            word_of(value) == reg(self.state(), r),
    {
        match r {
            Reg::Rax => self.rax,
            Reg::Rcx => self.rcx,
            Reg::Rdx => self.rdx,
            Reg::Rbp => self.rbp,
            Reg::Rdi => self.rdi,
            Reg::Rsi => self.rsi,
        }
    }

    /// Puts `value` into the register.
    fn set(&mut self, r: Reg, value: Value)
        requires
            old(self).wf(),
        ensures
            final(self).wf(),
            final(self).state() == with_reg(old(self).state(), r, word_of(value)),
    {
        match r {
            Reg::Rax => {
                self.rax = value;
            },
            Reg::Rcx => {
                self.rcx = value;
            },
            Reg::Rdx => {
                self.rdx = value;
            },
            Reg::Rbp => {
                self.rbp = value;
            },
            Reg::Rdi => {
                self.rdi = value;
            },
            Reg::Rsi => {
                self.rsi = value;
            },
        }
        assert(self.state() =~= with_reg(old(self).state(), r, word_of(value)));
    }
}

impl<T: BfMemory> Emulator<T> {
    /// The emulator has room for its own state, and its code is of a length
    /// that leaves room for the instruction pointer.
    pub proof fn lemma_state_fits(&self)
        ensures
            fits(self.state()),
            self.wf() ==> self.state().code.len() <= 0x4000_0000_0000_0000,
    {
    }

    /// The number in the low 32 bits of `number`, as a signed one.
    fn low_32_of(number: u64) -> (index: i32)
        ensures
            index == low_32(number as int),
    {
        let low = number % 0x1_0000_0000;
        if low >= 0x8000_0000 {
            ((low as i64) - 0x1_0000_0000) as i32
        } else {
            low as i32
        }
    }

    /// Does what a callee's return does to the processor.
    fn finish_call(&mut self, result: Value, asked: u64)
        requires
            old(self).wf(),
            old(self).rip < 0x4000_0000_0000_0000,
        ensures
            final(self).wf(),
            final(self).state() == returned(
                Cpu { asked: asked as nat, ..old(self).state() },
                word_of(result),
                2,
            ),
    {
        self.asked = asked;
        self.rip = self.rip + 2;
        self.rax = result;
        self.rcx = Value::Junk;
        self.rdx = Value::Junk;
        self.rdi = Value::Junk;
        self.rsi = Value::Junk;
        stack_cut(&mut self.stack, self.rsp);
        assert(self.state() =~= returned(
            Cpu { asked: asked as nat, ..old(self).state() },
            word_of(result),
            2,
        ));
    }

    /// Does what a call of the function at the address in `rax` does.
    fn do_call(&mut self, input: Option<u8>) -> (res: Option<Step>)
        requires
            old(self).wf(),
            0 <= old(self).rip < 0x4000_0000_0000_0000,
        ensures
            final(self).wf(),
            match res {
                Some(step) => {
                    &&& final(self).state() == call(old(self).state(), input, 2).0
                    &&& step == call(old(self).state(), input, 2).1
                },
                None => {
                    &&& !fits(call(old(self).state(), input, 2).0)
                    &&& final(self).state() == old(self).state()
                },
            },
    {
        if self.rsp % 16 != 0 {
            return Some(Step::Fault(Fault::Crash));
        }
        let target = match self.rax {
            Value::Num(target) => target,
            _ => {
                return Some(Step::Fault(Fault::Crash));
            },
        };
        if target == self.callbacks.get_ref as u64 {
            match (self.rdi, self.rsi) {
                (Value::Num(tape), Value::Num(number)) => {
                    let index = Self::low_32_of(number);
                    if tape != self.tape_addr {
                        Some(Step::Fault(Fault::Crash))
                    } else if !self.memory.can_reach(index) {
                        Some(Step::Fault(Fault::OutOfTape))
                    } else {
                        let asked = if self.grows {
                            if self.asked == u64::MAX {
                                return None;
                            }
                            self.asked + 1
                        } else {
                            self.asked
                        };
                        self.finish_call(Value::Cell(index, asked), asked);
                        Some(Step::More)
                    }
                },
                _ => Some(Step::Fault(Fault::Crash)),
            }
        } else if target == self.callbacks.fetch_u8 as u64 {
            match input {
                Some(byte) => {
                    self.finish_call(Value::Low8(byte), self.asked);
                    Some(Step::More)
                },
                None => Some(Step::Input),
            }
        } else if target == self.callbacks.print_u8 as u64 {
            match self.rdi {
                Value::Low8(byte) => {
                    self.finish_call(Value::Junk, self.asked);
                    Some(Step::Output(byte))
                },
                _ => Some(Step::Fault(Fault::Crash)),
            }
        } else {
            Some(Step::Fault(Fault::Crash))
        }
    }

    /// Reads or writes the cell that `rax` points at.
    fn access(&mut self, store: bool, length: usize) -> (res: Step)
        requires
            old(self).wf(),
            0 <= old(self).rip < 0x4000_0000_0000_0000,
            1 <= length <= 10,
        ensures
            final(self).wf(),
            final(self).state() == execute(
                old(self).state(),
                if store {
                    Ins::StoreDl
                } else {
                    Ins::LoadDl
                },
                length as int,
                None,
            ).0,
            res == execute(
                old(self).state(),
                if store {
                    Ins::StoreDl
                } else {
                    Ins::LoadDl
                },
                length as int,
                None,
            ).1,
    {
        let ghost before = self.state();
        let (index, asked) = match self.rax {
            Value::Cell(index, asked) => (index, asked),
            _ => {
                return Step::Fault(Fault::Crash);
            },
        };
        let byte = match self.rdx {
            Value::Low8(byte) => Some(byte),
            _ => None,
        };
        if store && byte.is_none() {
            return Step::Fault(Fault::Crash);
        }
        if asked != self.asked {
            return Step::Fault(Fault::Crash);
        }
        if !self.memory.can_reach(index) {
            return Step::Fault(Fault::OutOfTape);
        }
        let cell = self.memory.get_ref(index);
        if store {
            *cell = byte.unwrap();
        } else {
            self.rdx = Value::Low8(*cell);
        }
        self.rip = self.rip + length as i64;
        assert(tape_reach(self.memory) =~= before.reach);
        if store {
            assert(tape_cells(self.memory) =~= before.cells.insert(index as int, byte.unwrap()));
        } else {
            assert(tape_cells(self.memory) =~= before.cells);
        }
        assert(self.state() =~= execute(
            before,
            if store {
                Ins::StoreDl
            } else {
                Ins::LoadDl
            },
            length as int,
            None,
        ).0);
        Step::More
    }

    /// Runs one instruction of the processor. The result is `None`, and
    /// nothing changes, where the emulator has no room for the state behind
    /// the instruction.
    #[verifier::rlimit(60)]
    pub fn advance(&mut self, input: Option<u8>) -> (res: Option<Step>)
        requires
            old(self).wf(),
        ensures
            final(self).wf(),
            match res {
                Some(step) => {
                    &&& final(self).state() == cpu_next(old(self).state(), input).0
                    &&& step == cpu_next(old(self).state(), input).1
                },
                None => {
                    &&& !fits(cpu_next(old(self).state(), input).0)
                    &&& final(self).state() == old(self).state()
                },
            },
    {
        let ghost before = self.state();
        let len = self.code.len();
        if self.rip < 0 || self.rip as u64 >= len as u64 {
            proof {
                reveal(decode);
            }
            return Some(Step::Fault(Fault::Crash));
        }
        let at = self.rip as usize;
        let (op, length) = match decode_at(self.code.as_slice(), at) {
            Some(found) => found,
            None => {
                return Some(Step::Fault(Fault::Crash));
            },
        };
        let next = self.rip + length as i64;
        let ghost ins = ins_of(op);
        assert(cpu_next(before, input) == execute(before, ins, length as int, input));
        match op {
            Op::Push(r) => {
                if self.rsp < 8 {
                    return None;
                }
                let value = self.get(r);
                stack_put(&mut self.stack, self.rsp - 8, value);
                self.rsp = self.rsp - 8;
                self.rip = next;
                assert(self.state() =~= execute(before, ins, length as int, input).0);
                Some(Step::More)
            },
            Op::Pop(r) => {
                match stack_get(&self.stack, self.rsp) {
                    Some(value) => {
                        if self.rsp > u64::MAX - 8 {
                            return None;
                        }
                        self.rsp = self.rsp + 8;
                        self.rip = next;
                        self.set(r, value);
                        assert(self.state() =~= execute(before, ins, length as int, input).0);
                        Some(Step::More)
                    },
                    None => Some(Step::Fault(Fault::Crash)),
                }
            },
            Op::MovRbpRsp => {
                self.rbp = Value::Num(self.rsp);
                self.rip = next;
                assert(self.state() =~= execute(before, ins, length as int, input).0);
                Some(Step::More)
            },
            Op::MovRspRbp => {
                match self.rbp {
                    Value::Num(number) => {
                        self.rsp = number;
                        self.rip = next;
                        assert(self.state() =~= execute(before, ins, length as int, input).0);
                        Some(Step::More)
                    },
                    _ => Some(Step::Fault(Fault::Crash)),
                }
            },
            Op::AlignRsp => {
                self.rsp = self.rsp - self.rsp % 16;
                self.rip = next;
                assert(self.state() =~= execute(before, ins, length as int, input).0);
                Some(Step::More)
            },
            Op::SubRsp128 => {
                if self.rsp < 128 {
                    return None;
                }
                self.rsp = self.rsp - 128;
                self.rip = next;
                assert(self.state() =~= execute(before, ins, length as int, input).0);
                Some(Step::More)
            },
            Op::Movabs(r, number) => {
                self.rip = next;
                self.set(r, Value::Num(number));
                assert(self.state() =~= execute(before, ins, length as int, input).0);
                Some(Step::More)
            },
            Op::CallRax => {
                proof {
                    reveal(decode);
                }
                self.do_call(input)
            },
            Op::LoadDl => Some(self.access(false, length)),
            Op::StoreDl => Some(self.access(true, length)),
            Op::MovEcx(number) => {
                self.rcx = Value::Num(number);
                self.rip = next;
                assert(self.state() =~= execute(before, ins, length as int, input).0);
                Some(Step::More)
            },
            Op::AddEcx(number) => {
                match self.rcx {
                    Value::Num(old) => {
                        let low = old % 0x1_0000_0000;
                        let add = (number as i64 + 0x1_0000_0000) as u64;
                        let sum = (low + add) % 0x1_0000_0000;
                        assert(sum == (old + number) % 0x1_0000_0000);
                        self.rcx = Value::Num(sum);
                        self.rip = next;
                        assert(self.state() =~= execute(before, ins, length as int, input).0);
                        Some(Step::More)
                    },
                    _ => Some(Step::Fault(Fault::Crash)),
                }
            },
            Op::MovEsiEcx => {
                match self.rcx {
                    Value::Num(old) => {
                        self.rsi = Value::Num(old % 0x1_0000_0000);
                        self.rip = next;
                        assert(self.state() =~= execute(before, ins, length as int, input).0);
                        Some(Step::More)
                    },
                    _ => Some(Step::Fault(Fault::Crash)),
                }
            },
            Op::LeaRax(number) => {
                match self.rax {
                    Value::Cell(index, asked) => {
                        match index.checked_add(number) {
                            Some(moved) => {
                                self.rax = Value::Cell(moved, asked);
                                self.rip = next;
                                assert(self.state() =~= execute(
                                    before,
                                    ins,
                                    length as int,
                                    input,
                                ).0);
                                Some(Step::More)
                            },
                            None => None,
                        }
                    },
                    _ => Some(Step::Fault(Fault::Crash)),
                }
            },
            Op::AddDl(byte) => {
                match self.rdx {
                    Value::Low8(old) => {
                        self.rdx = Value::Low8(old.wrapping_add(byte));
                        self.rip = next;
                        assert(self.state() =~= execute(before, ins, length as int, input).0);
                        Some(Step::More)
                    },
                    _ => Some(Step::Fault(Fault::Crash)),
                }
            },
            Op::MovDl(byte) => {
                self.rdx = Value::Low8(byte);
                self.rip = next;
                assert(self.state() =~= execute(before, ins, length as int, input).0);
                Some(Step::More)
            },
            Op::CmpDl(byte) => {
                match self.rdx {
                    Value::Low8(old) => {
                        self.zero = old == byte;
                        self.rip = next;
                        assert(self.state() =~= execute(before, ins, length as int, input).0);
                        Some(Step::More)
                    },
                    _ => Some(Step::Fault(Fault::Crash)),
                }
            },
            Op::MovDlAl => {
                match self.rax {
                    Value::Low8(byte) => {
                        self.rdx = Value::Low8(byte);
                        self.rip = next;
                        assert(self.state() =~= execute(before, ins, length as int, input).0);
                        Some(Step::More)
                    },
                    _ => Some(Step::Fault(Fault::Crash)),
                }
            },
            Op::MovDilDl => {
                match self.rdx {
                    Value::Low8(byte) => {
                        self.rdi = Value::Low8(byte);
                        self.rip = next;
                        assert(self.state() =~= execute(before, ins, length as int, input).0);
                        Some(Step::More)
                    },
                    _ => Some(Step::Fault(Fault::Crash)),
                }
            },
            Op::Je(number) => {
                if self.zero {
                    self.rip = next + number as i64;
                } else {
                    self.rip = next;
                }
                assert(self.state() =~= execute(before, ins, length as int, input).0);
                Some(Step::More)
            },
            Op::Jmp(number) => {
                self.rip = next + number as i64;
                assert(self.state() =~= execute(before, ins, length as int, input).0);
                Some(Step::More)
            },
            Op::Ret => {
                if self.rsp == self.entry_rsp {
                    Some(Step::Done)
                } else {
                    Some(Step::Fault(Fault::Crash))
                }
            },
        }
    }

    /// Runs the code on `input` for at most `max_steps` instructions, from
    /// where the processor stands.
    pub fn start(&mut self, input: &[u8], max_steps: u64) -> (run: Run)
        requires
            old(self).wf(),
        ensures
            final(self).wf(),
            final(self).state() == run_spec(
                emulator_steps(),
                old(self).state(),
                input@,
                max_steps as nat,
            ).state,
            run.output@ == run_spec(
                emulator_steps(),
                old(self).state(),
                input@,
                max_steps as nat,
            ).output,
            run.consumed == run_spec(
                emulator_steps(),
                old(self).state(),
                input@,
                max_steps as nat,
            ).consumed,
            run.end == run_spec(emulator_steps(), old(self).state(), input@, max_steps as nat).end,
    {
        run(self, input, max_steps)
    }
}

impl<T: BfMemory> Machine for Emulator<T> {
    type State = Cpu;

    closed spec fn wf(&self) -> bool {
        &&& self.memory.wf()
        &&& self.code@.len() <= 0x4000_0000_0000_0000
    }

    closed spec fn state(&self) -> Cpu {
        Cpu {
            code: self.code@,
            rip: self.rip as int,
            rax: word_of(self.rax),
            rcx: word_of(self.rcx),
            rdx: word_of(self.rdx),
            rbp: word_of(self.rbp),
            rdi: word_of(self.rdi),
            rsi: word_of(self.rsi),
            rsp: self.rsp as int,
            entry_rsp: self.entry_rsp as int,
            stack: stack_of(self.stack@),
            zero: self.zero,
            tape_addr: self.tape_addr as int,
            callbacks: self.callbacks,
            grows: self.grows,
            asked: self.asked as nat,
            reach: tape_reach(self.memory),
            cells: tape_cells(self.memory),
        }
    }

    open spec fn steps() -> spec_fn(Cpu, Option<u8>) -> (Cpu, Step) {
        emulator_steps()
    }

    fn step(&mut self, input: Option<u8>) -> (step: Step) {
        let res = self.advance(input);
        proof {
            self.lemma_state_fits();
        }
        match res {
            Some(step) => step,
            None => Step::Fault(Fault::Crash),
        }
    }
}

/// No instruction changes the code.
pub proof fn lemma_code_is_kept(s: Cpu, input: Option<u8>)
    ensures
        cpu_next(s, input).0.code == s.code,
{
}

/// The processor asks for input only at a call of the function that reads,
/// and given a byte it returns from that call.
pub proof fn lemma_input_is_a_call(s: Cpu, byte: u8)
    requires
        cpu_next(s, None).1 == Step::Input,
    ensures
        cpu_next(s, None).0 == s,
        cpu_next(s, Some(byte)) == (returned(s, Word::Low8(byte), 2), Step::More),
        0 <= s.rip < s.code.len(),
{
    reveal(decode);
}

/// Where a run of the emulator does not end in a crash, the emulator had
/// room for every state, and the processor of the model runs the same.
pub proof fn lemma_emulator_runs_as_the_processor(state: Cpu, input: Seq<u8>, fuel: nat)
    requires
        fits(state),
        state.code.len() <= 0x4000_0000_0000_0000,
        run_spec(emulator_steps(), state, input, fuel).end != Step::Fault(Fault::Crash),
    ensures
        run_spec(cpu_steps(), state, input, fuel) == run_spec(
            emulator_steps(),
            state,
            input,
            fuel,
        ),
    decreases fuel,
{
    if fuel > 0 {
        let (after, step) = cpu_next(state, None);
        lemma_code_is_kept(state, None);
        assert(emulator_steps()(state, None) == emulator_next(state, None));
        assert(cpu_steps()(state, None) == cpu_next(state, None));
        assert(fits(after));
        match step {
            Step::More | Step::Output(_) => {
                lemma_emulator_runs_as_the_processor(after, input, (fuel - 1) as nat);
            },
            Step::Input => {
                if input.len() > 0 {
                    lemma_input_is_a_call(state, input[0]);
                    let then = cpu_next(after, Some(input[0])).0;
                    assert(fits(then));
                    assert(emulator_steps()(after, Some(input[0])) == emulator_next(
                        after,
                        Some(input[0]),
                    ));
                    assert(cpu_steps()(after, Some(input[0])) == cpu_next(after, Some(input[0])));
                    lemma_emulator_runs_as_the_processor(
                        then,
                        input.drop_first(),
                        (fuel - 1) as nat,
                    );
                }
            },
            _ => {},
        }
    }
}

} // verus!
