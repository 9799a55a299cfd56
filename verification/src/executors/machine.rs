//! A model of the processor, as far as generated code uses it: the
//! instructions that the code generator emits, what each does to the
//! registers, the stack and the tape, and what the functions do that the
//! code calls back. The model knows of a register's 64 bits only what the
//! code relies on, and takes the address of a tape cell for the cell's index.

use vstd::prelude::*;
use crate::executors::{Fault, Step};
use crate::executors::bf_recompiler::{Callbacks, le_value, signed_32};

verus! {

/// What a register or a slot of the stack holds, as far as the model knows.
pub enum Word {
    /// Nothing that the model knows.
    Junk,
    /// A number, all 64 bits of it.
    Num(int),
    /// A byte in the low 8 bits; the other bits are not known.
    Low8(u8),
    /// The address of the tape cell with this index, as the tape handed it
    /// out when it had been asked for cells this many times.
    Cell(int, nat),
}

/// The registers that generated code names.
#[derive(Debug, Clone, Copy, PartialEq, Eq, Structural)]
pub enum Reg {
    Rax,
    Rcx,
    Rdx,
    Rbp,
    Rdi,
    Rsi,
}

/// The instructions that generated code is made of.
pub enum Ins {
    /// `push r`
    Push(Reg),
    /// `pop r`
    Pop(Reg),
    /// `mov rbp, rsp`
    MovRbpRsp,
    /// `mov rsp, rbp`
    MovRspRbp,
    /// `and rsp, -16`
    AlignRsp,
    /// `sub rsp, 128`
    SubRsp128,
    /// `movabs r, imm64`
    Movabs(Reg, int),
    /// `call rax`
    CallRax,
    /// `mov dl, [rax]`
    LoadDl,
    /// `mov [rax], dl`
    StoreDl,
    /// `mov ecx, imm32`
    MovEcx(int),
    /// `add ecx, imm32`
    AddEcx(int),
    /// `mov esi, ecx`
    MovEsiEcx,
    /// `lea rax, [rax + disp32]`
    LeaRax(int),
    /// `add dl, imm8`
    AddDl(u8),
    /// `mov dl, imm8`
    MovDl(u8),
    /// `cmp dl, imm8`
    CmpDl(u8),
    /// `mov dl, al`
    MovDlAl,
    /// `mov dil, dl`
    MovDilDl,
    /// `je rel32`
    Je(int),
    /// `jmp rel32`
    Jmp(int),
    /// `ret`
    Ret,
}

/// Whether the code holds the byte `byte` at `at`.
pub open spec fn has(code: Seq<u8>, at: int, byte: u8) -> bool {
    0 <= at < code.len() && code[at] == byte
}

/// The number in the `count` bytes of the code from `at` on, lowest first.
pub open spec fn imm(code: Seq<u8>, at: int, count: int) -> int {
    le_value(code.subrange(at, at + count)) as int
}

/// The instruction that stands in the code at `at`, with its length, where
/// the bytes there are one of the instructions of the model.
#[verifier::opaque]
pub open spec fn decode(code: Seq<u8>, at: int) -> Option<(Ins, int)> {
    if has(code, at, 0x50) {
        Some((Ins::Push(Reg::Rax), 1))
    } else if has(code, at, 0x51) {
        Some((Ins::Push(Reg::Rcx), 1))
    } else if has(code, at, 0x52) {
        Some((Ins::Push(Reg::Rdx), 1))
    } else if has(code, at, 0x55) {
        Some((Ins::Push(Reg::Rbp), 1))
    } else if has(code, at, 0x58) {
        Some((Ins::Pop(Reg::Rax), 1))
    } else if has(code, at, 0x59) {
        Some((Ins::Pop(Reg::Rcx), 1))
    } else if has(code, at, 0x5a) {
        Some((Ins::Pop(Reg::Rdx), 1))
    } else if has(code, at, 0x5d) {
        Some((Ins::Pop(Reg::Rbp), 1))
    } else if has(code, at, 0xc3) {
        Some((Ins::Ret, 1))
    } else if has(code, at, 0xb2) && at + 2 <= code.len() {
        Some((Ins::MovDl(code[at + 1]), 2))
    } else if has(code, at, 0xb9) && at + 5 <= code.len() {
        Some((Ins::MovEcx(imm(code, at + 1, 4)), 5))
    } else if has(code, at, 0xe9) && at + 5 <= code.len() {
        Some((Ins::Jmp(signed_32(imm(code, at + 1, 4) as nat)), 5))
    } else if has(code, at, 0x0f) && has(code, at + 1, 0x84) && at + 6 <= code.len() {
        Some((Ins::Je(signed_32(imm(code, at + 2, 4) as nat)), 6))
    } else if has(code, at, 0xff) && has(code, at + 1, 0xd0) {
        Some((Ins::CallRax, 2))
    } else if has(code, at, 0x8a) && has(code, at + 1, 0x10) {
        Some((Ins::LoadDl, 2))
    } else if has(code, at, 0x88) && has(code, at + 1, 0x10) {
        Some((Ins::StoreDl, 2))
    } else if has(code, at, 0x88) && has(code, at + 1, 0xc2) {
        Some((Ins::MovDlAl, 2))
    } else if has(code, at, 0x89) && has(code, at + 1, 0xce) {
        Some((Ins::MovEsiEcx, 2))
    } else if has(code, at, 0x80) && has(code, at + 1, 0xc2) && at + 3 <= code.len() {
        Some((Ins::AddDl(code[at + 2]), 3))
    } else if has(code, at, 0x80) && has(code, at + 1, 0xfa) && at + 3 <= code.len() {
        Some((Ins::CmpDl(code[at + 2]), 3))
    } else if has(code, at, 0x81) && has(code, at + 1, 0xc1) && at + 6 <= code.len() {
        Some((Ins::AddEcx(signed_32(imm(code, at + 2, 4) as nat)), 6))
    } else if has(code, at, 0x40) && has(code, at + 1, 0x88) && has(code, at + 2, 0xd7) {
        Some((Ins::MovDilDl, 3))
    } else if has(code, at, 0x48) && has(code, at + 1, 0x89) && has(code, at + 2, 0xe5) {
        Some((Ins::MovRbpRsp, 3))
    } else if has(code, at, 0x48) && has(code, at + 1, 0x89) && has(code, at + 2, 0xec) {
        Some((Ins::MovRspRbp, 3))
    } else if has(code, at, 0x48) && has(code, at + 1, 0x83) && has(code, at + 2, 0xe4) && has(
        code,
        at + 3,
        0xf0,
    ) {
        Some((Ins::AlignRsp, 4))
    } else if has(code, at, 0x48) && has(code, at + 1, 0x81) && has(code, at + 2, 0xec) && has(
        code,
        at + 3,
        0x80,
    ) && has(code, at + 4, 0x00) && has(code, at + 5, 0x00) && has(code, at + 6, 0x00) {
        Some((Ins::SubRsp128, 7))
    } else if has(code, at, 0x48) && has(code, at + 1, 0xb8) && at + 10 <= code.len() {
        Some((Ins::Movabs(Reg::Rax, imm(code, at + 2, 8)), 10))
    } else if has(code, at, 0x48) && has(code, at + 1, 0xbf) && at + 10 <= code.len() {
        Some((Ins::Movabs(Reg::Rdi, imm(code, at + 2, 8)), 10))
    } else if has(code, at, 0x48) && has(code, at + 1, 0xbe) && at + 10 <= code.len() {
        Some((Ins::Movabs(Reg::Rsi, imm(code, at + 2, 8)), 10))
    } else if has(code, at, 0x48) && has(code, at + 1, 0x8d) && has(code, at + 2, 0x80) && at + 7
        <= code.len() {
        Some((Ins::LeaRax(signed_32(imm(code, at + 3, 4) as nat)), 7))
    } else {
        None
    }
}

/// The processor with the code it runs, its stack, and the tape and the
/// functions that the code calls back.
#[verifier::ext_equal]
pub struct Cpu {
    /// The code.
    pub code: Seq<u8>,
    /// The offset in the code of the next instruction.
    pub rip: int,
    pub rax: Word,
    pub rcx: Word,
    pub rdx: Word,
    pub rbp: Word,
    pub rdi: Word,
    pub rsi: Word,
    /// The stack pointer.
    pub rsp: int,
    /// The stack pointer when the code was entered.
    pub entry_rsp: int,
    /// The stack: what was pushed, by address.
    pub stack: Map<int, Word>,
    /// Whether the last comparison found equal values.
    pub zero: bool,
    /// The address of the tape.
    pub tape_addr: int,
    /// The addresses of the functions that the code calls back.
    pub callbacks: Callbacks,
    /// Whether the tape may move its cells when it is asked for one, so that
    /// the addresses it handed out before are no longer good.
    pub grows: bool,
    /// How often the tape was asked for a cell.
    pub asked: nat,
    /// The cells that the tape can hand out.
    pub reach: Set<int>,
    /// What each cell of the tape holds.
    pub cells: Map<int, u8>,
}

/// What the register holds.
pub open spec fn reg(s: Cpu, r: Reg) -> Word {
    match r {
        Reg::Rax => s.rax,
        Reg::Rcx => s.rcx,
        Reg::Rdx => s.rdx,
        Reg::Rbp => s.rbp,
        Reg::Rdi => s.rdi,
        Reg::Rsi => s.rsi,
    }
}

/// The processor with `word` in the register.
pub open spec fn with_reg(s: Cpu, r: Reg, word: Word) -> Cpu {
    match r {
        Reg::Rax => Cpu { rax: word, ..s },
        Reg::Rcx => Cpu { rcx: word, ..s },
        Reg::Rdx => Cpu { rdx: word, ..s },
        Reg::Rbp => Cpu { rbp: word, ..s },
        Reg::Rdi => Cpu { rdi: word, ..s },
        Reg::Rsi => Cpu { rsi: word, ..s },
    }
}

/// The number in the low 32 bits of a number, as a signed one.
pub open spec fn low_32(number: int) -> int {
    signed_32((number % 0x1_0000_0000) as nat)
}

/// The processor that cannot go on.
pub open spec fn crash(s: Cpu) -> (Cpu, Step) {
    (s, Step::Fault(Fault::Crash))
}

/// The processor after a function that it called has returned `result`:
/// the registers that a callee may use hold nothing known any more, nor does
/// the stack below the stack pointer.
pub open spec fn returned(s: Cpu, result: Word, length: int) -> Cpu {
    Cpu {
        rip: s.rip + length,
        rax: result,
        rcx: Word::Junk,
        rdx: Word::Junk,
        rdi: Word::Junk,
        rsi: Word::Junk,
        stack: s.stack.restrict(Set::new(|addr: int| addr >= s.rsp)),
        ..s
    }
}

/// What a call of the function at the address in `rax` does. The stack has
/// to be aligned to 16 bytes. The function that hands out cells takes the
/// tape in `rdi` and the index in `esi`; the function that writes takes the
/// byte in `dil`; the function that reads returns the byte in `al`.
pub open spec fn call(s: Cpu, input: Option<u8>, length: int) -> (Cpu, Step) {
    if s.rsp % 16 != 0 {
        crash(s)
    } else if s.rax == Word::Num(s.callbacks.get_ref as int) {
        match (s.rdi, s.rsi) {
            (Word::Num(tape), Word::Num(number)) => {
                let index = low_32(number);
                if tape != s.tape_addr {
                    crash(s)
                } else if !s.reach.contains(index) {
                    (s, Step::Fault(Fault::OutOfTape))
                } else {
                    let asked = if s.grows {
                        s.asked + 1
                    } else {
                        s.asked
                    };
                    (
                        returned(Cpu { asked, ..s }, Word::Cell(index, asked), length),
                        Step::More,
                    )
                }
            },
            _ => crash(s),
        }
    } else if s.rax == Word::Num(s.callbacks.fetch_u8 as int) {
        match input {
            Some(byte) => (returned(s, Word::Low8(byte), length), Step::More),
            None => (s, Step::Input),
        }
    } else if s.rax == Word::Num(s.callbacks.print_u8 as int) {
        match s.rdi {
            Word::Low8(byte) => (returned(s, Word::Junk, length), Step::Output(byte)),
            _ => crash(s),
        }
    } else {
        crash(s)
    }
}

/// What the instruction `ins` of length `length` does.
pub open spec fn execute(s: Cpu, ins: Ins, length: int, input: Option<u8>) -> (Cpu, Step) {
    let on = Cpu { rip: s.rip + length, ..s };
    match ins {
        Ins::Push(r) => (
            Cpu { rsp: s.rsp - 8, stack: s.stack.insert(s.rsp - 8, reg(s, r)), ..on },
            Step::More,
        ),
        Ins::Pop(r) => if s.stack.dom().contains(s.rsp) {
            (with_reg(Cpu { rsp: s.rsp + 8, ..on }, r, s.stack[s.rsp]), Step::More)
        } else {
            crash(s)
        },
        Ins::MovRbpRsp => (Cpu { rbp: Word::Num(s.rsp), ..on }, Step::More),
        Ins::MovRspRbp => match s.rbp {
            Word::Num(number) => (Cpu { rsp: number, ..on }, Step::More),
            _ => crash(s),
        },
        Ins::AlignRsp => (Cpu { rsp: s.rsp - s.rsp % 16, ..on }, Step::More),
        Ins::SubRsp128 => (Cpu { rsp: s.rsp - 128, ..on }, Step::More),
        Ins::Movabs(r, number) => (with_reg(on, r, Word::Num(number)), Step::More),
        Ins::CallRax => call(s, input, length),
        Ins::LoadDl => match s.rax {
            Word::Cell(index, asked) => if asked != s.asked {
                crash(s)
            } else if !s.reach.contains(index) {
                (s, Step::Fault(Fault::OutOfTape))
            } else {
                (Cpu { rdx: Word::Low8(s.cells[index]), ..on }, Step::More)
            },
            _ => crash(s),
        },
        Ins::StoreDl => match (s.rax, s.rdx) {
            (Word::Cell(index, asked), Word::Low8(byte)) => if asked != s.asked {
                crash(s)
            } else if !s.reach.contains(index) {
                (s, Step::Fault(Fault::OutOfTape))
            } else {
                (Cpu { cells: s.cells.insert(index, byte), ..on }, Step::More)
            },
            _ => crash(s),
        },
        Ins::MovEcx(number) => (Cpu { rcx: Word::Num(number), ..on }, Step::More),
        Ins::AddEcx(number) => match s.rcx {
            Word::Num(old) => (
                Cpu { rcx: Word::Num((old + number) % 0x1_0000_0000), ..on },
                Step::More,
            ),
            _ => crash(s),
        },
        Ins::MovEsiEcx => match s.rcx {
            Word::Num(old) => (
                Cpu { rsi: Word::Num(old % 0x1_0000_0000), ..on },
                Step::More,
            ),
            _ => crash(s),
        },
        Ins::LeaRax(number) => match s.rax {
            Word::Cell(index, asked) => (
                Cpu { rax: Word::Cell(index + number, asked), ..on },
                Step::More,
            ),
            _ => crash(s),
        },
        Ins::AddDl(byte) => match s.rdx {
            Word::Low8(old) => (
                Cpu { rdx: Word::Low8(old.wrapping_add(byte)), ..on },
                Step::More,
            ),
            _ => crash(s),
        },
        Ins::MovDl(byte) => (Cpu { rdx: Word::Low8(byte), ..on }, Step::More),
        Ins::CmpDl(byte) => match s.rdx {
            Word::Low8(old) => (Cpu { zero: old == byte, ..on }, Step::More),
            _ => crash(s),
        },
        Ins::MovDlAl => match s.rax {
            Word::Low8(byte) => (Cpu { rdx: Word::Low8(byte), ..on }, Step::More),
            _ => crash(s),
        },
        Ins::MovDilDl => match s.rdx {
            Word::Low8(byte) => (Cpu { rdi: Word::Low8(byte), ..on }, Step::More),
            _ => crash(s),
        },
        Ins::Je(number) => if s.zero {
            (Cpu { rip: s.rip + length + number, ..s }, Step::More)
        } else {
            (on, Step::More)
        },
        Ins::Jmp(number) => (Cpu { rip: s.rip + length + number, ..s }, Step::More),
        Ins::Ret => if s.rsp == s.entry_rsp {
            (s, Step::Done)
        } else {
            crash(s)
        },
    }
}

/// One instruction of the processor.
pub open spec fn cpu_next(s: Cpu, input: Option<u8>) -> (Cpu, Step) {
    match decode(s.code, s.rip) {
        None => crash(s),
        Some((ins, length)) => execute(s, ins, length, input),
    }
}

/// The steps of the processor as a function.
pub open spec fn cpu_steps() -> spec_fn(Cpu, Option<u8>) -> (Cpu, Step) {
    |state: Cpu, input: Option<u8>| cpu_next(state, input)
}

/// What the code is generated for: the address of the tape, the addresses
/// of the functions that the code calls back, and the kind of the tape.
pub struct Setting {
    pub addr: Seq<u8>,
    pub callbacks: Callbacks,
    pub grows: bool,
}

/// The processor as it enters the code `code` in the setting `e`, with the
/// stack pointer at `rsp` and nothing known of the registers.
pub open spec fn cpu_entering(
    code: Seq<u8>,
    e: Setting,
    reach: Set<int>,
    cells: Map<int, u8>,
    rsp: int,
) -> Cpu {
    Cpu {
        code,
        rip: 0,
        rax: Word::Junk,
        rcx: Word::Junk,
        rdx: Word::Junk,
        rbp: Word::Junk,
        rdi: Word::Junk,
        rsi: Word::Junk,
        rsp,
        entry_rsp: rsp,
        stack: Map::empty(),
        zero: false,
        tape_addr: le_value(e.addr) as int,
        callbacks: e.callbacks,
        grows: e.grows,
        asked: 0,
        reach,
        cells,
    }
}

} // verus!
