//! The x86-64 code generator: the buffer of machine bytes, the encodings
//! that are appended to it, the code of each operation, and the memory that
//! the code is put into to be run.
//!
//! While generated code runs, `dl` holds the value of the current cell,
//! `rax` the address of that cell and, on a tape that grows, `ecx` the
//! cursor. The code calls back the function that hands out cells and the
//! functions that read and write a byte.

use vstd::prelude::*;
use vstd::string::StringSliceAdditionalSpecFns;
use vstd::utf8::encode_utf8;
use crate::bf_memory::BfMemory;
use crate::executors::operations::{
    Instr, Operation, Operations, ParseError, op_view, ops_view, optimize_fix, parse,
};

verus! {

/// The `count` low bytes of `value`, lowest first.
pub open spec fn le_bytes(value: nat, count: nat) -> Seq<u8>
    decreases count,
{
    if count == 0 {
        Seq::empty()
    } else {
        seq![(value % 256) as u8] + le_bytes(value / 256, (count - 1) as nat)
    }
}

/// The number that little-endian bytes stand for.
pub open spec fn le_value(bytes: Seq<u8>) -> nat
    decreases bytes.len(),
{
    if bytes.len() == 0 {
        0
    } else {
        bytes[0] as nat + 256 * le_value(bytes.drop_first())
    }
}

/// A signed 32-bit value as the unsigned number with the same 32 bits.
pub open spec fn twos_complement_32(value: int) -> nat {
    if value >= 0 {
        value as nat
    } else {
        (value + 0x1_0000_0000) as nat
    }
}

/// The signed value of the 32 bits of an unsigned number below 2^32.
pub open spec fn signed_32(bits: nat) -> int {
    if bits >= 0x8000_0000 {
        bits - 0x1_0000_0000
    } else {
        bits as int
    }
}

/// A signed 8-bit value as the byte with the same 8 bits.
pub open spec fn twos_complement_8(value: i8) -> u8 {
    if value >= 0 {
        value as u8
    } else {
        (value + 0x100) as u8
    }
}

/// The four bytes of a signed 32-bit immediate.
pub open spec fn imm32(value: int) -> Seq<u8> {
    le_bytes(twos_complement_32(value), 4)
}

/// The eight bytes of a 64-bit immediate that holds an address.
pub open spec fn imm64(addr: usize) -> Seq<u8> {
    le_bytes(addr as nat, 8)
}

/// `push rdx; push rcx; push rbp; mov rbp, rsp; and rsp, -16; sub rsp, 128;
/// movabs rax,` before the address of the callee.
pub open spec fn call_head() -> Seq<u8> {
    seq![
        0x52u8, 0x51, 0x55, 0x48, 0x89, 0xe5, 0x48, 0x83, 0xe4, 0xf0, 0x48, 0x81, 0xec, 0x80, 0x00,
        0x00, 0x00, 0x48, 0xb8,
    ]
}

/// `call rax; mov rsp, rbp; pop rbp; pop rcx; pop rdx`.
pub open spec fn call_tail() -> Seq<u8> {
    seq![0xffu8, 0xd0, 0x48, 0x89, 0xec, 0x5d, 0x59, 0x5a]
}

/// The call sequence around a callback at `function_addr`: the working
/// registers are saved, the stack is aligned to 16 bytes below a red zone of
/// 128, the callee is called through `rax`, and everything is restored.
pub open spec fn fn_call(function_addr: usize) -> Seq<u8> {
    call_head() + imm64(function_addr) + call_tail()
}

/// 256 to the power of `count`.
pub open spec fn pow256(count: nat) -> nat
    decreases count,
{
    if count == 0 {
        1
    } else {
        256 * pow256((count - 1) as nat)
    }
}

/// Little-endian bytes give back a number that they have room for.
pub proof fn lemma_le_value_of_le_bytes(value: nat, count: nat)
    requires
        value < pow256(count),
    ensures
        le_value(le_bytes(value, count)) == value,
        le_bytes(value, count).len() == count,
    decreases count,
{
    if count > 0 {
        let rest = le_bytes(value / 256, (count - 1) as nat);
        lemma_le_value_of_le_bytes(value / 256, (count - 1) as nat);
        let bytes = le_bytes(value, count);
        assert(bytes.drop_first() =~= rest);
        assert(bytes[0] == (value % 256) as u8);
    }
}

/// Little-endian bytes have the length asked for.
pub proof fn lemma_le_bytes_len(value: nat, count: nat)
    ensures
        le_bytes(value, count).len() == count,
    decreases count,
{
    if count > 0 {
        lemma_le_bytes_len(value / 256, (count - 1) as nat);
    }
}

/// Four little-endian bytes give back a number below 2^32.
pub proof fn lemma_le_value_of_le_bytes_4(value: nat)
    requires
        value < 0x1_0000_0000,
    ensures
        le_value(le_bytes(value, 4)) == value,
{
    reveal_with_fuel(le_bytes, 5);
    reveal_with_fuel(le_value, 5);
    let b0 = (value % 256) as u8;
    let v1 = value / 256;
    let b1 = (v1 % 256) as u8;
    let v2 = v1 / 256;
    let b2 = (v2 % 256) as u8;
    let v3 = v2 / 256;
    let b3 = (v3 % 256) as u8;
    let bytes = le_bytes(value, 4);
    assert(bytes =~= seq![b0, b1, b2, b3]);
    assert(bytes.drop_first() =~= seq![b1, b2, b3]);
    assert(bytes.drop_first().drop_first() =~= seq![b2, b3]);
    assert(bytes.drop_first().drop_first().drop_first() =~= seq![b3]);
    assert(bytes.drop_first().drop_first().drop_first().drop_first() =~= Seq::<u8>::empty());
    assert(v3 < 256);
}

/// The signed value of the bits of a 32-bit value is that value.
pub proof fn lemma_signed_32_of_twos_complement(value: int)
    requires
        i32::MIN <= value <= i32::MAX,
    ensures
        twos_complement_32(value) < 0x1_0000_0000,
        signed_32(twos_complement_32(value)) == value,
{
}

/// The machine bytes emitted so far.
#[derive(Debug)]
pub struct RecompiledOps {
    pub recompiled_ops: Vec<u8>,
}

impl View for RecompiledOps {
    type V = Seq<u8>;

    open spec fn view(&self) -> Seq<u8> {
        self.recompiled_ops@
    }
}

impl Default for RecompiledOps {
    fn default() -> (ops: RecompiledOps)
        ensures
            ops@ == Seq::<u8>::empty(),
    {
        RecompiledOps { recompiled_ops: Vec::new() }
    }
}

impl RecompiledOps {
    /// The number of bytes emitted.
    pub fn len(&self) -> (n: usize)
        ensures
            n == self@.len(),
    {
        self.recompiled_ops.len()
    }

    /// The bytes emitted.
    pub fn as_slice(&self) -> (bytes: &[u8])
        ensures
            bytes@ == self@,
    {
        self.recompiled_ops.as_slice()
    }

    /// Appends one byte.
    pub fn push(&mut self, opcode: u8)
        ensures
            final(self)@ == old(self)@.push(opcode),
    {
        self.recompiled_ops.push(opcode);
    }

    /// Appends the bytes of `opcodes` in order.
    pub fn push_opcodes(&mut self, opcodes: &[u8])
        ensures
            final(self)@ == old(self)@ + opcodes@,
    {
        let mut i: usize = 0;
        while i < opcodes.len()
            invariant
                i <= opcodes@.len(),
                self@ == old(self)@ + opcodes@.take(i as int),
            decreases opcodes@.len() - i,
        {
            self.recompiled_ops.push(opcodes[i]);
            assert(opcodes@.take(i + 1) =~= opcodes@.take(i as int).push(opcodes@[i as int]));
            i += 1;
        }
        assert(opcodes@.take(i as int) =~= opcodes@);
    }

    /// Appends the `count` low bytes of `value`, lowest first.
    pub fn push_le(&mut self, value: u64, count: usize)
        ensures
            final(self)@ == old(self)@ + le_bytes(value as nat, count as nat),
    {
        let mut rest = value;
        let mut i: usize = 0;
        while i < count
            invariant
                i <= count,
                old(self)@ + le_bytes(value as nat, count as nat) == self@ + le_bytes(
                    rest as nat,
                    (count - i) as nat,
                ),
            decreases count - i,
        {
            let low = (rest % 256) as u8;
            assert(self@.push(low) + le_bytes((rest / 256) as nat, (count - i - 1) as nat)
                =~= self@ + le_bytes(rest as nat, (count - i) as nat));
            self.recompiled_ops.push(low);
            rest = rest / 256;
            i += 1;
        }
        assert(self@ + le_bytes(rest as nat, 0) =~= self@);
    }

    /// Appends a signed 32-bit immediate.
    pub fn push_imm32(&mut self, value: i32)
        ensures
            final(self)@ == old(self)@ + imm32(value as int),
    {
        let bits: u64 = if value >= 0 {
            value as u64
        } else {
            (value as i64 + 0x1_0000_0000) as u64
        };
        self.push_le(bits, 4);
    }

    /// Appends the call sequence around a callback at `function_addr`.
    pub fn add_fn_call(&mut self, function_addr: usize)
        ensures
            final(self)@ == old(self)@ + fn_call(function_addr),
    {
        // Save the working registers: push rdx, push rcx.
        self.push_opcodes(&[0x52, 0x51]);
        // Save rbp, keep rsp in it.
        self.push_opcodes(&[0x55]);
        self.push_opcodes(&[0x48, 0x89, 0xe5]);
        // and rsp, -16: align the stack to 16 bytes.
        self.push_opcodes(&[0x48, 0x83, 0xe4, 0xf0]);
        // sub rsp, 128: leave the red zone alone.
        self.push_opcodes(&[0x48, 0x81, 0xec, 0x80, 0x00, 0x00, 0x00]);
        // movabs rax, function_addr.
        self.push_opcodes(&[0x48, 0xb8]);
        self.push_le(function_addr as u64, 8);
        // call rax.
        self.push_opcodes(&[0xff, 0xd0]);
        // mov rsp, rbp; pop rbp.
        self.push_opcodes(&[0x48, 0x89, 0xec]);
        self.push_opcodes(&[0x5d]);
        // pop rcx, pop rdx.
        self.push_opcodes(&[0x59, 0x5a]);
        assert(self@ =~= old(self)@ + fn_call(function_addr));
    }
}

/// The addresses of the functions that generated code calls back.
#[derive(Debug, Clone, Copy)]
pub struct Callbacks {
    /// Takes the tape and an index, returns the address of the cell.
    pub get_ref: usize,
    /// Returns one byte of input.
    pub fetch_u8: usize,
    /// Takes one byte and writes it out.
    pub print_u8: usize,
}

/// `mov [rax], dl`: the cached value goes back to its cell.
pub open spec fn flush_cell() -> Seq<u8> {
    seq![0x88u8, 0x10]
}

/// `mov dl, [rax]`: the current cell's value is cached.
pub open spec fn reload_cell() -> Seq<u8> {
    seq![0x8au8, 0x10]
}

/// `cmp dl, 0`, then `je` with a 32-bit displacement.
pub open spec fn loop_head(forward: int) -> Seq<u8> {
    seq![0x80u8, 0xfa, 0x00, 0x0f, 0x84] + imm32(forward)
}

/// `jmp` with a 32-bit displacement.
pub open spec fn loop_tail(backward: int) -> Seq<u8> {
    seq![0xe9u8] + imm32(backward)
}

/// The size of `cmp dl, 0` and `je rel32` together.
pub const LOOP_HEAD_SIZE: usize = 9;

/// The size of `jmp rel32`.
pub const LOOP_TAIL_SIZE: usize = 5;

/// The longest loop body, in bytes, whose two jumps have 32-bit displacements.
pub const MAX_LOOP_BODY: usize = 0x7fff_fff2;

/// The machine code of one operation. While it runs, `dl` caches the current
/// cell, `ecx` holds the cursor and `rax` the address of the current cell.
pub open spec fn emit_instr<T: BfMemory>(instr: Instr, bf_memory_addr: Seq<u8>, callbacks: Callbacks) -> Seq<u8>
    decreases instr,
{
    match instr {
        // add dl, imm8
        Instr::Mod(value) => seq![0x80u8, 0xc2, twos_complement_8(value)],
        // mov dl, imm8
        Instr::SetValue(value) => seq![0xb2u8, value],
        Instr::Move(delta) => flush_cell() + T::move_ops(bf_memory_addr, callbacks.get_ref, delta)
            + reload_cell(),
        Instr::Loop(body) => {
            let block = emit_ops::<T>(body, bf_memory_addr, callbacks);
            loop_head(block.len() + LOOP_TAIL_SIZE) + block + loop_tail(
                -(block.len() + LOOP_TAIL_SIZE + LOOP_HEAD_SIZE),
            )
        },
        // push rax; call; mov dl, al; pop rax
        Instr::GetInput => seq![0x50u8] + fn_call(callbacks.fetch_u8) + seq![0x88u8, 0xc2, 0x58],
        // push rax; mov dil, dl; call; pop rax
        Instr::PrintOutput => seq![0x50u8, 0x40, 0x88, 0xd7] + fn_call(callbacks.print_u8) + seq![
            0x58u8,
        ],
    }
}

/// The machine code of a sequence of operations: that of each, in order.
pub open spec fn emit_ops<T: BfMemory>(ops: Seq<Instr>, bf_memory_addr: Seq<u8>, callbacks: Callbacks) -> Seq<u8>
    decreases ops,
{
    if ops.len() == 0 {
        Seq::empty()
    } else {
        emit_ops::<T>(ops.drop_last(), bf_memory_addr, callbacks) + emit_instr::<T>(
            ops.last(),
            bf_memory_addr,
            callbacks,
        )
    }
}

/// Whether the jumps of every loop in the operation have 32-bit displacements.
pub open spec fn instr_jumps_fit<T: BfMemory>(instr: Instr, bf_memory_addr: Seq<u8>, callbacks: Callbacks) -> bool
    decreases instr,
{
    match instr {
        Instr::Loop(body) => ops_jumps_fit::<T>(body, bf_memory_addr, callbacks) && emit_ops::<T>(
            body,
            bf_memory_addr,
            callbacks,
        ).len() <= MAX_LOOP_BODY,
        _ => true,
    }
}

/// Whether the jumps of every loop in the sequence have 32-bit displacements.
pub open spec fn ops_jumps_fit<T: BfMemory>(ops: Seq<Instr>, bf_memory_addr: Seq<u8>, callbacks: Callbacks) -> bool
    decreases ops,
{
    if ops.len() == 0 {
        true
    } else {
        ops_jumps_fit::<T>(ops.drop_last(), bf_memory_addr, callbacks) && instr_jumps_fit::<T>(
            ops.last(),
            bf_memory_addr,
            callbacks,
        )
    }
}

/// Where the jumps fit in a sequence, they fit in each of its prefixes.
pub proof fn lemma_jumps_fit_prefix<T: BfMemory>(
    ops: Seq<Instr>,
    bf_memory_addr: Seq<u8>,
    callbacks: Callbacks,
    k: int,
)
    requires
        0 <= k <= ops.len(),
        ops_jumps_fit::<T>(ops, bf_memory_addr, callbacks),
    ensures
        ops_jumps_fit::<T>(ops.take(k), bf_memory_addr, callbacks),
    decreases ops.len(),
{
    if k == ops.len() {
        assert(ops.take(k) =~= ops);
    } else {
        lemma_jumps_fit_prefix::<T>(ops.drop_last(), bf_memory_addr, callbacks, k);
        assert(ops.drop_last().take(k) =~= ops.take(k));
    }
}

/// What generated code starts with: `movabs rdi, tape; movabs rsi, 0`, a call
/// of the function that hands out the cell, `mov dl, [rax]; mov ecx, 0`.
pub open spec fn prologue(bf_memory_addr: Seq<u8>, callbacks: Callbacks) -> Seq<u8> {
    seq![0x48u8, 0xbf] + bf_memory_addr + seq![0x48u8, 0xbe] + le_bytes(0, 8) + fn_call(
        callbacks.get_ref,
    ) + reload_cell() + seq![0xb9u8, 0, 0, 0, 0]
}

/// What generated code ends with: `mov [rax], dl; ret`.
pub open spec fn epilogue() -> Seq<u8> {
    flush_cell() + seq![0xc3u8]
}

/// The whole of the generated code for a program.
pub open spec fn program_code<T: BfMemory>(ops: Seq<Instr>, bf_memory_addr: Seq<u8>, callbacks: Callbacks) -> Seq<u8> {
    prologue(bf_memory_addr, callbacks) + emit_ops::<T>(ops, bf_memory_addr, callbacks) + epilogue()
}

#[verifier::external_type_specification]
#[verifier::external_body]
pub struct ExIoError(std::io::Error);

/// Why no runnable code came of a program.
#[derive(Debug)]
pub enum BFRecompilerError {
    /// The program text has an unmatched bracket.
    ParseError(ParseError),
    /// A loop body is too long for a jump with a 32-bit displacement.
    JumpTooFar,
    /// The operating system gave no mapping.
    MMapCreateError(std::io::Error),
    /// The operating system did not make the mapping executable.
    MMakeExecError(std::io::Error),
}

/// The code generator with the tape that its code works on.
pub struct BfRecompiler<T> {
    pub _bf_memory: Box<T>,
    pub recompiled_memory: RecompiledOps,
}

/// The code of two sequences, one after the other, is the code of the first
/// followed by that of the second.
pub proof fn lemma_emit_ops_concat<T: BfMemory>(
    first: Seq<Instr>,
    second: Seq<Instr>,
    bf_memory_addr: Seq<u8>,
    callbacks: Callbacks,
)
    ensures
        emit_ops::<T>(first + second, bf_memory_addr, callbacks) == emit_ops::<T>(
            first,
            bf_memory_addr,
            callbacks,
        ) + emit_ops::<T>(second, bf_memory_addr, callbacks),
    decreases second.len(),
{
    let left = emit_ops::<T>(first, bf_memory_addr, callbacks);
    if second.len() == 0 {
        assert(first + second =~= first);
        assert(left + Seq::<u8>::empty() =~= left);
    } else {
        lemma_emit_ops_concat::<T>(first, second.drop_last(), bf_memory_addr, callbacks);
        assert((first + second).drop_last() =~= first + second.drop_last());
        assert((first + second).last() == second.last());
        let middle = emit_ops::<T>(second.drop_last(), bf_memory_addr, callbacks);
        let last = emit_instr::<T>(second.last(), bf_memory_addr, callbacks);
        assert((left + middle) + last =~= left + (middle + last));
    }
}

/// In the code of any sequence of operations, of a program or of a loop
/// body, the fragment that moves the cursor stands between a flush of the
/// cached value and a reload of it.
pub proof fn lemma_move_is_flushed_and_reloaded<T: BfMemory>(
    ops: Seq<Instr>,
    k: int,
    delta: i32,
    bf_memory_addr: Seq<u8>,
    callbacks: Callbacks,
)
    requires
        0 <= k < ops.len(),
        ops[k] == Instr::Move(delta),
    ensures
        emit_ops::<T>(ops, bf_memory_addr, callbacks) == emit_ops::<T>(
            ops.take(k),
            bf_memory_addr,
            callbacks,
        ) + flush_cell() + T::move_ops(bf_memory_addr, callbacks.get_ref, delta) + reload_cell()
            + emit_ops::<T>(ops.skip(k + 1), bf_memory_addr, callbacks),
{
    let head = ops.take(k);
    let one = seq![ops[k]];
    let tail = ops.skip(k + 1);
    assert(ops =~= (head + one) + tail);
    lemma_emit_ops_concat::<T>(head + one, tail, bf_memory_addr, callbacks);
    lemma_emit_ops_concat::<T>(head, one, bf_memory_addr, callbacks);
    assert(one.drop_last() =~= Seq::<Instr>::empty());
    assert(one.last() == ops[k]);
    assert(emit_ops::<T>(one.drop_last(), bf_memory_addr, callbacks) =~= Seq::<u8>::empty());
    assert(emit_ops::<T>(one, bf_memory_addr, callbacks) =~= emit_instr::<T>(
        ops[k],
        bf_memory_addr,
        callbacks,
    ));
    let frag = T::move_ops(bf_memory_addr, callbacks.get_ref, delta);
    let before = emit_ops::<T>(head, bf_memory_addr, callbacks);
    let after = emit_ops::<T>(tail, bf_memory_addr, callbacks);
    assert((before + (flush_cell() + frag + reload_cell())) + after =~= before + flush_cell() + frag
        + reload_cell() + after);
}

/// The code of a loop starts with the comparison and ends with the jump
/// back. Counted from the first byte of the loop's code, the jump back leads
/// to offset 0, where the comparison stands, and the jump forward, taken on a
/// zero cell, leads just behind the loop's code.
pub proof fn lemma_loop_jump_targets<T: BfMemory>(
    body: Seq<Instr>,
    bf_memory_addr: Seq<u8>,
    callbacks: Callbacks,
)
    requires
        emit_ops::<T>(body, bf_memory_addr, callbacks).len() <= MAX_LOOP_BODY,
    ensures
        ({
            let code = emit_instr::<T>(Instr::Loop(body), bf_memory_addr, callbacks);
            let block = emit_ops::<T>(body, bf_memory_addr, callbacks);
            let end = code.len() as int;
            &&& end == LOOP_HEAD_SIZE + block.len() + LOOP_TAIL_SIZE
            &&& code.subrange(0, 3) == seq![0x80u8, 0xfa, 0x00]
            &&& code.subrange(3, 5) == seq![0x0fu8, 0x84]
            &&& LOOP_HEAD_SIZE + signed_32(le_value(code.subrange(5, 9))) == end
            &&& code.subrange(9, end - 5) == block
            &&& code[end - 5] == 0xe9
            &&& end + signed_32(le_value(code.subrange(end - 4, end))) == 0
        }),
{
    let code = emit_instr::<T>(Instr::Loop(body), bf_memory_addr, callbacks);
    let block = emit_ops::<T>(body, bf_memory_addr, callbacks);
    let forward = block.len() + LOOP_TAIL_SIZE;
    let backward = -(block.len() + LOOP_TAIL_SIZE + LOOP_HEAD_SIZE);
    lemma_le_bytes_len(twos_complement_32(forward), 4);
    lemma_le_bytes_len(twos_complement_32(backward), 4);
    lemma_signed_32_of_twos_complement(forward);
    lemma_signed_32_of_twos_complement(backward);
    lemma_le_value_of_le_bytes_4(twos_complement_32(forward));
    lemma_le_value_of_le_bytes_4(twos_complement_32(backward));
    let end = code.len() as int;
    assert(code.subrange(0, 3) =~= seq![0x80u8, 0xfa, 0x00]);
    assert(code.subrange(3, 5) =~= seq![0x0fu8, 0x84]);
    assert(code.subrange(5, 9) =~= imm32(forward));
    assert(code.subrange(9, end - 5) =~= block);
    assert(code.subrange(end - 4, end) =~= imm32(backward));
}

impl<T: BfMemory> BfRecompiler<T> {
    /// Compiles the program text `code` for the tape `bf_memory`, which the
    /// caller has placed at the address whose eight bytes are
    /// `bf_memory_addr`, lowest first. The tape must stay at that address for
    /// as long as the code may run.
    pub fn new(
        code: String,
        bf_memory: Box<T>,
        bf_memory_addr: [u8; 8],
        callbacks: Callbacks,
        enable_optimizations: bool,
    ) -> (res: Result<BfRecompiler<T>, BFRecompilerError>)
        ensures
            match parse(encode_utf8(code@)) {
                Err(e) => res matches Err(BFRecompilerError::ParseError(err)) && err == e,
                Ok(parsed) => {
                    let ops = if enable_optimizations {
                        optimize_fix(parsed)
                    } else {
                        parsed
                    };
                    if ops_jumps_fit::<T>(ops, bf_memory_addr@, callbacks) {
                        &&& res matches Ok(recompiler)
                        &&& recompiler._bf_memory == bf_memory
                        &&& recompiler.recompiled_memory@ == program_code::<T>(
                            ops,
                            bf_memory_addr@,
                            callbacks,
                        )
                    } else {
                        res matches Err(BFRecompilerError::JumpTooFar)
                    }
                },
            },
    {
        let mut operations = match Operations::conv_string_to_operations(code.as_str()) {
            Ok(operations) => operations,
            Err(e) => {
                return Err(BFRecompilerError::ParseError(e));
            },
        };
        if enable_optimizations {
            operations.optimize();
        }
        let mut recompiled_memory = RecompiledOps::default();
        // movabs rdi, bf_memory_addr: the tape is the first argument.
        recompiled_memory.push_opcodes(&[0x48, 0xbf]);
        recompiled_memory.push_opcodes(bf_memory_addr.as_slice());
        // movabs rsi, 0: the index is the second.
        recompiled_memory.push_opcodes(&[0x48, 0xbe]);
        recompiled_memory.push_le(0, 8);
        recompiled_memory.add_fn_call(callbacks.get_ref);
        // mov dl, [rax]: cell 0 is cached.
        recompiled_memory.push_opcodes(&[0x8a, 0x10]);
        // mov ecx, 0.
        recompiled_memory.push_opcodes(&[0xb9, 0, 0, 0, 0]);
        assert(recompiled_memory@ =~= prologue(bf_memory_addr@, callbacks));
        match BfRecompiler::<T>::convert_to_machine_code(
            operations.as_slice(),
            bf_memory_addr,
            &callbacks,
            &mut recompiled_memory,
        ) {
            Ok(_) => {},
            Err(e) => {
                return Err(e);
            },
        }
        // mov [rax], dl: the cached value goes back to its cell.
        recompiled_memory.push_opcodes(&[0x88, 0x10]);
        // ret.
        recompiled_memory.push_opcodes(&[0xc3]);
        assert(recompiled_memory@ =~= program_code::<T>(operations@, bf_memory_addr@, callbacks));
        Ok(BfRecompiler { _bf_memory: bf_memory, recompiled_memory })
    }

    /// Appends the machine code of `operations` to `recompiled_memory`, or
    /// nothing where a jump does not fit.
    pub fn convert_to_machine_code(
        operations: &[Operation],
        bf_memory_addr: [u8; 8],
        callbacks: &Callbacks,
        recompiled_memory: &mut RecompiledOps,
    ) -> (res: Result<(), BFRecompilerError>)
        ensures
            match res {
                Ok(_) => {
                    &&& ops_jumps_fit::<T>(ops_view(operations@), bf_memory_addr@, *callbacks)
                    &&& final(recompiled_memory)@ == old(recompiled_memory)@ + emit_ops::<T>(
                        ops_view(operations@),
                        bf_memory_addr@,
                        *callbacks,
                    )
                },
                Err(e) => {
                    &&& e is JumpTooFar
                    &&& !ops_jumps_fit::<T>(ops_view(operations@), bf_memory_addr@, *callbacks)
                    &&& final(recompiled_memory)@ == old(recompiled_memory)@
                },
            },
        decreases operations@,
    {
        let ghost all = ops_view(operations@);
        let ghost addr = bf_memory_addr@;
        let mut block = RecompiledOps::default();
        let mut i: usize = 0;
        assert(all.take(0) =~= Seq::<Instr>::empty());
        while i < operations.len()
            invariant
                i <= operations@.len(),
                all == ops_view(operations@),
                all.len() == operations@.len(),
                addr == bf_memory_addr@,
                recompiled_memory@ == old(recompiled_memory)@,
                block@ == emit_ops::<T>(all.take(i as int), addr, *callbacks),
                ops_jumps_fit::<T>(all.take(i as int), addr, *callbacks),
            decreases operations@.len() - i,
        {
            let ghost instr = all[i as int];
            proof {
                assert(all.take(i + 1).drop_last() =~= all.take(i as int));
                assert(all.take(i + 1).last() == instr);
                assert(instr == op_view(operations@[i as int]));
            }
            match BfRecompiler::<T>::convert_operation(
                &operations[i],
                bf_memory_addr,
                callbacks,
                &mut block,
            ) {
                Ok(_) => {},
                Err(e) => {
                    proof {
                        if ops_jumps_fit::<T>(all, addr, *callbacks) {
                            lemma_jumps_fit_prefix::<T>(all, addr, *callbacks, i + 1);
                        }
                    }
                    return Err(e);
                },
            }
            i += 1;
        }
        assert(all.take(i as int) =~= all);
        recompiled_memory.push_opcodes(block.as_slice());
        Ok(())
    }

    /// Appends the machine code of one operation to `recompiled_memory`, or
    /// nothing where a jump does not fit. A loop body is emitted into a buffer
    /// of its own first, so that both jumps of the loop are known when its
    /// head is written.
    pub fn convert_operation(
        operation: &Operation,
        bf_memory_addr: [u8; 8],
        callbacks: &Callbacks,
        recompiled_memory: &mut RecompiledOps,
    ) -> (res: Result<(), BFRecompilerError>)
        ensures
            match res {
                Ok(_) => {
                    &&& instr_jumps_fit::<T>(operation@, bf_memory_addr@, *callbacks)
                    &&& final(recompiled_memory)@ == old(recompiled_memory)@ + emit_instr::<T>(
                        operation@,
                        bf_memory_addr@,
                        *callbacks,
                    )
                },
                Err(e) => {
                    &&& e is JumpTooFar
                    &&& !instr_jumps_fit::<T>(operation@, bf_memory_addr@, *callbacks)
                    &&& final(recompiled_memory)@ == old(recompiled_memory)@
                },
            },
        decreases operation,
    {
        let ghost addr = bf_memory_addr@;
        let ghost before = recompiled_memory@;
        let ghost code = emit_instr::<T>(operation@, addr, *callbacks);
        match operation {
            Operation::Mod(value) => {
                // add dl, value.
                recompiled_memory.push_opcodes(&[0x80, 0xc2]);
                let byte: u8 = if *value >= 0 {
                    *value as u8
                } else {
                    (*value as i16 + 0x100) as u8
                };
                recompiled_memory.push(byte);
                assert(recompiled_memory@ =~= before + code);
            },
            Operation::Move(move_value) => {
                // mov [rax], dl: the cached value goes back to its cell.
                recompiled_memory.push_opcodes(&[0x88, 0x10]);
                let move_ops = T::get_move_ops(bf_memory_addr, callbacks.get_ref, *move_value);
                recompiled_memory.push_opcodes(move_ops.as_slice());
                // mov dl, [rax]: the new current cell is cached.
                recompiled_memory.push_opcodes(&[0x8a, 0x10]);
                assert(recompiled_memory@ =~= before + code);
            },
            Operation::Loop(body) => {
                let mut loop_block = RecompiledOps::default();
                match BfRecompiler::<T>::convert_to_machine_code(
                    body.operations.as_slice(),
                    bf_memory_addr,
                    callbacks,
                    &mut loop_block,
                ) {
                    Ok(_) => {},
                    Err(e) => {
                        return Err(e);
                    },
                }
                let ghost block = emit_ops::<T>(body@, addr, *callbacks);
                assert(loop_block@ =~= block);
                let block_size = loop_block.len();
                if block_size > MAX_LOOP_BODY {
                    return Err(BFRecompilerError::JumpTooFar);
                }
                // cmp dl, 0.
                recompiled_memory.push_opcodes(&[0x80, 0xfa]);
                recompiled_memory.push(0x00);
                // je past the body and the jump back.
                recompiled_memory.push_opcodes(&[0x0f, 0x84]);
                recompiled_memory.push_imm32((block_size + LOOP_TAIL_SIZE) as i32);
                assert(recompiled_memory@ =~= before + loop_head(block.len() + LOOP_TAIL_SIZE));
                recompiled_memory.push_opcodes(loop_block.as_slice());
                // jmp back to the comparison.
                recompiled_memory.push_opcodes(&[0xe9]);
                recompiled_memory.push_imm32(
                    (0 - (block_size + LOOP_TAIL_SIZE + LOOP_HEAD_SIZE) as i64) as i32,
                );
                assert(recompiled_memory@ =~= before + code);
            },
            Operation::SetValue(value) => {
                // mov dl, value.
                recompiled_memory.push(0xb2);
                recompiled_memory.push(*value);
                assert(recompiled_memory@ =~= before + code);
            },
            Operation::GetInput => {
                // push rax.
                recompiled_memory.push(0x50);
                recompiled_memory.add_fn_call(callbacks.fetch_u8);
                // mov dl, al.
                recompiled_memory.push_opcodes(&[0x88, 0xc2]);
                // pop rax.
                recompiled_memory.push(0x58);
                assert(recompiled_memory@ =~= before + code);
            },
            Operation::PrintOutput => {
                // push rax.
                recompiled_memory.push(0x50);
                // mov dil, dl.
                recompiled_memory.push_opcodes(&[0x40, 0x88, 0xd7]);
                recompiled_memory.add_fn_call(callbacks.print_u8);
                // pop rax.
                recompiled_memory.push(0x58);
                assert(recompiled_memory@ =~= before + code);
            },
        }
        Ok(())
    }
}

/// The size of a page of memory.
pub const PAGE_SIZE: usize = 4096;

/// The size of the mapping for `len` bytes of code: the next multiple of the
/// page size above `len`.
pub open spec fn region_size(len: nat) -> nat {
    ((len / PAGE_SIZE as nat) + 1) * PAGE_SIZE as nat
}

/// What the mapping for `code` holds: the code, then zeros up to the size of
/// the mapping.
pub open spec fn exec_image(code: Seq<u8>) -> Seq<u8> {
    code + Seq::new((region_size(code.len()) - code.len()) as nat, |i: int| 0u8)
}

#[verifier::external_type_specification]
#[verifier::external_body]
pub struct ExMmap(memmap::Mmap);

#[verifier::external_type_specification]
#[verifier::external_body]
pub struct ExMmapMut(memmap::MmapMut);

/// The bytes that a writable mapping holds.
pub uninterp spec fn mmap_mut_bytes(map: memmap::MmapMut) -> Seq<u8>;

/// The bytes that a read-only or executable mapping holds.
pub uninterp spec fn mmap_bytes(map: memmap::Mmap) -> Seq<u8>;

/// `memmap::MmapMut::map_anon`: asks the operating system for an anonymous
/// mapping that can be read and written. Believed of it: a mapping that was
/// given has the length asked for. Nothing is claimed of when it is given.
#[verifier::external_body]
fn mmap_anon(length: usize) -> (res: Result<memmap::MmapMut, std::io::Error>)
    ensures
        res matches Ok(map) ==> mmap_mut_bytes(map).len() == length,
{
    memmap::MmapMut::map_anon(length)
}

/// `DerefMut` of `memmap::MmapMut`, which hands out the mapping as a slice of
/// its length: the slice is overwritten with `content`. Believed of it: the
/// mapping then holds `content`.
#[verifier::external_body]
fn mmap_write(map: &mut memmap::MmapMut, content: &[u8])
    requires
        content@.len() == mmap_mut_bytes(*old(map)).len(),
    ensures
        mmap_mut_bytes(*final(map)) == content@,
{
    map.copy_from_slice(content);
}

/// `memmap::MmapMut::make_exec`: asks the operating system to make the
/// mapping readable and executable. Believed of it: where that is granted,
/// the mapping that comes back holds the bytes that went in. Where it is not,
/// the mapping is released.
#[verifier::external_body]
fn mmap_make_exec(map: memmap::MmapMut) -> (res: Result<memmap::Mmap, std::io::Error>)
    ensures
        res matches Ok(exec) ==> mmap_bytes(exec) == mmap_mut_bytes(map),
{
    map.make_exec()
}

/// The size of the mapping for `len` bytes of code.
pub fn exec_region_size(len: usize) -> (size: usize)
    requires
        len + PAGE_SIZE <= usize::MAX,
    ensures
        size == region_size(len as nat),
        size > len,
        size % PAGE_SIZE == 0,
{
    let pages = len / PAGE_SIZE + 1;
    assert(pages * PAGE_SIZE <= len + PAGE_SIZE) by (nonlinear_arith)
        requires
            pages == len / PAGE_SIZE + 1,
            PAGE_SIZE == 4096,
    ;
    assert(pages * PAGE_SIZE > len) by (nonlinear_arith)
        requires
            pages == len / PAGE_SIZE + 1,
            PAGE_SIZE == 4096,
    ;
    assert((pages * PAGE_SIZE) % 4096 == 0) by (nonlinear_arith)
        requires
            PAGE_SIZE == 4096,
    ;
    pages * PAGE_SIZE
}

/// The contents of the mapping for `code`.
pub fn padded_image(code: &[u8]) -> (image: Vec<u8>)
    requires
        code@.len() + PAGE_SIZE <= usize::MAX,
    ensures
        image@ == exec_image(code@),
        image@.len() == region_size(code@.len()),
{
    let size = exec_region_size(code.len());
    let mut image: Vec<u8> = Vec::with_capacity(size);
    let mut i: usize = 0;
    while i < size
        invariant
            i <= size,
            code@.len() < size,
            size == region_size(code@.len()),
            image@.len() == i,
            forall|k: int| 0 <= k < i ==> image@[k] == exec_image(code@)[k],
        decreases size - i,
    {
        let byte = if i < code.len() {
            code[i]
        } else {
            0
        };
        image.push(byte);
        i += 1;
    }
    assert(image@ =~= exec_image(code@));
    image
}

/// What becomes of the answer to the request to make a mapping executable.
pub fn made_executable(answer: Result<memmap::Mmap, std::io::Error>) -> (res: Result<
    memmap::Mmap,
    BFRecompilerError,
>)
    ensures
        match answer {
            Ok(exec) => res matches Ok(map) && map == exec,
            Err(e) => res matches Err(BFRecompilerError::MMakeExecError(err)) && err == e,
        },
{
    match answer {
        Ok(exec) => Ok(exec),
        Err(e) => Err(BFRecompilerError::MMakeExecError(e)),
    }
}

/// What becomes of the answer to the request for a mapping of the size of
/// `image`: a mapping that was given is filled with `image` and made
/// executable.
pub fn fill_mapping(answer: Result<memmap::MmapMut, std::io::Error>, image: &[u8]) -> (res: Result<
    memmap::Mmap,
    BFRecompilerError,
>)
    requires
        answer matches Ok(map) ==> mmap_mut_bytes(map).len() == image@.len(),
    ensures
        match answer {
            Ok(_) => match res {
                Ok(exec) => mmap_bytes(exec) == image@,
                Err(e) => e is MMakeExecError,
            },
            Err(e) => res matches Err(BFRecompilerError::MMapCreateError(err)) && err == e,
        },
{
    match answer {
        Ok(map) => {
            let mut map = map;
            mmap_write(&mut map, image);
            made_executable(mmap_make_exec(map))
        },
        Err(e) => Err(BFRecompilerError::MMapCreateError(e)),
    }
}

impl<T: BfMemory> BfRecompiler<T> {
    /// Puts the generated code into memory that can be executed: a mapping
    /// of whole pages, filled with the code and then zeros. Where the
    /// operating system refuses, nothing stays mapped.
    pub fn create_exec_memory(&self) -> (res: Result<memmap::Mmap, BFRecompilerError>)
        requires
            self.recompiled_memory@.len() + PAGE_SIZE <= usize::MAX,
        ensures
            match res {
                Ok(exec) => mmap_bytes(exec) == exec_image(self.recompiled_memory@),
                Err(e) => e is MMapCreateError || e is MMakeExecError,
            },
    {
        let image = padded_image(self.recompiled_memory.as_slice());
        let answer = mmap_anon(image.len());
        fill_mapping(answer, image.as_slice())
    }
}

} // verus!
