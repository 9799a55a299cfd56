//! Tape memories: the conceptual tape is an array of byte cells that is
//! infinite in both directions and zero at first. Three layouts hold it.

use vstd::prelude::*;
use crate::executors::bf_recompiler::{RecompiledOps, fn_call, imm32};

verus! {

/// The size of the fixed tape where none is asked for.
pub const BF_MEMORY_UNSAFE_SIZE: usize = 65535;

/// The fragment that moves the cursor of a tape that grows: `add ecx, delta;
/// movabs rdi, tape; mov esi, ecx;` and a call of the function that hands out
/// the cell, which leaves the cell's address in `rax`.
pub open spec fn standard_move_ops(bf_memory_addr: Seq<u8>, get_ref_fn_addr: usize, move_value: i32) -> Seq<u8> {
    seq![0x81u8, 0xc1] + imm32(move_value as int) + seq![0x48u8, 0xbf] + bf_memory_addr + seq![
        0x89u8,
        0xce,
    ] + fn_call(get_ref_fn_addr)
}

/// The fragment that moves the cursor of the fixed tape: `lea rax, [rax + delta]`.
pub open spec fn fixed_move_ops(move_value: i32) -> Seq<u8> {
    seq![0x48u8, 0x8d, 0x80] + imm32(move_value as int)
}

/// A tape: cells addressed by a signed index.
pub trait BfMemory: Sized {
    /// The layout's invariant.
    spec fn wf(&self) -> bool;

    /// What the cell at `index` holds.
    spec fn cell(&self, index: int) -> u8;

    /// Whether the tape can hand out the cell at `index`.
    spec fn in_range(&self, index: int) -> bool;

    /// The machine code that moves the cursor by `move_value` and leaves the
    /// address of the new current cell in `rax`.
    spec fn move_ops(bf_memory_addr: Seq<u8>, get_ref_fn_addr: usize, move_value: i32) -> Seq<u8>;

    /// A tape of zeros.
    fn new(custom_size: Option<usize>) -> (memory: Self)
        ensures
            memory.wf(),
            forall|index: int| #[trigger] memory.cell(index) == 0,
    ;

    /// Whether the tape can hand out the cell at `index`.
    fn can_reach(&self, index: i32) -> (reachable: bool)
        requires
            self.wf(),
        ensures
            reachable == self.in_range(index as int),
    ;

    /// The cell at `index`, to read and to write. No other cell changes.
    fn get_ref(&mut self, index: i32) -> (cell: &mut u8)
        requires
            old(self).wf(),
            old(self).in_range(index as int),
        ensures
            *cell == old(self).cell(index as int),
            final(self).wf(),
            forall|other: int| #[trigger]
                final(self).cell(other) == if other == index {
                    *final(cell)
                } else {
                    old(self).cell(other)
                },
            forall|other: int| #[trigger] final(self).in_range(other) == old(self).in_range(other),
    ;

    /// The machine code that moves the cursor by `move_value`.
    fn get_move_ops(bf_memory_addr: [u8; 8], get_ref_fn_addr: usize, move_value: i32) -> (ops:
        RecompiledOps)
        ensures
            ops@ == Self::move_ops(bf_memory_addr@, get_ref_fn_addr, move_value),
    ;

    /// The fragment for a tape that grows.
    fn get_standard_move_ops(bf_memory_addr: [u8; 8], get_ref_fn_addr: usize, move_value: i32) -> (ops:
        RecompiledOps)
        ensures
            ops@ == standard_move_ops(bf_memory_addr@, get_ref_fn_addr, move_value),
    {
        let mut recompiled_memory = RecompiledOps::default();
        // add ecx, move_value.
        recompiled_memory.push_opcodes(&[0x81, 0xc1]);
        recompiled_memory.push_imm32(move_value);
        // movabs rdi, bf_memory_addr: the tape is the first argument.
        recompiled_memory.push_opcodes(&[0x48, 0xbf]);
        recompiled_memory.push_opcodes(bf_memory_addr.as_slice());
        // mov esi, ecx: the index is the second.
        recompiled_memory.push_opcodes(&[0x89, 0xce]);
        recompiled_memory.add_fn_call(get_ref_fn_addr);
        assert(recompiled_memory@ =~= standard_move_ops(
            bf_memory_addr@,
            get_ref_fn_addr,
            move_value,
        ));
        recompiled_memory
    }
}

/// A vector lengthened with zeros up to and including `position`; one that
/// reaches that far already is as it was.
pub open spec fn zero_padded(vector: Seq<u8>, position: int) -> Seq<u8> {
    if position < vector.len() {
        vector
    } else {
        vector + Seq::new((position + 1 - vector.len()) as nat, |i: int| 0u8)
    }
}

/// The tape in two vectors: one for the indices from 0 up, one for those below
/// 0, where cell `-k` stands at position `k`.
#[derive(Debug)]
pub struct BfMemoryMemSafe {
    pub negatives: Vec<u8>,
    pub positives: Vec<u8>,
}

impl BfMemoryMemSafe {
    /// An empty tape: every cell holds zero. Each vector has room for half of
    /// `custom_size` cells before it has to move.
    pub fn new(custom_size: Option<usize>) -> (memory: BfMemoryMemSafe)
        ensures
            memory.wf(),
            memory.negatives@.len() == 0,
            memory.positives@.len() == 0,
            forall|index: int| #[trigger] memory.cell(index) == 0,
    {
        let size = match custom_size {
            Some(val) => val / 2,
            None => 0,
        };
        BfMemoryMemSafe { negatives: Vec::with_capacity(size), positives: Vec::with_capacity(size) }
    }
}

impl BfMemory for BfMemoryMemSafe {
    open spec fn wf(&self) -> bool {
        self.negatives@.len() > 0 ==> self.negatives@[0] == 0
    }

    open spec fn cell(&self, index: int) -> u8 {
        if index >= 0 {
            if index < self.positives@.len() {
                self.positives@[index]
            } else {
                0
            }
        } else {
            if -index < self.negatives@.len() {
                self.negatives@[-index]
            } else {
                0
            }
        }
    }

    open spec fn in_range(&self, index: int) -> bool {
        true
    }

    open spec fn move_ops(bf_memory_addr: Seq<u8>, get_ref_fn_addr: usize, move_value: i32) -> Seq<u8> {
        standard_move_ops(bf_memory_addr, get_ref_fn_addr, move_value)
    }

    fn new(custom_size: Option<usize>) -> (memory: BfMemoryMemSafe)
        ensures
            memory.negatives@.len() == 0,
            memory.positives@.len() == 0,
    {
        BfMemoryMemSafe::new(custom_size)
    }

    fn can_reach(&self, index: i32) -> (reachable: bool) {
        true
    }

    fn get_ref(&mut self, index: i32) -> (cell: &mut u8)
        ensures
            index >= 0 ==> final(self).negatives@ == old(self).negatives@,
            index >= 0 ==> final(self).positives@ == zero_padded(
                old(self).positives@,
                index as int,
            ).update(index as int, *final(cell)),
            index < 0 ==> final(self).positives@ == old(self).positives@,
            index < 0 ==> final(self).negatives@ == zero_padded(
                old(self).negatives@,
                -index,
            ).update(-index, *final(cell)),
    {
        if index < 0 {
            let position: usize = (0 - index as i64) as usize;
            while self.negatives.len() <= position
                invariant
                    self.positives@ == old(self).positives@,
                    old(self).negatives@.len() <= self.negatives@.len(),
                    self.negatives@.len() <= position + 1 || self.negatives@ == old(self).negatives@,
                    forall|k: int|
                        0 <= k < old(self).negatives@.len() ==> self.negatives@[k] == old(
                            self,
                        ).negatives@[k],
                    forall|k: int|
                        old(self).negatives@.len() <= k < self.negatives@.len()
                            ==> self.negatives@[k] == 0,
                decreases position + 1 - self.negatives.len(),
            {
                self.negatives.push(0);
            }
            assert(self.negatives@ =~= zero_padded(old(self).negatives@, position as int));
            &mut self.negatives[position]
        } else {
            let position: usize = index as usize;
            while self.positives.len() <= position
                invariant
                    self.negatives@ == old(self).negatives@,
                    old(self).positives@.len() <= self.positives@.len(),
                    self.positives@.len() <= position + 1 || self.positives@ == old(self).positives@,
                    forall|k: int|
                        0 <= k < old(self).positives@.len() ==> self.positives@[k] == old(
                            self,
                        ).positives@[k],
                    forall|k: int|
                        old(self).positives@.len() <= k < self.positives@.len()
                            ==> self.positives@[k] == 0,
                decreases position + 1 - self.positives.len(),
            {
                self.positives.push(0);
            }
            assert(self.positives@ =~= zero_padded(old(self).positives@, position as int));
            &mut self.positives[position]
        }
    }

    fn get_move_ops(bf_memory_addr: [u8; 8], get_ref_fn_addr: usize, move_value: i32) -> (ops:
        RecompiledOps) {
        BfMemoryMemSafe::get_standard_move_ops(bf_memory_addr, get_ref_fn_addr, move_value)
    }
}

/// Whether a single vector of length `len` holds the cell at `index`: the
/// cell stands at position `len / 2 + index`, and position 0 holds no cell.
pub open spec fn single_fits(len: int, index: int) -> bool {
    0 < len / 2 + index < len
}

/// The length of a single vector of length `len` after it grew once.
pub open spec fn single_grown(len: int) -> int {
    2 * len
}

/// The length of a new single vector: the even number of bytes that
/// `custom_size` has room for, and 2 where none or fewer are asked for.
pub open spec fn single_initial_len(custom_size: Option<usize>) -> int {
    match custom_size {
        Some(size) => if size > 1 {
            size - size % 2
        } else {
            2
        },
        None => 2,
    }
}

/// A single vector grown once: half its length in zeros, what it held, and
/// as many zeros again.
pub open spec fn single_widened(vector: Seq<u8>) -> Seq<u8> {
    Seq::new((vector.len() / 2) as nat, |i: int| 0u8) + vector + Seq::new(
        (vector.len() / 2) as nat,
        |i: int| 0u8,
    )
}

/// A single vector grown until it holds the cell at `index`.
pub open spec fn single_grown_to(vector: Seq<u8>, index: int) -> Seq<u8>
    decreases single_slack(vector.len() as int, index),
{
    if vector.len() < 2 || vector.len() % 2 != 0 || single_fits(vector.len() as int, index) {
        vector
    } else {
        single_grown_to(single_widened(vector), index)
    }
}

/// A single vector of even length that grew has the length it needs.
pub proof fn lemma_single_grown_to_len(vector: Seq<u8>, index: int)
    requires
        vector.len() % 2 == 0,
    ensures
        single_grown_to(vector, index).len() == single_needed_len(vector.len() as int, index),
        single_grown_to(vector, index).len() % 2 == 0,
    decreases single_slack(vector.len() as int, index),
{
    if !(vector.len() < 2 || single_fits(vector.len() as int, index)) {
        lemma_single_grown_to_len(single_widened(vector), index);
    }
}

/// An upper bound on how often a single vector of length `len` grows before it
/// holds the cell at `index`.
pub open spec fn single_slack(len: int, index: int) -> nat {
    let reach = if index < 0 {
        -index
    } else {
        index
    };
    if 2 * reach + 2 > len {
        (2 * reach + 2 - len) as nat
    } else {
        0
    }
}

/// The length that a single vector of length `len` has once it grew until it
/// holds the cell at `index`.
pub open spec fn single_needed_len(len: int, index: int) -> int
    decreases single_slack(len, index),
{
    if len < 2 || single_fits(len, index) {
        len
    } else {
        single_needed_len(single_grown(len), index)
    }
}

/// Growing never shortens.
pub proof fn lemma_single_needed_len_grows(len: int, index: int)
    ensures
        single_needed_len(len, index) >= len,
    decreases single_slack(len, index),
{
    if !(len < 2 || single_fits(len, index)) {
        lemma_single_needed_len_grows(single_grown(len), index);
    }
}

/// Growing once does not change which cells a single vector can grow to hold.
pub proof fn lemma_single_growth_keeps_range(len: int, index: int)
    requires
        len >= 2,
        single_grown(len) <= usize::MAX,
    ensures
        (single_needed_len(single_grown(len), index) <= usize::MAX) == (single_needed_len(
            len,
            index,
        ) <= usize::MAX),
{
    if single_fits(len, index) {
        assert(single_fits(single_grown(len), index));
    }
}

/// A single vector never has to grow beyond its own length or four times the
/// distance of the cell from cell 0, and 2.
pub proof fn lemma_single_needed_len_bound(len: int, index: int)
    requires
        len >= 2,
    ensures
        single_needed_len(len, index) <= if len >= 4 * index + 2 && len >= -4 * index + 2 {
            len
        } else if index >= 0 {
            4 * index + 2
        } else {
            -4 * index + 2
        },
    decreases single_slack(len, index),
{
    if !single_fits(len, index) {
        lemma_single_needed_len_bound(single_grown(len), index);
    }
}

/// The tape in one vector of even length, with cell 0 in the middle. Where
/// a cell lies outside, the vector grows to twice its length, by the same
/// number of zeros at both ends, so that cell 0 is in the middle again.
#[derive(Debug)]
pub struct BfMemoryMemSafeSingleArray {
    pub vector: Vec<u8>,
}

impl BfMemoryMemSafeSingleArray {
    /// Grows the vector to twice its length, by half its length at both
    /// ends. Every cell keeps what it holds.
    pub fn increase_memory(&mut self)
        requires
            old(self).wf(),
            2 * old(self).vector@.len() <= usize::MAX,
        ensures
            final(self).wf(),
            final(self).vector@.len() == 2 * old(self).vector@.len(),
            final(self).vector@ == single_widened(old(self).vector@),
            forall|index: int|
                #![trigger final(self).cell(index)]
                #![trigger old(self).cell(index)]
                final(self).cell(index) == old(self).cell(index),
            forall|index: int|
                #![trigger final(self).in_range(index)]
                #![trigger old(self).in_range(index)]
                final(self).in_range(index) == old(self).in_range(index),
    {
        proof {
            assert forall|index: int|
                (single_needed_len(
                    single_grown(self.vector@.len() as int),
                    index,
                ) <= usize::MAX) == #[trigger] self.in_range(index) by {
                lemma_single_growth_keeps_range(self.vector@.len() as int, index);
            }
        }
        let old_vec_len = self.vector.len();
        let zero_len = old_vec_len / 2;
        let ghost zeros = Seq::new(zero_len as nat, |i: int| 0u8);
        let mut grown: Vec<u8> = Vec::with_capacity(old_vec_len);
        let mut i: usize = 0;
        while i < zero_len
            invariant
                i <= zero_len,
                zeros == Seq::new(zero_len as nat, |i: int| 0u8),
                grown@ == zeros.take(i as int),
            decreases zero_len - i,
        {
            grown.push(0);
            assert(zeros.take(i + 1) =~= zeros.take(i as int).push(0u8));
            i += 1;
        }
        assert(zeros.take(zero_len as int) =~= zeros);
        let mut j: usize = 0;
        while j < old_vec_len
            invariant
                j <= old_vec_len,
                old_vec_len == self.vector@.len(),
                grown@ == zeros + self.vector@.take(j as int),
            decreases old_vec_len - j,
        {
            grown.push(self.vector[j]);
            assert(zeros + self.vector@.take(j + 1) =~= (zeros + self.vector@.take(j as int)).push(
                self.vector@[j as int],
            ));
            j += 1;
        }
        assert(self.vector@.take(old_vec_len as int) =~= self.vector@);
        let mut k: usize = 0;
        while k < zero_len
            invariant
                k <= zero_len,
                zeros == Seq::new(zero_len as nat, |i: int| 0u8),
                grown@ == zeros + self.vector@ + zeros.take(k as int),
            decreases zero_len - k,
        {
            grown.push(0);
            assert(zeros + self.vector@ + zeros.take(k + 1) =~= (zeros + self.vector@ + zeros.take(
                k as int,
            )).push(0u8));
            k += 1;
        }
        assert(zeros.take(zero_len as int) =~= zeros);
        self.vector = grown;
    }

    /// A tape of zeros in a vector of even length: of `custom_size` bytes,
    /// less one where that is odd, or of 2 where none or fewer are asked for,
    /// since a shorter vector would never grow.
    pub fn new(custom_size: Option<usize>) -> (memory: BfMemoryMemSafeSingleArray)
        ensures
            memory.wf(),
            memory.vector@.len() == single_initial_len(custom_size),
            memory.vector@.len() % 2 == 0,
            memory.vector@.len() >= 2,
            memory.vector@ == Seq::new(single_initial_len(custom_size) as nat, |i: int| 0u8),
            forall|index: int| #[trigger] memory.cell(index) == 0,
    {
        let size = match custom_size {
            Some(size) => if size > 1 {
                size - size % 2
            } else {
                2
            },
            None => 2,
        };
        let memory = BfMemoryMemSafeSingleArray { vector: vec![0u8; size] };
        assert(memory.vector@ =~= Seq::new(size as nat, |i: int| 0u8));
        memory
    }

    /// Whether the vector holds the cell at `index` as it is.
    fn fits(&self, index: i32) -> (fitting: bool)
        ensures
            fitting == single_fits(self.vector@.len() as int, index as int),
    {
        let len = self.vector.len();
        let half = len / 2;
        if index >= 0 {
            (index as usize) < len - half && (half > 0 || index > 0)
        } else {
            half > (0 - index as i64) as usize
        }
    }
}

impl BfMemory for BfMemoryMemSafeSingleArray {
    open spec fn wf(&self) -> bool {
        &&& self.vector@.len() >= 2
        &&& self.vector@.len() % 2 == 0
        &&& self.vector@[0] == 0
    }

    open spec fn cell(&self, index: int) -> u8 {
        if single_fits(self.vector@.len() as int, index) {
            self.vector@[self.vector@.len() / 2 + index]
        } else {
            0
        }
    }

    open spec fn in_range(&self, index: int) -> bool {
        single_needed_len(self.vector@.len() as int, index) <= usize::MAX
    }

    open spec fn move_ops(bf_memory_addr: Seq<u8>, get_ref_fn_addr: usize, move_value: i32) -> Seq<u8> {
        standard_move_ops(bf_memory_addr, get_ref_fn_addr, move_value)
    }

    fn new(custom_size: Option<usize>) -> (memory: BfMemoryMemSafeSingleArray)
        ensures
            memory.vector@ == Seq::new(single_initial_len(custom_size) as nat, |i: int| 0u8),
    {
        BfMemoryMemSafeSingleArray::new(custom_size)
    }

    fn can_reach(&self, index: i32) -> (reachable: bool) {
        let mut len = self.vector.len();
        let ghost first = len as int;
        loop
            invariant
                len >= 2,
                single_needed_len(len as int, index as int) == single_needed_len(
                    first,
                    index as int,
                ),
                first == self.vector@.len(),
            decreases single_slack(len as int, index as int),
        {
            let half = len / 2;
            let fitting = if index >= 0 {
                (index as usize) < len - half
            } else {
                half > (0 - index as i64) as usize
            };
            if fitting {
                return true;
            }
            proof {
                lemma_single_needed_len_grows(single_grown(len as int), index as int);
            }
            match len.checked_add(len) {
                None => {
                    return false;
                },
                Some(grown) => {
                    len = grown;
                },
            }
        }
    }

    fn get_ref(&mut self, index: i32) -> (cell: &mut u8)
        ensures
            final(self).vector@.len() == single_needed_len(
                old(self).vector@.len() as int,
                index as int,
            ),
            single_grown_to(old(self).vector@, index as int).len() == final(self).vector@.len(),
            final(self).vector@ == single_grown_to(old(self).vector@, index as int).update(
                final(self).vector@.len() / 2 + index,
                *final(cell),
            ),
    {
        proof {
            lemma_single_grown_to_len(self.vector@, index as int);
        }
        while !self.fits(index)
            invariant
                self.wf(),
                single_needed_len(self.vector@.len() as int, index as int) <= usize::MAX,
                single_grown_to(self.vector@, index as int) == single_grown_to(
                    old(self).vector@,
                    index as int,
                ),
                forall|other: int|
                    #![trigger self.cell(other)]
                    #![trigger old(self).cell(other)]
                    self.cell(other) == old(self).cell(other),
                forall|other: int|
                    #![trigger self.in_range(other)]
                    #![trigger old(self).in_range(other)]
                    self.in_range(other) == old(self).in_range(other),
            decreases single_slack(self.vector@.len() as int, index as int),
        {
            proof {
                lemma_single_needed_len_grows(
                    single_grown(self.vector@.len() as int),
                    index as int,
                );
            }
            self.increase_memory();
        }
        proof {
            lemma_single_grown_to_len(self.vector@, index as int);
        }
        let half = self.vector.len() / 2;
        let position = if index >= 0 {
            half + index as usize
        } else {
            half - (0 - index as i64) as usize
        };
        &mut self.vector[position]
    }

    fn get_move_ops(bf_memory_addr: [u8; 8], get_ref_fn_addr: usize, move_value: i32) -> (ops:
        RecompiledOps) {
        BfMemoryMemSafeSingleArray::get_standard_move_ops(bf_memory_addr, get_ref_fn_addr, move_value)
    }
}

/// The tape in one array of fixed size, with cell 0 in the middle: the cell
/// at `index` stands at position `size / 2 + index`. Cells outside the array
/// cannot be handed out; in generated code, which moves by plain address
/// arithmetic, what happens outside is undefined.
#[derive(Debug)]
pub struct BfMemoryMemUnsafe {
    pub array: Vec<u8>,
}

impl BfMemoryMemUnsafe {
    /// A tape of zeros in an array of `custom_size` bytes, or of 65535 where
    /// no size is asked for.
    pub fn new(custom_size: Option<usize>) -> (memory: BfMemoryMemUnsafe)
        ensures
            memory.wf(),
            forall|index: int| #[trigger] memory.cell(index) == 0,
            memory.array@.len() == match custom_size {
                Some(size) => size,
                None => BF_MEMORY_UNSAFE_SIZE,
            },
    {
        let size = match custom_size {
            Some(val) => val,
            None => BF_MEMORY_UNSAFE_SIZE,
        };
        BfMemoryMemUnsafe { array: vec![0u8; size] }
    }
}

impl BfMemory for BfMemoryMemUnsafe {
    open spec fn wf(&self) -> bool {
        true
    }

    open spec fn cell(&self, index: int) -> u8 {
        if self.in_range(index) {
            self.array@[self.array@.len() / 2 + index]
        } else {
            0
        }
    }

    open spec fn in_range(&self, index: int) -> bool {
        0 <= self.array@.len() / 2 + index < self.array@.len()
    }

    open spec fn move_ops(bf_memory_addr: Seq<u8>, get_ref_fn_addr: usize, move_value: i32) -> Seq<u8> {
        fixed_move_ops(move_value)
    }

    fn new(custom_size: Option<usize>) -> (memory: BfMemoryMemUnsafe)
        ensures
            memory.array@.len() == match custom_size {
                Some(size) => size,
                None => BF_MEMORY_UNSAFE_SIZE,
            },
    {
        BfMemoryMemUnsafe::new(custom_size)
    }

    fn can_reach(&self, index: i32) -> (reachable: bool) {
        let len = self.array.len();
        let half = len / 2;
        if index >= 0 {
            (index as usize) < len - half
        } else {
            half >= (0 - index as i64) as usize
        }
    }

    fn get_ref(&mut self, index: i32) -> (cell: &mut u8)
        ensures
            final(self).array@ == old(self).array@.update(
                old(self).array@.len() / 2 + index,
                *final(cell),
            ),
    {
        let half = self.array.len() / 2;
        let position = if index >= 0 {
            half + index as usize
        } else {
            half - (0 - index as i64) as usize
        };
        &mut self.array[position]
    }

    fn get_move_ops(_bf_memory_addr: [u8; 8], _get_ref_fn_addr: usize, move_value: i32) -> (ops:
        RecompiledOps) {
        let mut recompiled_memory = RecompiledOps::default();
        // lea rax, [rax + move_value].
        recompiled_memory.push_opcodes(&[0x48, 0x8d, 0x80]);
        recompiled_memory.push_imm32(move_value);
        recompiled_memory
    }
}

/// What the tape of a state of a machine holds: a value for every cell.
pub open spec fn tape_cells<T: BfMemory>(memory: T) -> Map<int, u8> {
    Map::new(|index: int| true, |index: int| memory.cell(index))
}

/// The cells that a tape can hand out.
pub open spec fn tape_reach<T: BfMemory>(memory: T) -> Set<int> {
    Set::new(|index: int| memory.in_range(index))
}

/// The tape in two vectors can hand out every cell.
pub proof fn lemma_dual_tape_reaches_every_cell(memory: BfMemoryMemSafe, index: int)
    ensures
        tape_reach(memory).contains(index),
{
}

/// Where `usize` has more than 33 bits, the tape in one vector can hand out
/// every cell that a cursor can stand on.
pub proof fn lemma_single_tape_reaches_every_cell(memory: BfMemoryMemSafeSingleArray, index: int)
    requires
        memory.wf(),
        memory.vector@.len() <= usize::MAX,
        usize::MAX >= 0x2_0000_0002,
        i32::MIN <= index <= i32::MAX,
    ensures
        tape_reach(memory).contains(index),
{
    lemma_single_needed_len_bound(memory.vector@.len() as int, index);
}

} // verus!
