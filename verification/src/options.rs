//! The names by which a back-end and a tape are chosen.

use vstd::prelude::*;
use vstd::string::StringSliceAdditionalSpecFns;

verus! {

/// The back-end that runs a program.
#[derive(Debug, Clone, Copy, PartialEq, Eq, Structural)]
pub enum ExecutorArg {
    /// The interpreter that works on the program text, `oi`.
    OldInterpreterArg,
    /// The interpreter that walks the tree of operations, `ni`.
    NewInterpreterArg,
    /// The code generator, `r`.
    RecompilerArg,
}

/// The layout of the tape.
#[derive(Debug, Clone, Copy, PartialEq, Eq, Structural)]
pub enum MemoryType {
    /// One array of fixed size, `ua`.
    UnsafeArrayArg,
    /// Two vectors that grow, `da`.
    DualArrayArg,
    /// One vector that grows at both ends, `sa`.
    SingleArrayArg,
}

/// A name that stands for nothing; it is kept as it was given.
#[derive(Debug)]
pub enum ArgumentParseError {
    /// No back-end has this name.
    ExecutorParseError(String),
    /// No layout of the tape has this name.
    MemoryTypeParseError(String),
}

/// The name of a back-end, in bytes.
pub open spec fn executor_name(arg: ExecutorArg) -> Seq<u8> {
    match arg {
        ExecutorArg::OldInterpreterArg => seq![111u8, 105],
        ExecutorArg::NewInterpreterArg => seq![110u8, 105],
        ExecutorArg::RecompilerArg => seq![114u8],
    }
}

/// The name of a layout of the tape, in bytes.
pub open spec fn memory_type_name(arg: MemoryType) -> Seq<u8> {
    match arg {
        MemoryType::UnsafeArrayArg => seq![117u8, 97],
        MemoryType::DualArrayArg => seq![100u8, 97],
        MemoryType::SingleArrayArg => seq![115u8, 97],
    }
}

/// Whether two slices hold the same bytes.
pub fn bytes_equal(a: &[u8], b: &[u8]) -> (same: bool)
    ensures
        same == (a@ == b@),
{
    if a.len() != b.len() {
        return false;
    }
    let mut i: usize = 0;
    while i < a.len()
        invariant
            a@.len() == b@.len(),
            i <= a@.len(),
            forall|k: int| 0 <= k < i ==> a@[k] == b@[k],
        decreases a@.len() - i,
    {
        if a[i] != b[i] {
            return false;
        }
        i += 1;
    }
    assert(a@ =~= b@);
    true
}

impl ExecutorArg {
    /// The back-end that `s` names: `oi`, `ni` or `r`.
    pub fn from_str(s: &str) -> (res: Result<ExecutorArg, ArgumentParseError>)
        ensures
            match res {
                Ok(arg) => s.spec_bytes() == executor_name(arg),
                Err(ArgumentParseError::ExecutorParseError(name)) => {
                    &&& name@ == s@
                    &&& forall|arg: ExecutorArg| s.spec_bytes() != #[trigger] executor_name(arg)
                },
                Err(_) => false,
            },
    {
        let bytes = s.as_bytes();
        let old: [u8; 2] = [111, 105];
        let new: [u8; 2] = [110, 105];
        let recompiler: [u8; 1] = [114];
        if bytes_equal(bytes, old.as_slice()) {
            assert(old@ =~= executor_name(ExecutorArg::OldInterpreterArg));
            Ok(ExecutorArg::OldInterpreterArg)
        } else if bytes_equal(bytes, new.as_slice()) {
            assert(new@ =~= executor_name(ExecutorArg::NewInterpreterArg));
            Ok(ExecutorArg::NewInterpreterArg)
        } else if bytes_equal(bytes, recompiler.as_slice()) {
            assert(recompiler@ =~= executor_name(ExecutorArg::RecompilerArg));
            Ok(ExecutorArg::RecompilerArg)
        } else {
            assert(old@ =~= executor_name(ExecutorArg::OldInterpreterArg));
            assert(new@ =~= executor_name(ExecutorArg::NewInterpreterArg));
            assert(recompiler@ =~= executor_name(ExecutorArg::RecompilerArg));
            Err(ArgumentParseError::ExecutorParseError(s.to_owned()))
        }
    }
}

impl MemoryType {
    /// The layout of the tape that `s` names: `ua`, `da` or `sa`.
    pub fn from_str(s: &str) -> (res: Result<MemoryType, ArgumentParseError>)
        ensures
            match res {
                Ok(arg) => s.spec_bytes() == memory_type_name(arg),
                Err(ArgumentParseError::MemoryTypeParseError(name)) => {
                    &&& name@ == s@
                    &&& forall|arg: MemoryType| s.spec_bytes() != #[trigger] memory_type_name(arg)
                },
                Err(_) => false,
            },
    {
        let bytes = s.as_bytes();
        let fixed: [u8; 2] = [117, 97];
        let dual: [u8; 2] = [100, 97];
        let single: [u8; 2] = [115, 97];
        if bytes_equal(bytes, fixed.as_slice()) {
            assert(fixed@ =~= memory_type_name(MemoryType::UnsafeArrayArg));
            Ok(MemoryType::UnsafeArrayArg)
        } else if bytes_equal(bytes, dual.as_slice()) {
            assert(dual@ =~= memory_type_name(MemoryType::DualArrayArg));
            Ok(MemoryType::DualArrayArg)
        } else if bytes_equal(bytes, single.as_slice()) {
            assert(single@ =~= memory_type_name(MemoryType::SingleArrayArg));
            Ok(MemoryType::SingleArrayArg)
        } else {
            assert(fixed@ =~= memory_type_name(MemoryType::UnsafeArrayArg));
            assert(dual@ =~= memory_type_name(MemoryType::DualArrayArg));
            assert(single@ =~= memory_type_name(MemoryType::SingleArrayArg));
            Err(ArgumentParseError::MemoryTypeParseError(s.to_owned()))
        }
    }
}

} // verus!
