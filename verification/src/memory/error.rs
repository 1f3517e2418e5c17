//! Failure kinds of the library and the policy that maps a failed remote read
//! onto them.

use vstd::prelude::*;

verus! {

/// Why the operating system refused a cross-process read.
#[derive(Debug, Clone, Copy, PartialEq, Eq, Structural)]
pub enum ReadFault {
    /// The caller may not inspect the target process.
    AccessDenied,
    /// The target process no longer exists.
    NoSuchProcess,
    /// The requested range is not mapped in the target.
    BadAddress,
    /// Any other failure, with the raw error number.
    Other(i32),
}

/// Everything that can go wrong while locating, mapping, reading or decoding.
#[derive(Debug, Clone, Copy, PartialEq, Eq, Structural)]
pub enum ProcessError {
    /// No running process matched the requested name.
    ProcessNotFound,
    /// Process status or memory-map text was malformed.
    Parse,
    /// A read of `len` bytes at `addr` hit a range that is not mapped: `BadAddress(addr, len)`.
    BadAddress(usize, usize),
    /// The caller may not inspect the target process.
    AccessDenied,
    /// The target process no longer exists.
    NoSuchProcess,
    /// The operating system failed the read for another reason, with the raw error number.
    Os(i32),
    /// Every region was scanned and none held the signature.
    SignatureNotFound,
    /// A variable-length integer does not fit in 64 bits.
    VarintOverflow,
}

impl ProcessError {
    /// The error of a targeted read of `len` bytes at `addr` that failed with `fault`.
    pub open spec fn of_fault(addr: usize, len: usize, fault: ReadFault) -> ProcessError {
        match fault {
            ReadFault::AccessDenied => ProcessError::AccessDenied,
            ReadFault::NoSuchProcess => ProcessError::NoSuchProcess,
            ReadFault::BadAddress => ProcessError::BadAddress(addr, len),
            ReadFault::Other(code) => ProcessError::Os(code),
        }
    }

    /// True of the errors after which no further read of the same process can succeed.
    pub open spec fn is_fatal(self) -> bool {
        self == ProcessError::AccessDenied || self == ProcessError::NoSuchProcess
    }

    /// True of the errors that a read of `len` bytes at `addr` may end in.
    pub open spec fn is_read_error(self, addr: usize, len: usize) -> bool {
        exists|fault: ReadFault| self == #[trigger] ProcessError::of_fault(addr, len, fault)
    }

    /// Maps the fault of a targeted read onto the library's error: an unmapped
    /// range becomes `BadAddress(addr, len)`, everything else keeps its kind.
    pub fn from_fault(addr: usize, len: usize, fault: ReadFault) -> (e: ProcessError)
        ensures
            e == ProcessError::of_fault(addr, len, fault),
            e.is_read_error(addr, len),
    {
        match fault {
            ReadFault::AccessDenied => ProcessError::AccessDenied,
            ReadFault::NoSuchProcess => ProcessError::NoSuchProcess,
            ReadFault::BadAddress => ProcessError::BadAddress(addr, len),
            ReadFault::Other(code) => ProcessError::Os(code),
        }
    }

    /// Whether a scan must stop at this error rather than move on to the next region.
    pub fn aborts_scan(&self) -> (b: bool)
        ensures
            b == self.is_fatal(),
    {
        match self {
            ProcessError::AccessDenied => true,
            ProcessError::NoSuchProcess => true,
            _ => false,
        }
    }
}

/// A targeted read surfaces `BadAddress(addr, len)` exactly when the range was
/// unmapped, and that error differs from the error of every other fault.
pub proof fn lemma_bad_address_is_distinct(addr: usize, len: usize, fault: ReadFault)
    ensures
        ProcessError::of_fault(addr, len, fault) == ProcessError::BadAddress(addr, len)
            <==> fault == ReadFault::BadAddress,
        ProcessError::of_fault(addr, len, fault) is BadAddress <==> fault == ReadFault::BadAddress,
        !ProcessError::of_fault(addr, len, ReadFault::BadAddress).is_fatal(),
{
}

/// Distinct faults never collapse into one error: the mapping loses nothing.
pub proof fn lemma_of_fault_injective(addr: usize, len: usize, f1: ReadFault, f2: ReadFault)
    requires
        ProcessError::of_fault(addr, len, f1) == ProcessError::of_fault(addr, len, f2),
    ensures
        f1 == f2,
{
}

} // verus!
