//! The Linux backend: reads through `process_vm_readv`, and takes the process
//! listing and the memory map in the text forms of the `/proc` file system.

use vstd::prelude::*;
use vstd::string::StringSliceAdditionalSpecFns;
use std::io::IoSliceMut;
use nix::errno::Errno;
use nix::sys::uio::{process_vm_readv, RemoteIoVec};
use nix::unistd::Pid;
use super::error::{ProcessError, ReadFault};
use super::locate::{locate, located, ProcessEntry};
use super::maps::{parse_maps, parse_maps_spec};
use super::process::{Process, ProcessTraits};
use super::scan::{scan_outcome, scan_regions, scan_trace};
use super::signature::Signature;

verus! {

/// `nix::sys::uio::process_vm_readv` with one local and one remote range of
/// `buff.len()` bytes each, the remote one starting at `base` in process
/// `pid`. Hands back the number of bytes that the call reports as
/// transferred, or the kind of its error (`EPERM`, `ESRCH`, `EFAULT`, or any
/// other with its number). The contract claims only that the buffer keeps its
/// length; it says nothing of the count or of the bytes.
#[verifier::external_body]
fn vm_read(pid: i32, base: usize, buff: &mut Vec<u8>) -> (r: Result<usize, ReadFault>)
    ensures
        final(buff)@.len() == old(buff)@.len(),
{
    let remote = RemoteIoVec { base, len: buff.len() };
    let local = IoSliceMut::new(buff.as_mut_slice());
    match process_vm_readv(Pid::from_raw(pid), &mut [local], &[remote]) {
        Ok(n) => Ok(n),
        Err(Errno::EPERM) => Err(ReadFault::AccessDenied),
        Err(Errno::ESRCH) => Err(ReadFault::NoSuchProcess),
        Err(Errno::EFAULT) => Err(ReadFault::BadAddress),
        Err(e) => Err(ReadFault::Other(e as i32)),
    }
}

/// What a targeted read of `len` bytes at `addr` ends in when the operating
/// system reported `transferred`: success only when all `len` bytes arrived.
/// A short transfer means that part of the range is not mapped and counts as
/// a bad address, as does the fault of that name; every other fault keeps its
/// kind.
pub open spec fn read_verdict(
    addr: usize,
    len: usize,
    transferred: Result<usize, ReadFault>,
) -> Result<(), ProcessError> {
    match transferred {
        Ok(n) => if n == len {
            Ok(())
        } else {
            Err(ProcessError::BadAddress(addr, len))
        },
        Err(fault) => Err(ProcessError::of_fault(addr, len, fault)),
    }
}

/// Turns what the operating system reported of a read of `len` bytes at
/// `addr` into the result of the targeted read: the buffer when all of it was
/// filled, `BadAddress(addr, len)` when the range is not mapped, and the
/// error of the fault otherwise.
pub fn finish_read(
    addr: usize,
    len: usize,
    buff: Vec<u8>,
    transferred: Result<usize, ReadFault>,
) -> (r: Result<Vec<u8>, ProcessError>)
    ensures
        match read_verdict(addr, len, transferred) {
            Ok(_) => r == Ok::<Vec<u8>, ProcessError>(buff),
            Err(e) => r == Err::<Vec<u8>, ProcessError>(e) && e.is_read_error(addr, len),
        },
{
    match transferred {
        Ok(n) => if n == len {
            Ok(buff)
        } else {
            Err(ProcessError::from_fault(addr, len, ReadFault::BadAddress))
        },
        Err(fault) => Err(ProcessError::from_fault(addr, len, fault)),
    }
}

/// A targeted read ends in `BadAddress(addr, len)` exactly when the range was
/// not mapped, in whole or in part: no other failure is reported under that name.
pub proof fn lemma_unmapped_read_is_bad_address(
    addr: usize,
    len: usize,
    transferred: Result<usize, ReadFault>,
)
    ensures
        read_verdict(addr, len, transferred) == Err::<(), ProcessError>(
            ProcessError::BadAddress(addr, len),
        ) <==> (transferred == Err::<usize, ReadFault>(ReadFault::BadAddress) || (
        transferred matches Ok(n) && n != len)),
        read_verdict(addr, len, transferred) is Ok <==> transferred == Ok::<usize, ReadFault>(len),
{
}

impl ProcessTraits for Process {
    /// Issues one cross-process read of `len` bytes at `addr`. A range that
    /// is not mapped in the target gives `BadAddress(addr, len)`; every other
    /// failure gives the error of its kind. No range of more than
    /// `isize::MAX` bytes is ever mapped, so for such a length the operating
    /// system is not asked.
    fn read(&self, addr: usize, len: usize) -> (r: Result<Vec<u8>, ProcessError>)
        ensures
            r matches Err(e) ==> e.is_read_error(addr, len),
            len > isize::MAX ==> r == Err::<Vec<u8>, ProcessError>(
                ProcessError::BadAddress(addr, len),
            ),
    {
        if len > isize::MAX as usize {
            return Err(ProcessError::from_fault(addr, len, ReadFault::BadAddress));
        }
        let mut buff: Vec<u8> = vec![0u8; len];
        let transferred = vm_read(self.pid, addr, &mut buff);
        finish_read(addr, len, buff, transferred)
    }
}

impl Process {
    /// Chooses the process called `proc_name` from a listing of the running
    /// processes and returns it with an empty memory map. A process is a
    /// candidate when the first token of its command line holds `proc_name`;
    /// the candidate with the lowest identifier is chosen.
    pub fn find_process(entries: &Vec<ProcessEntry>, proc_name: &str) -> (r: Result<
        Process,
        ProcessError,
    >)
        ensures
            located(
                entries@,
                proc_name.spec_bytes(),
                match r {
                    Ok(process) => Ok(process.pid),
                    Err(e) => Err(e),
                },
            ),
            r matches Ok(process) ==> process.maps@.len() == 0,
    {
        match locate(entries, proc_name.as_bytes()) {
            Ok(pid) => Ok(Process { pid, maps: Vec::new() }),
            Err(e) => Err(e),
        }
    }

    /// Gives the process the regions that the text of its memory map
    /// describes, in the order of its lines. A malformed text is an error and
    /// leaves no partial list behind.
    pub fn read_regions(self, maps_text: &[u8]) -> (r: Result<Process, ProcessError>)
        ensures
            match parse_maps_spec(maps_text@) {
                Some(regions) => {
                    &&& r matches Ok(process)
                    &&& process.pid == self.pid
                    &&& process.maps@ == regions
                    &&& process.wf()
                },
                None => r == Err::<Process, ProcessError>(ProcessError::Parse),
            },
    {
        match parse_maps(maps_text) {
            Ok(maps) => Ok(Process { pid: self.pid, maps }),
            Err(e) => Err(e),
        }
    }

    /// Scans the regions of the snapshot in their stored order for `sign` and
    /// returns the absolute address of its first occurrence.
    pub fn read_signature(&self, sign: &Signature) -> (r: Result<usize, ProcessError>)
        requires
            self.wf(),
        ensures
            exists|outcomes: Seq<Result<Seq<u8>, ProcessError>>|
                {
                    &&& #[trigger] scan_trace(self.maps@, outcomes, sign@)
                    &&& forall|i: int|
                        0 <= i < outcomes.len() ==> self.may_yield(
                            self.maps@[i].from,
                            self.maps@[i].size,
                            #[trigger] outcomes[i],
                        )
                    &&& r == scan_outcome(self.maps@, outcomes, sign@)
                },
    {
        scan_regions(self, &self.maps, sign)
    }
}

} // verus!
