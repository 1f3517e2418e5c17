//! The process model and the typed reads that any reader of process memory offers.

use vstd::prelude::*;
use super::endian::{
    decode_i128, decode_i16, decode_i32, decode_i64, decode_i8, decode_u128, decode_u16,
    decode_u32, decode_u64, decode_u8, le_value, signed_value,
};
use super::error::ProcessError;
use super::uleb128::{
    lemma_step_extends, uleb128_bounded, uleb128_decoded, uleb128_open, uleb128_step,
    uleb128_value, Uleb128Step, ULEB128_MAX_GROUPS,
};
use super::wide::{decode_wide, string_decoded, wide_len};

verus! {

/// One contiguous range of a process's virtual address space.
#[derive(Debug, Clone, Copy, PartialEq, Eq, Structural)]
pub struct MemoryRegion {
    /// The address of the first byte.
    pub from: usize,
    /// The number of bytes.
    pub size: usize,
}

impl MemoryRegion {
    /// The region ends within the address space.
    pub open spec fn wf(self) -> bool {
        self.from + self.size <= usize::MAX
    }
}

/// A process and the snapshot of its memory map that was taken for it. The
/// snapshot is never refreshed: when the process maps or unmaps memory, the
/// caller takes a new one.
#[derive(Debug, PartialEq, Eq)]
pub struct Process {
    /// The identifier the operating system gave the process.
    pub pid: i32,
    /// The mapped regions, in the order in which the memory map listed them.
    pub maps: Vec<MemoryRegion>,
}

impl Process {
    /// Every region of the snapshot ends within the address space.
    pub open spec fn wf(&self) -> bool {
        regions_wf(self.maps@)
    }
}

/// Every region ends within the address space.
pub open spec fn regions_wf(regions: Seq<MemoryRegion>) -> bool {
    forall|i: int| 0 <= i < regions.len() ==> (#[trigger] regions[i]).wf()
}

/// The capability to read the memory of a process, and the typed decoding
/// that rests on it. A backend supplies `read`; everything else is derived.
pub trait ProcessTraits: Sized {
    /// What a read of `len` bytes at `addr` may hand back. A live process
    /// promises `len` bytes or a read error and nothing about the contents,
    /// which may change between two reads; a backend over a frozen image
    /// narrows this to the image's bytes.
    open spec fn may_yield(
        &self,
        addr: usize,
        len: usize,
        outcome: Result<Seq<u8>, ProcessError>,
    ) -> bool {
        match outcome {
            Ok(bytes) => bytes.len() == len,
            Err(e) => e.is_read_error(addr, len),
        }
    }

    /// Reads exactly `len` bytes at `addr` in one bounded read.
    fn read(&self, addr: usize, len: usize) -> (r: Result<Vec<u8>, ProcessError>)
        ensures
            match r {
                Ok(bytes) => bytes@.len() == len && self.may_yield(addr, len, Ok(bytes@)),
                Err(e) => self.may_yield(addr, len, Err(e)),
            },
    ;

    /// Reads the byte at `addr`.
    fn read_u8(&self, addr: usize) -> (r: Result<u8, ProcessError>)
        ensures
            exists|o: Result<Seq<u8>, ProcessError>|
                #[trigger] self.may_yield(addr, 1, o) && match o {
                    Ok(b) => b.len() == 1 && r == Ok::<u8, ProcessError>(le_value(b) as u8),
                    Err(e) => r == Err::<u8, ProcessError>(e),
                },
    {
        match self.read(addr, 1) {
            Ok(bytes) => Ok(decode_u8(bytes.as_slice())),
            Err(e) => Err(e),
        }
    }

    /// Reads the little-endian `u16` at `addr`.
    fn read_u16(&self, addr: usize) -> (r: Result<u16, ProcessError>)
        ensures
            exists|o: Result<Seq<u8>, ProcessError>|
                #[trigger] self.may_yield(addr, 2, o) && match o {
                    Ok(b) => b.len() == 2 && r == Ok::<u16, ProcessError>(le_value(b) as u16),
                    Err(e) => r == Err::<u16, ProcessError>(e),
                },
    {
        match self.read(addr, 2) {
            Ok(bytes) => Ok(decode_u16(bytes.as_slice())),
            Err(e) => Err(e),
        }
    }

    /// Reads the little-endian `u32` at `addr`.
    fn read_u32(&self, addr: usize) -> (r: Result<u32, ProcessError>)
        ensures
            exists|o: Result<Seq<u8>, ProcessError>|
                #[trigger] self.may_yield(addr, 4, o) && match o {
                    Ok(b) => b.len() == 4 && r == Ok::<u32, ProcessError>(le_value(b) as u32),
                    Err(e) => r == Err::<u32, ProcessError>(e),
                },
    {
        match self.read(addr, 4) {
            Ok(bytes) => Ok(decode_u32(bytes.as_slice())),
            Err(e) => Err(e),
        }
    }

    /// Reads the little-endian `u64` at `addr`.
    fn read_u64(&self, addr: usize) -> (r: Result<u64, ProcessError>)
        ensures
            exists|o: Result<Seq<u8>, ProcessError>|
                #[trigger] self.may_yield(addr, 8, o) && match o {
                    Ok(b) => b.len() == 8 && r == Ok::<u64, ProcessError>(le_value(b) as u64),
                    Err(e) => r == Err::<u64, ProcessError>(e),
                },
    {
        match self.read(addr, 8) {
            Ok(bytes) => Ok(decode_u64(bytes.as_slice())),
            Err(e) => Err(e),
        }
    }

    /// Reads the little-endian `u128` at `addr`.
    fn read_u128(&self, addr: usize) -> (r: Result<u128, ProcessError>)
        ensures
            exists|o: Result<Seq<u8>, ProcessError>|
                #[trigger] self.may_yield(addr, 16, o) && match o {
                    Ok(b) => b.len() == 16 && r == Ok::<u128, ProcessError>(le_value(b) as u128),
                    Err(e) => r == Err::<u128, ProcessError>(e),
                },
    {
        match self.read(addr, 16) {
            Ok(bytes) => Ok(decode_u128(bytes.as_slice())),
            Err(e) => Err(e),
        }
    }

    /// Reads the two's-complement `i8` at `addr`.
    fn read_i8(&self, addr: usize) -> (r: Result<i8, ProcessError>)
        ensures
            exists|o: Result<Seq<u8>, ProcessError>|
                #[trigger] self.may_yield(addr, 1, o) && match o {
                    Ok(b) => b.len() == 1 && r == Ok::<i8, ProcessError>(
                        signed_value(le_value(b), 1) as i8,
                    ),
                    Err(e) => r == Err::<i8, ProcessError>(e),
                },
    {
        match self.read(addr, 1) {
            Ok(bytes) => Ok(decode_i8(bytes.as_slice())),
            Err(e) => Err(e),
        }
    }

    /// Reads the little-endian two's-complement `i16` at `addr`.
    fn read_i16(&self, addr: usize) -> (r: Result<i16, ProcessError>)
        ensures
            exists|o: Result<Seq<u8>, ProcessError>|
                #[trigger] self.may_yield(addr, 2, o) && match o {
                    Ok(b) => b.len() == 2 && r == Ok::<i16, ProcessError>(
                        signed_value(le_value(b), 2) as i16,
                    ),
                    Err(e) => r == Err::<i16, ProcessError>(e),
                },
    {
        match self.read(addr, 2) {
            Ok(bytes) => Ok(decode_i16(bytes.as_slice())),
            Err(e) => Err(e),
        }
    }

    /// Reads the little-endian two's-complement `i32` at `addr`.
    fn read_i32(&self, addr: usize) -> (r: Result<i32, ProcessError>)
        ensures
            exists|o: Result<Seq<u8>, ProcessError>|
                #[trigger] self.may_yield(addr, 4, o) && match o {
                    Ok(b) => b.len() == 4 && r == Ok::<i32, ProcessError>(
                        signed_value(le_value(b), 4) as i32,
                    ),
                    Err(e) => r == Err::<i32, ProcessError>(e),
                },
    {
        match self.read(addr, 4) {
            Ok(bytes) => Ok(decode_i32(bytes.as_slice())),
            Err(e) => Err(e),
        }
    }

    /// Reads the little-endian two's-complement `i64` at `addr`.
    fn read_i64(&self, addr: usize) -> (r: Result<i64, ProcessError>)
        ensures
            exists|o: Result<Seq<u8>, ProcessError>|
                #[trigger] self.may_yield(addr, 8, o) && match o {
                    Ok(b) => b.len() == 8 && r == Ok::<i64, ProcessError>(
                        signed_value(le_value(b), 8) as i64,
                    ),
                    Err(e) => r == Err::<i64, ProcessError>(e),
                },
    {
        match self.read(addr, 8) {
            Ok(bytes) => Ok(decode_i64(bytes.as_slice())),
            Err(e) => Err(e),
        }
    }

    /// Reads the little-endian two's-complement `i128` at `addr`.
    fn read_i128(&self, addr: usize) -> (r: Result<i128, ProcessError>)
        ensures
            exists|o: Result<Seq<u8>, ProcessError>|
                #[trigger] self.may_yield(addr, 16, o) && match o {
                    Ok(b) => b.len() == 16 && r == Ok::<i128, ProcessError>(
                        signed_value(le_value(b), 16) as i128,
                    ),
                    Err(e) => r == Err::<i128, ProcessError>(e),
                },
    {
        match self.read(addr, 16) {
            Ok(bytes) => Ok(decode_i128(bytes.as_slice())),
            Err(e) => Err(e),
        }
    }

    /// Decodes the unsigned LEB128 integer that starts at `addr`, reading one
    /// byte at a time and stopping at the first group that ends the encoding.
    /// At most ten groups are read; a value that needs more than 64 bits is
    /// an overflow.
    fn read_uleb128(&self, addr: usize) -> (r: Result<u64, ProcessError>)
        requires
            addr + ULEB128_MAX_GROUPS - 1 <= usize::MAX,
        ensures
            exists|groups: Seq<u8>|
                {
                    &&& #[trigger] uleb128_bounded(groups)
                    &&& forall|i: int|
                        0 <= i < groups.len() ==> self.may_yield(
                            (addr + i) as usize,
                            1,
                            Ok(seq![#[trigger] groups[i]]),
                        )
                    &&& {
                        ||| uleb128_decoded(groups, r)
                        ||| {
                            &&& r matches Err(e)
                            &&& groups.len() < ULEB128_MAX_GROUPS
                            &&& uleb128_open(groups)
                            &&& self.may_yield((addr + groups.len()) as usize, 1, Err(e))
                        }
                    }
                },
    {
        let ghost mut groups: Seq<u8> = Seq::empty();
        let mut value: u64 = 0;
        let mut index: usize = 0;
        loop
            invariant
                addr + ULEB128_MAX_GROUPS - 1 <= usize::MAX,
                index == groups.len(),
                index < ULEB128_MAX_GROUPS,
                uleb128_open(groups),
                value == uleb128_value(groups),
                forall|i: int|
                    0 <= i < groups.len() ==> self.may_yield(
                        (addr + i) as usize,
                        1,
                        Ok(seq![#[trigger] groups[i]]),
                    ),
            decreases ULEB128_MAX_GROUPS - index,
        {
            let byte: u8 = match self.read(addr + index, 1) {
                Ok(bytes) => {
                    assert(bytes@ =~= seq![bytes@[0]]);
                    bytes[0]
                },
                Err(e) => {
                    assert(uleb128_bounded(groups));
                    return Err(e);
                },
            };
            proof {
                lemma_step_extends(groups, byte);
            }
            let ghost before = groups;
            proof {
                groups = groups.push(byte);
                assert forall|i: int| 0 <= i < groups.len() implies self.may_yield(
                    (addr + i) as usize,
                    1,
                    Ok(seq![#[trigger] groups[i]]),
                ) by {
                    if i < before.len() {
                        assert(groups[i] == before[i]);
                    }
                }
            }
            match uleb128_step(value, index, byte) {
                Uleb128Step::More(next) => {
                    value = next;
                    index += 1;
                },
                Uleb128Step::Done(v) => {
                    assert(uleb128_bounded(groups));
                    return Ok(v);
                },
                Uleb128Step::Overflow => {
                    assert(uleb128_bounded(groups));
                    return Err(ProcessError::VarintOverflow);
                },
            }
        }
    }

    /// Reads the length-prefixed wide string whose object starts at `addr`:
    /// a 32-bit character count at `addr + 4`, then that many UTF-16 code
    /// units from `addr + 8` on, decoded with replacement of what is invalid.
    fn read_string(&self, addr: usize) -> (r: Result<String, ProcessError>)
        requires
            addr + 8 <= usize::MAX,
        ensures
            exists|header: Result<Seq<u8>, ProcessError>|
                #[trigger] self.may_yield((addr + 4) as usize, 4, header) && match header {
                    Err(e) => r == Err::<String, ProcessError>(e),
                    Ok(h) => {
                        &&& h.len() == 4
                        &&& if wide_len(h) > usize::MAX {
                            r == Err::<String, ProcessError>(
                                ProcessError::BadAddress((addr + 8) as usize, usize::MAX),
                            )
                        } else {
                            exists|data: Result<Seq<u8>, ProcessError>|
                                #[trigger] self.may_yield(
                                    (addr + 8) as usize,
                                    wide_len(h) as usize,
                                    data,
                                ) && string_decoded(data, wide_len(h), r)
                        }
                    },
                },
    {
        let header: Vec<u8> = match self.read(addr + 4, 4) {
            Ok(bytes) => bytes,
            Err(e) => return Err(e),
        };
        let count: u32 = decode_u32(header.as_slice());
        let len: usize = match (count as usize).checked_mul(2) {
            Some(len) => len,
            None => return Err(ProcessError::BadAddress(addr + 8, usize::MAX)),
        };
        match self.read(addr + 8, len) {
            Ok(bytes) => Ok(decode_wide(bytes.as_slice())),
            Err(e) => Err(e),
        }
    }
}

} // verus!
