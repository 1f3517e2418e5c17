use procmem::memory::error::{ProcessError, ReadFault};
use procmem::memory::linux::finish_read;
use procmem::memory::process::{MemoryRegion, Process, ProcessTraits};
use procmem::memory::signature::{Signature, SignatureByte};

fn myself(maps: Vec<MemoryRegion>) -> Process {
    Process { pid: nix::unistd::getpid().as_raw(), maps }
}

#[test]
fn read_fetches_the_bytes_at_the_address() {
    let data: Vec<u8> = (1..=64).collect();
    let process = myself(Vec::new());
    assert_eq!(process.read(data.as_ptr() as usize, 64), Ok(data.clone()));
    assert_eq!(process.read(data.as_ptr() as usize + 10, 3), Ok(vec![11, 12, 13]));
}

#[test]
fn read_of_no_bytes_gives_no_bytes() {
    let data: Vec<u8> = vec![1, 2, 3];
    assert_eq!(myself(Vec::new()).read(data.as_ptr() as usize, 0), Ok(Vec::new()));
}

#[test]
fn read_of_an_unmapped_address_is_a_bad_address() {
    let process = myself(Vec::new());
    assert_eq!(process.read(8, 16), Err(ProcessError::BadAddress(8, 16)));
    assert_eq!(process.read_u32(8), Err(ProcessError::BadAddress(8, 4)));
}

#[test]
fn read_of_a_process_that_does_not_exist() {
    let nobody = Process { pid: i32::MAX, maps: Vec::new() };
    assert_eq!(nobody.read(0x1000, 4), Err(ProcessError::NoSuchProcess));
}

#[test]
fn typed_reads_of_live_memory() {
    let value: u64 = 0x1122_3344_5566_7788;
    let stored: Vec<u8> = value.to_le_bytes().to_vec();
    let process = myself(Vec::new());
    let addr = stored.as_ptr() as usize;
    assert_eq!(process.read_u64(addr), Ok(value));
    assert_eq!(process.read_u32(addr), Ok(0x5566_7788));
    assert_eq!(process.read_u16(addr + 6), Ok(0x1122));
    assert_eq!(process.read_i8(addr), Ok(0x88u8 as i8));
}

#[test]
fn uleb128_of_live_memory() {
    let data: [u8; 3] = [0xe5, 0x8e, 0x26];
    assert_eq!(myself(Vec::new()).read_uleb128(data.as_ptr() as usize), Ok(624485));
}

#[test]
fn string_of_live_memory() {
    let mut object: Vec<u8> = vec![0; 4];
    object.extend_from_slice(&2u32.to_le_bytes());
    object.extend_from_slice(&[0x6f, 0x00, 0x6b, 0x00]);
    assert_eq!(myself(Vec::new()).read_string(object.as_ptr() as usize), Ok("ok".to_string()));
}

#[test]
fn signature_is_found_in_live_memory() {
    let first: Vec<u8> = vec![0x10; 256];
    let mut second: Vec<u8> = vec![0x20; 256];
    second[100..104].copy_from_slice(&[0xc0, 0xff, 0xee, 0x42]);
    let process = myself(vec![
        MemoryRegion { from: first.as_ptr() as usize, size: first.len() },
        MemoryRegion { from: second.as_ptr() as usize, size: second.len() },
    ]);
    let sign = Signature::new(vec![
        SignatureByte::Byte(0xc0),
        SignatureByte::Any,
        SignatureByte::Byte(0xee),
        SignatureByte::Byte(0x42),
    ]);
    assert_eq!(process.read_signature(&sign), Ok(second.as_ptr() as usize + 100));
}

#[test]
fn scan_passes_over_an_unmapped_region() {
    let data: Vec<u8> = vec![1, 2, 3, 4];
    let process = myself(vec![
        MemoryRegion { from: 16, size: 4096 },
        MemoryRegion { from: data.as_ptr() as usize, size: data.len() },
    ]);
    let sign = Signature::new(vec![SignatureByte::Byte(3), SignatureByte::Byte(4)]);
    assert_eq!(process.read_signature(&sign), Ok(data.as_ptr() as usize + 2));
}

#[test]
fn scan_of_a_process_that_does_not_exist_aborts() {
    let nobody = Process { pid: i32::MAX, maps: vec![MemoryRegion { from: 0x1000, size: 16 }] };
    let sign = Signature::new(vec![SignatureByte::Any]);
    assert_eq!(nobody.read_signature(&sign), Err(ProcessError::NoSuchProcess));
}

#[test]
fn complete_transfer_hands_the_buffer_on() {
    assert_eq!(finish_read(0x10, 3, vec![1, 2, 3], Ok(3)), Ok(vec![1, 2, 3]));
    assert_eq!(finish_read(0x10, 0, Vec::new(), Ok(0)), Ok(Vec::new()));
}

#[test]
fn short_transfer_is_a_bad_address() {
    assert_eq!(finish_read(0x10, 3, vec![1, 2, 0], Ok(2)), Err(ProcessError::BadAddress(0x10, 3)));
    assert_eq!(finish_read(0x10, 3, vec![0, 0, 0], Ok(0)), Err(ProcessError::BadAddress(0x10, 3)));
}

#[test]
fn each_fault_of_a_read_keeps_its_kind() {
    let buff = || vec![0u8; 4];
    assert_eq!(finish_read(0x20, 4, buff(), Err(ReadFault::BadAddress)), Err(ProcessError::BadAddress(0x20, 4)));
    assert_eq!(finish_read(0x20, 4, buff(), Err(ReadFault::AccessDenied)), Err(ProcessError::AccessDenied));
    assert_eq!(finish_read(0x20, 4, buff(), Err(ReadFault::NoSuchProcess)), Err(ProcessError::NoSuchProcess));
    assert_eq!(finish_read(0x20, 4, buff(), Err(ReadFault::Other(22))), Err(ProcessError::Os(22)));
}

#[test]
fn faults_map_onto_errors() {
    assert_eq!(ProcessError::from_fault(1, 2, ReadFault::BadAddress), ProcessError::BadAddress(1, 2));
    assert_eq!(ProcessError::from_fault(1, 2, ReadFault::AccessDenied), ProcessError::AccessDenied);
    assert_eq!(ProcessError::from_fault(1, 2, ReadFault::NoSuchProcess), ProcessError::NoSuchProcess);
    assert_eq!(ProcessError::from_fault(1, 2, ReadFault::Other(-7)), ProcessError::Os(-7));
}

#[test]
fn only_denial_and_a_vanished_process_abort_a_scan() {
    assert!(ProcessError::AccessDenied.aborts_scan());
    assert!(ProcessError::NoSuchProcess.aborts_scan());
    assert!(!ProcessError::BadAddress(0, 0).aborts_scan());
    assert!(!ProcessError::Os(1).aborts_scan());
    assert!(!ProcessError::Parse.aborts_scan());
    assert!(!ProcessError::ProcessNotFound.aborts_scan());
    assert!(!ProcessError::SignatureNotFound.aborts_scan());
    assert!(!ProcessError::VarintOverflow.aborts_scan());
}
