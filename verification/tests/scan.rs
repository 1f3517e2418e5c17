use std::cell::RefCell;

use procmem::memory::error::ProcessError;
use procmem::memory::process::{MemoryRegion, ProcessTraits};
use procmem::memory::scan::{scan_region, scan_regions, ScanStep};
use procmem::memory::signature::{Signature, SignatureByte};

/// A process whose regions are given one by one: the bytes of a region, or
/// the error that reading it ends in. Every read is recorded.
struct Staged {
    regions: Vec<(MemoryRegion, Result<Vec<u8>, ProcessError>)>,
    reads: RefCell<Vec<(usize, usize)>>,
}

impl Staged {
    fn new(regions: Vec<(MemoryRegion, Result<Vec<u8>, ProcessError>)>) -> Staged {
        Staged { regions, reads: RefCell::new(Vec::new()) }
    }

    fn maps(&self) -> Vec<MemoryRegion> {
        self.regions.iter().map(|(region, _)| *region).collect()
    }
}

impl ProcessTraits for Staged {
    fn read(&self, addr: usize, len: usize) -> Result<Vec<u8>, ProcessError> {
        self.reads.borrow_mut().push((addr, len));
        for (region, outcome) in &self.regions {
            if region.from == addr && region.size == len {
                return outcome.clone();
            }
        }
        Err(ProcessError::BadAddress(addr, len))
    }
}

fn region(from: usize, bytes: &[u8]) -> (MemoryRegion, Result<Vec<u8>, ProcessError>) {
    (MemoryRegion { from, size: bytes.len() }, Ok(bytes.to_vec()))
}

fn failing(from: usize, size: usize, e: ProcessError) -> (MemoryRegion, Result<Vec<u8>, ProcessError>) {
    (MemoryRegion { from, size }, Err(e))
}

fn sign(bytes: &[u8]) -> Signature {
    Signature::new(bytes.iter().map(|b| SignatureByte::Byte(*b)).collect())
}

#[test]
fn match_in_the_second_region_is_anchored_to_the_second_region() {
    let process = Staged::new(vec![
        region(0x1000, &[0, 1, 2, 3, 4, 5, 6, 7]),
        region(0x8000, &[9, 9, 0xde, 0xad, 0xbe, 0xef, 9]),
    ]);
    assert_eq!(scan_regions(&process, &process.maps(), &sign(&[0xde, 0xad, 0xbe, 0xef])), Ok(0x8002));
}

#[test]
fn match_in_the_first_region_ends_the_scan() {
    let process = Staged::new(vec![region(0x1000, &[0, 1, 2, 3]), region(0x8000, &[1, 2])]);
    assert_eq!(scan_regions(&process, &process.maps(), &sign(&[1, 2])), Ok(0x1001));
    assert_eq!(*process.reads.borrow(), vec![(0x1000, 4)]);
}

#[test]
fn wildcards_match_across_a_scan() {
    let process = Staged::new(vec![region(0x1000, &[5, 5]), region(0x2000, &[1, 2, 3, 4, 5])]);
    let pattern = Signature::new(vec![SignatureByte::Byte(2), SignatureByte::Any, SignatureByte::Byte(4)]);
    assert_eq!(scan_regions(&process, &process.maps(), &pattern), Ok(0x2001));
}

#[test]
fn match_does_not_span_two_regions() {
    let process = Staged::new(vec![region(0x1000, &[0, 1]), region(0x1002, &[2, 3])]);
    assert_eq!(scan_regions(&process, &process.maps(), &sign(&[1, 2])), Err(ProcessError::SignatureNotFound));
}

#[test]
fn no_match_anywhere_is_signature_not_found() {
    let process = Staged::new(vec![region(0x1000, &[0, 1]), region(0x2000, &[2, 3])]);
    assert_eq!(scan_regions(&process, &process.maps(), &sign(&[7])), Err(ProcessError::SignatureNotFound));
    assert_eq!(*process.reads.borrow(), vec![(0x1000, 2), (0x2000, 2)]);
}

#[test]
fn no_regions_is_signature_not_found() {
    let process = Staged::new(Vec::new());
    assert_eq!(scan_regions(&process, &Vec::new(), &sign(&[7])), Err(ProcessError::SignatureNotFound));
    assert!(process.reads.borrow().is_empty());
}

#[test]
fn denied_read_aborts_the_scan_with_that_error() {
    let process = Staged::new(vec![
        region(0x1000, &[0, 1]),
        failing(0x2000, 16, ProcessError::AccessDenied),
        region(0x3000, &[7, 7]),
    ]);
    assert_eq!(scan_regions(&process, &process.maps(), &sign(&[7])), Err(ProcessError::AccessDenied));
    assert_eq!(*process.reads.borrow(), vec![(0x1000, 2), (0x2000, 16)]);
}

#[test]
fn vanished_process_aborts_the_scan_with_that_error() {
    let process = Staged::new(vec![failing(0x2000, 16, ProcessError::NoSuchProcess), region(0x3000, &[7, 7])]);
    assert_eq!(scan_regions(&process, &process.maps(), &sign(&[7])), Err(ProcessError::NoSuchProcess));
    assert_eq!(*process.reads.borrow(), vec![(0x2000, 16)]);
}

#[test]
fn unreadable_region_is_passed_over() {
    let process = Staged::new(vec![
        failing(0x1000, 0x1000, ProcessError::BadAddress(0x1000, 0x1000)),
        failing(0x2000, 0x1000, ProcessError::Os(5)),
        region(0x3000, &[0, 7, 7]),
    ]);
    assert_eq!(scan_regions(&process, &process.maps(), &sign(&[7])), Ok(0x3001));
    assert_eq!(process.reads.borrow().len(), 3);
}

#[test]
fn only_unreadable_regions_is_signature_not_found() {
    let process = Staged::new(vec![failing(0x1000, 0x1000, ProcessError::BadAddress(0x1000, 0x1000))]);
    assert_eq!(scan_regions(&process, &process.maps(), &sign(&[7])), Err(ProcessError::SignatureNotFound));
}

#[test]
fn regions_are_taken_in_their_stored_order() {
    let process = Staged::new(vec![region(0x9000, &[7]), region(0x1000, &[7])]);
    assert_eq!(scan_regions(&process, &process.maps(), &sign(&[7])), Ok(0x9000));
}

#[test]
fn region_at_the_top_of_the_address_space() {
    let process = Staged::new(vec![region(usize::MAX - 4, &[1, 2, 3, 7])]);
    assert_eq!(scan_regions(&process, &process.maps(), &sign(&[7])), Ok(usize::MAX - 1));
}

#[test]
fn one_region_decides_its_step() {
    let at = MemoryRegion { from: 0x500, size: 4 };
    let pattern = sign(&[3, 4]);
    assert_eq!(scan_region(&at, &Ok(vec![1, 2, 3, 4]), &pattern), ScanStep::Found(0x502));
    assert_eq!(scan_region(&at, &Ok(vec![1, 2, 3, 5]), &pattern), ScanStep::Skip);
    assert_eq!(scan_region(&at, &Err(ProcessError::AccessDenied), &pattern), ScanStep::Abort(ProcessError::AccessDenied));
    assert_eq!(scan_region(&at, &Err(ProcessError::NoSuchProcess), &pattern), ScanStep::Abort(ProcessError::NoSuchProcess));
    assert_eq!(scan_region(&at, &Err(ProcessError::BadAddress(0x500, 4)), &pattern), ScanStep::Skip);
    assert_eq!(scan_region(&at, &Err(ProcessError::Os(22)), &pattern), ScanStep::Skip);
}
