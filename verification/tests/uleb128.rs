use procmem::memory::error::ProcessError;
use procmem::memory::process::ProcessTraits;
use procmem::memory::uleb128::{uleb128_step, Uleb128Step, ULEB128_MAX_GROUPS};

struct Image {
    base: usize,
    bytes: Vec<u8>,
}

impl ProcessTraits for Image {
    fn read(&self, addr: usize, len: usize) -> Result<Vec<u8>, ProcessError> {
        if addr < self.base || addr - self.base + len > self.bytes.len() {
            return Err(ProcessError::BadAddress(addr, len));
        }
        Ok(self.bytes[addr - self.base..addr - self.base + len].to_vec())
    }
}

fn decode(bytes: &[u8]) -> Result<u64, ProcessError> {
    Image { base: 0x1000, bytes: bytes.to_vec() }.read_uleb128(0x1000)
}

#[test]
fn reference_vector_zero() {
    assert_eq!(decode(&[0x00]), Ok(0));
}

#[test]
fn reference_vector_127() {
    assert_eq!(decode(&[0x7f]), Ok(127));
}

#[test]
fn reference_vector_128() {
    assert_eq!(decode(&[0x80, 0x01]), Ok(128));
}

#[test]
fn reference_vector_624485() {
    assert_eq!(decode(&[0xe5, 0x8e, 0x26]), Ok(624485));
}

#[test]
fn decoding_stops_at_the_first_group_that_ends_the_encoding() {
    assert_eq!(decode(&[0x05, 0xff, 0xff]), Ok(5));
}

#[test]
fn trailing_zero_groups_do_not_change_the_value() {
    assert_eq!(decode(&[0x81, 0x80, 0x00]), Ok(1));
}

#[test]
fn greatest_value_takes_ten_groups() {
    let mut bytes = vec![0xff; 9];
    bytes.push(0x01);
    assert_eq!(decode(&bytes), Ok(u64::MAX));
}

#[test]
fn bit_63_alone() {
    let mut bytes = vec![0x80; 9];
    bytes.push(0x01);
    assert_eq!(decode(&bytes), Ok(1 << 63));
}

#[test]
fn tenth_group_with_more_than_one_bit_overflows() {
    let mut bytes = vec![0xff; 9];
    bytes.push(0x02);
    assert_eq!(decode(&bytes), Err(ProcessError::VarintOverflow));
}

#[test]
fn eleventh_group_overflows_even_when_the_value_is_small() {
    let mut bytes = vec![0x80; 10];
    bytes.push(0x00);
    assert_eq!(decode(&bytes), Err(ProcessError::VarintOverflow));
}

#[test]
fn overflow_reads_no_more_than_ten_bytes() {
    // Ten groups are mapped and all announce another: the eleventh byte,
    // which is not mapped, is never asked for.
    assert_eq!(decode(&[0xff; 10]), Err(ProcessError::VarintOverflow));
}

#[test]
fn unmapped_continuation_is_a_bad_address() {
    assert_eq!(decode(&[0x80, 0x80]), Err(ProcessError::BadAddress(0x1002, 1)));
}

#[test]
fn unmapped_start_is_a_bad_address() {
    assert_eq!(decode(&[]), Err(ProcessError::BadAddress(0x1000, 1)));
}

#[test]
fn step_accumulates_seven_bits_per_group() {
    assert_eq!(uleb128_step(0, 0, 0xe5), Uleb128Step::More(0x65));
    assert_eq!(uleb128_step(0x65, 1, 0x8e), Uleb128Step::More(0x65 + (0x0e << 7)));
    assert_eq!(uleb128_step(0x65 + (0x0e << 7), 2, 0x26), Uleb128Step::Done(624485));
}

#[test]
fn step_at_the_last_group() {
    let low: u64 = (1 << 63) - 1;
    assert_eq!(uleb128_step(low, ULEB128_MAX_GROUPS - 1, 0x01), Uleb128Step::Done(u64::MAX));
    assert_eq!(uleb128_step(low, ULEB128_MAX_GROUPS - 1, 0x00), Uleb128Step::Done(low));
    assert_eq!(uleb128_step(low, ULEB128_MAX_GROUPS - 1, 0x02), Uleb128Step::Overflow);
    assert_eq!(uleb128_step(low, ULEB128_MAX_GROUPS - 1, 0x81), Uleb128Step::Overflow);
    assert_eq!(uleb128_step(0, ULEB128_MAX_GROUPS - 1, 0x80), Uleb128Step::Overflow);
}
