//! Wide-character strings: UTF-16 code units stored as little-endian byte pairs.

use vstd::prelude::*;
use super::endian::le_value;
use super::error::ProcessError;

verus! {

/// The 16-bit code units that the byte pairs of `bytes` spell, low byte
/// first. A trailing odd byte belongs to no pair and is left out.
pub open spec fn code_units_of(bytes: Seq<u8>) -> Seq<u16> {
    Seq::new(bytes.len() / 2, |i: int| (bytes[2 * i] + 256 * bytes[2 * i + 1]) as u16)
}

/// The text that a sequence of UTF-16 code units decodes to when every
/// unpaired surrogate is replaced by U+FFFD.
pub uninterp spec fn utf16_lossy(units: Seq<u16>) -> Seq<char>;

/// The number of bytes of character data that a string header announces: two
/// for each of the characters it counts.
pub open spec fn wide_len(header: Seq<u8>) -> nat {
    2 * le_value(header)
}

/// `r` is what the read of `len` bytes of character data ends in when it
/// handed back `data`: its error, or the text that the bytes decode to.
pub open spec fn string_decoded(
    data: Result<Seq<u8>, ProcessError>,
    len: nat,
    r: Result<String, ProcessError>,
) -> bool {
    match data {
        Err(e) => r == Err::<String, ProcessError>(e),
        Ok(d) => {
            &&& d.len() == len
            &&& r matches Ok(text)
            &&& text@ == utf16_lossy(code_units_of(d))
        },
    }
}

/// `String::from_utf16_lossy`: decodes UTF-16 and never fails; its result is a
/// function of the code units alone, which the contract names and does not
/// spell out.
#[verifier::external_body]
fn string_from_utf16_lossy(units: &[u16]) -> (text: String)
    ensures
        text@ == utf16_lossy(units@),
{
    String::from_utf16_lossy(units)
}

/// Pairs the bytes up into code units, low byte first, checking every index.
pub fn code_units(bytes: &[u8]) -> (units: Vec<u16>)
    ensures
        units@ == code_units_of(bytes@),
{
    let count: usize = bytes.len() / 2;
    let mut units: Vec<u16> = Vec::with_capacity(count);
    let mut i: usize = 0;
    while i < count
        invariant
            count == bytes@.len() / 2,
            bytes@.len() <= usize::MAX,
            i <= count,
            units@.len() == i,
            forall|j: int| 0 <= j < i ==> #[trigger] units@[j] == code_units_of(bytes@)[j],
        decreases count - i,
    {
        let low: u16 = bytes[2 * i] as u16;
        let high: u16 = bytes[2 * i + 1] as u16;
        units.push(low + 256 * high);
        i += 1;
    }
    assert(units@ =~= code_units_of(bytes@));
    units
}

/// Decodes little-endian UTF-16 bytes into text, replacing what is not valid
/// UTF-16 rather than failing.
pub fn decode_wide(bytes: &[u8]) -> (text: String)
    ensures
        text@ == utf16_lossy(code_units_of(bytes@)),
{
    let units: Vec<u16> = code_units(bytes);
    string_from_utf16_lossy(units.as_slice())
}

} // verus!
