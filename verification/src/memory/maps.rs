//! The memory map of a process as text: one line for each mapped region,
//! `<hex-start>-<hex-end>` first, then fields that are of no concern here.
//!
//! Every line is taken. An empty line stands for nothing and is passed over,
//! wherever it is; any other line that does not begin with a range makes the
//! whole text malformed, since a region list with a gap cannot be trusted.

use vstd::prelude::*;
use vstd::slice::slice_subrange;
use super::error::ProcessError;
use super::process::{regions_wf, MemoryRegion};
use super::text::{find_byte, is_blank, is_space, lemma_run_until_is, run_until};

verus! {

/// The line separator.
pub const NEWLINE: u8 = 0x0a;

/// The separator between the two ends of a range.
pub const DASH: u8 = 0x2d;

/// Whether `b` is an ASCII hexadecimal digit, of either case.
pub open spec fn is_hex_digit(b: u8) -> bool {
    (0x30 <= b <= 0x39) || (0x41 <= b <= 0x46) || (0x61 <= b <= 0x66)
}

/// The value of a hexadecimal digit.
pub open spec fn hex_digit_value(b: u8) -> nat {
    if 0x30 <= b <= 0x39 {
        (b - 0x30) as nat
    } else if 0x41 <= b <= 0x46 {
        (b - 0x41 + 10) as nat
    } else {
        (b - 0x61 + 10) as nat
    }
}

/// The number that a string of hexadecimal digits spells, most significant first.
pub open spec fn hex_value(digits: Seq<u8>) -> nat
    decreases digits.len(),
{
    if digits.len() == 0 {
        0
    } else {
        16 * hex_value(digits.drop_last()) + hex_digit_value(digits.last())
    }
}

/// The length of the longest prefix of `s` that is made of hexadecimal digits.
pub open spec fn hex_run(s: Seq<u8>) -> nat
    decreases s.len(),
{
    if s.len() > 0 && is_hex_digit(s[0]) {
        1 + hex_run(s.skip(1))
    } else {
        0
    }
}

/// The region that a line of the memory map describes, if the line is well
/// formed: hexadecimal digits, a dash, hexadecimal digits, then the end of the
/// line or white space. Both numbers must fit the address space and the end
/// must not lie before the start. The region starts at the first number and
/// its size is the second less the first.
pub open spec fn parse_line_spec(line: Seq<u8>) -> Option<MemoryRegion> {
    let a = hex_run(line);
    if a == 0 || a >= line.len() || line[a as int] != DASH {
        None
    } else {
        let rest = line.skip(a as int + 1);
        let b = hex_run(rest);
        let start = hex_value(line.take(a as int));
        let end = hex_value(rest.take(b as int));
        if b == 0 || (b < rest.len() && !is_space(rest[b as int])) {
            None
        } else if start > usize::MAX || end > usize::MAX || start > end {
            None
        } else {
            Some(MemoryRegion { from: start as usize, size: (end - start) as usize })
        }
    }
}

/// The regions that a memory-map text describes, in the order of its lines,
/// or `None` if any line that is not empty is malformed.
pub open spec fn parse_maps_spec(text: Seq<u8>) -> Option<Seq<MemoryRegion>>
    decreases text.len(),
{
    if text.len() == 0 {
        Some(Seq::empty())
    } else {
        let n = run_until(text, NEWLINE);
        let line = text.take(n as int);
        let rest = if n < text.len() {
            text.skip(n as int + 1)
        } else {
            Seq::empty()
        };
        if n == 0 {
            parse_maps_spec(rest)
        } else {
            match parse_line_spec(line) {
                None => None,
                Some(region) => match parse_maps_spec(rest) {
                    None => None,
                    Some(regions) => Some(seq![region] + regions),
                },
            }
        }
    }
}

/// The text that holds each of `lines` followed by a line separator.
pub open spec fn join_lines(lines: Seq<Seq<u8>>) -> Seq<u8>
    decreases lines.len(),
{
    if lines.len() == 0 {
        Seq::empty()
    } else {
        lines[0] + seq![NEWLINE] + join_lines(lines.skip(1))
    }
}

/// `line` can stand as a line of a text: it holds no line separator.
pub open spec fn is_line(line: Seq<u8>) -> bool {
    forall|i: int| 0 <= i < line.len() ==> #[trigger] line[i] != NEWLINE
}

/// A text of N well-formed lines describes exactly N regions: the region of
/// each line, in the order of the lines. Their bases are therefore ascending
/// wherever the lines list them so.
pub proof fn lemma_maps_of_lines(lines: Seq<Seq<u8>>, regions: Seq<MemoryRegion>)
    requires
        lines.len() == regions.len(),
        forall|i: int| 0 <= i < lines.len() ==> is_line(#[trigger] lines[i]),
        forall|i: int|
            0 <= i < lines.len() ==> parse_line_spec(#[trigger] lines[i]) == Some(regions[i]),
    ensures
        parse_maps_spec(join_lines(lines)) == Some(regions),
    decreases lines.len(),
{
    if lines.len() == 0 {
        assert(regions =~= Seq::empty());
    } else {
        let line = lines[0];
        let tail = join_lines(lines.skip(1));
        let text = join_lines(lines);
        assert(is_line(line));
        assert(parse_line_spec(line) == Some(regions[0]));
        assert(line.len() > 0);
        assert(text =~= line + seq![NEWLINE] + tail);
        assert forall|i: int| 0 <= i < line.len() implies #[trigger] text[i] != NEWLINE by {
            assert(text[i] == line[i]);
        }
        assert(text[line.len() as int] == NEWLINE);
        lemma_run_until_is(text, NEWLINE, line.len() as int);
        assert(text.take(line.len() as int) =~= line);
        assert(text.skip(line.len() as int + 1) =~= tail);
        assert forall|i: int| 0 <= i < lines.skip(1).len() implies is_line(
            #[trigger] lines.skip(1)[i],
        ) by {
            assert(lines.skip(1)[i] == lines[i + 1]);
        }
        assert forall|i: int| 0 <= i < lines.skip(1).len() implies parse_line_spec(
            #[trigger] lines.skip(1)[i],
        ) == Some(regions.skip(1)[i]) by {
            assert(lines.skip(1)[i] == lines[i + 1]);
        }
        lemma_maps_of_lines(lines.skip(1), regions.skip(1));
        assert(seq![regions[0]] + regions.skip(1) =~= regions);
    }
}

/// Reads the hexadecimal number that starts at `from`: returns the index just
/// behind its last digit, and its value if that fits the address space.
fn parse_hex(s: &[u8], from: usize) -> (r: (usize, Option<usize>))
    requires
        from <= s@.len(),
    ensures
        from <= r.0 <= s@.len(),
        r.0 == from + hex_run(s@.skip(from as int)),
        match r.1 {
            Some(v) => v == hex_value(s@.subrange(from as int, r.0 as int)),
            None => hex_value(s@.subrange(from as int, r.0 as int)) > usize::MAX,
        },
{
    let mut end: usize = from;
    let mut value: Option<usize> = Some(0);
    proof {
        assert(s@.subrange(from as int, from as int) =~= Seq::<u8>::empty());
    }
    while end < s.len() && is_hex(s[end])
        invariant
            from <= end <= s@.len(),
            hex_run(s@.skip(from as int)) == (end - from) + hex_run(s@.skip(end as int)),
            match value {
                Some(v) => v == hex_value(s@.subrange(from as int, end as int)),
                None => hex_value(s@.subrange(from as int, end as int)) > usize::MAX,
            },
        decreases s@.len() - end,
    {
        let digit: usize = hex_digit(s[end]);
        proof {
            let longer = s@.subrange(from as int, end + 1);
            assert(longer.drop_last() =~= s@.subrange(from as int, end as int));
            assert(s@.skip(end as int).skip(1) =~= s@.skip(end + 1));
        }
        value = match value {
            Some(v) => match v.checked_mul(16) {
                Some(shifted) => shifted.checked_add(digit),
                None => None,
            },
            None => None,
        };
        end += 1;
    }
    (end, value)
}

/// Whether `b` is an ASCII hexadecimal digit.
fn is_hex(b: u8) -> (r: bool)
    ensures
        r == is_hex_digit(b),
{
    (0x30 <= b && b <= 0x39) || (0x41 <= b && b <= 0x46) || (0x61 <= b && b <= 0x66)
}

/// The value of the hexadecimal digit `b`.
fn hex_digit(b: u8) -> (v: usize)
    requires
        is_hex_digit(b),
    ensures
        v == hex_digit_value(b),
        v < 16,
{
    if 0x30 <= b && b <= 0x39 {
        (b - 0x30) as usize
    } else if 0x41 <= b && b <= 0x46 {
        (b - 0x41 + 10) as usize
    } else {
        (b - 0x61 + 10) as usize
    }
}

/// Parses one line of the memory map into the region it describes. Returns
/// `None` for a line that does not begin with a well-formed range.
pub fn parse_line(line: &[u8]) -> (r: Option<MemoryRegion>)
    ensures
        r == parse_line_spec(line@),
        r matches Some(region) ==> region.wf(),
{
    let (dash, start) = parse_hex(line, 0);
    proof {
        assert(line@.skip(0) =~= line@);
        assert(line@.subrange(0, dash as int) =~= line@.take(dash as int));
    }
    if dash == 0 || dash >= line.len() || line[dash] != DASH {
        return None;
    }
    let (stop, end) = parse_hex(line, dash + 1);
    proof {
        let rest = line@.skip(dash + 1);
        let b = hex_run(rest);
        assert(line@.subrange(dash + 1, stop as int) =~= rest.take(b as int));
        if b < rest.len() {
            assert(rest[b as int] == line@[stop as int]);
        }
    }
    if stop == dash + 1 || (stop < line.len() && !is_blank(line[stop])) {
        return None;
    }
    match (start, end) {
        (Some(from), Some(to)) => {
            if from > to {
                None
            } else {
                Some(MemoryRegion { from, size: to - from })
            }
        },
        _ => None,
    }
}

/// Prepends the regions already parsed to what the rest of the text gives.
pub open spec fn prepend(done: Seq<MemoryRegion>, rest: Option<Seq<MemoryRegion>>) -> Option<
    Seq<MemoryRegion>,
> {
    match rest {
        None => None,
        Some(regions) => Some(done + regions),
    }
}

/// Parses a memory-map text into its regions, in the order of its lines, with
/// the size of each region being its end less its start. One malformed line
/// fails the whole text: no partial list is returned.
pub fn parse_maps(text: &[u8]) -> (r: Result<Vec<MemoryRegion>, ProcessError>)
    ensures
        match parse_maps_spec(text@) {
            Some(regions) => r matches Ok(v) && v@ == regions && regions_wf(regions),
            None => r == Err::<Vec<MemoryRegion>, ProcessError>(ProcessError::Parse),
        },
{
    let mut regions: Vec<MemoryRegion> = Vec::new();
    let mut pos: usize = 0;
    proof {
        assert(text@.skip(0) =~= text@);
        match parse_maps_spec(text@) {
            Some(all) => {
                assert(Seq::<MemoryRegion>::empty() + all =~= all);
            },
            None => {},
        }
    }
    while pos < text.len()
        invariant
            pos <= text@.len(),
            regions_wf(regions@),
            parse_maps_spec(text@) == prepend(regions@, parse_maps_spec(text@.skip(pos as int))),
        decreases text@.len() - pos,
    {
        let end: usize = find_byte(text, pos, NEWLINE);
        let ghost tail = text@.skip(pos as int);
        let ghost done = regions@;
        let ghost rest = if end < text@.len() {
            text@.skip(end + 1)
        } else {
            Seq::<u8>::empty()
        };
        proof {
            assert(tail.take(end - pos) =~= text@.subrange(pos as int, end as int));
            if end < text@.len() {
                assert(tail.skip(end - pos + 1) =~= rest);
            }
        }
        if end > pos {
            match parse_line(slice_subrange(text, pos, end)) {
                Some(region) => {
                    regions.push(region);
                    proof {
                        match parse_maps_spec(rest) {
                            Some(more) => {
                                assert(done + (seq![region] + more) =~= regions@ + more);
                            },
                            None => {},
                        }
                    }
                },
                None => {
                    return Err(ProcessError::Parse);
                },
            }
        }
        if end < text.len() {
            pos = end + 1;
        } else {
            pos = end;
            proof {
                assert(text@.skip(pos as int) =~= rest);
            }
        }
    }
    proof {
        assert(text@.skip(pos as int) =~= Seq::<u8>::empty());
        assert(regions@ + Seq::<MemoryRegion>::empty() =~= regions@);
    }
    Ok(regions)
}

} // verus!
