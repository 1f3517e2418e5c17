//! Choosing a process by name from a listing of the running processes.
//!
//! Each process of the listing comes with its command line and its status
//! record, either of which may be missing: a process can exit, or refuse to be
//! looked at, while the listing is taken. Such an entry is passed over. A
//! process is a candidate when the first token of its command line holds the
//! name and its status record is there. Among the candidates the one with the
//! lowest identifier is chosen, so the choice does not depend on the order of
//! the listing.

use vstd::prelude::*;
use vstd::slice::slice_subrange;
use super::error::ProcessError;
use super::text::{
    contains, contains_bytes, find_byte, first_field, run_until, skip_spaces, skip_word,
};

verus! {

/// The separator between the tokens of a command line.
pub const SPACE: u8 = 0x20;

/// What the listing holds of one process. A field is `None` when it could not be read.
#[derive(Debug, PartialEq, Eq)]
pub struct ProcessEntry {
    /// The command line the process was started with.
    pub cmdline: Option<Vec<u8>>,
    /// The status record, whose first field is the process identifier.
    pub stat: Option<Vec<u8>>,
}

/// The text up to the first space, or all of it when it holds none.
pub open spec fn first_token(s: Seq<u8>) -> Seq<u8> {
    s.take(run_until(s, SPACE) as int)
}

/// Whether every byte is an ASCII decimal digit.
pub open spec fn all_digits(s: Seq<u8>) -> bool {
    forall|i: int| 0 <= i < s.len() ==> 0x30 <= #[trigger] s[i] <= 0x39
}

/// The number that a string of decimal digits spells.
pub open spec fn dec_value(digits: Seq<u8>) -> nat
    decreases digits.len(),
{
    if digits.len() == 0 {
        0
    } else {
        10 * dec_value(digits.drop_last()) + (digits.last() - 0x30) as nat
    }
}

/// The 32-bit signed number that a token spells: an optional sign, then at
/// least one decimal digit and nothing else, with a value in range.
pub open spec fn parse_i32_spec(token: Seq<u8>) -> Option<i32> {
    if token.len() == 0 {
        None
    } else {
        let signed = token[0] == 0x2d || token[0] == 0x2b;
        let digits = if signed {
            token.skip(1)
        } else {
            token
        };
        let magnitude = dec_value(digits);
        let value = if token[0] == 0x2d {
            -(magnitude as int)
        } else {
            magnitude as int
        };
        if digits.len() == 0 || !all_digits(digits) || value < i32::MIN || value > i32::MAX {
            None
        } else {
            Some(value as i32)
        }
    }
}

/// The process identifier that a status record gives: the number that its
/// first field spells, fields being set apart by white space.
pub open spec fn parse_pid_spec(stat: Seq<u8>) -> Option<i32> {
    parse_i32_spec(first_field(stat))
}

/// Whether the first token of a command line holds `name`.
pub open spec fn cmdline_matches(cmdline: Seq<u8>, name: Seq<u8>) -> bool {
    contains(first_token(cmdline), name)
}

/// Whether an entry is a candidate for `name`: both fields were read and the
/// command line matches.
pub open spec fn is_candidate(entry: ProcessEntry, name: Seq<u8>) -> bool {
    &&& entry.cmdline matches Some(cmdline)
    &&& cmdline_matches(cmdline@, name)
    &&& entry.stat is Some
}

/// The identifier of a candidate, if its status record gives one.
pub open spec fn candidate_pid(entry: ProcessEntry) -> Option<i32> {
    match entry.stat {
        Some(stat) => parse_pid_spec(stat@),
        None => None,
    }
}

/// Some entry among the first `upto` is a candidate.
pub open spec fn any_candidate(entries: Seq<ProcessEntry>, name: Seq<u8>, upto: int) -> bool {
    exists|i: int| 0 <= i < upto && is_candidate(#[trigger] entries[i], name)
}

/// Some candidate among the first `upto` entries has a malformed status record.
pub open spec fn any_malformed(entries: Seq<ProcessEntry>, name: Seq<u8>, upto: int) -> bool {
    exists|i: int|
        0 <= i < upto && is_candidate(#[trigger] entries[i], name) && candidate_pid(entries[i])
            is None
}

/// `pid` is the identifier of a candidate among the first `upto` entries, and
/// no candidate among them has a lower one.
pub open spec fn is_lowest_pid(
    entries: Seq<ProcessEntry>,
    name: Seq<u8>,
    upto: int,
    pid: i32,
) -> bool {
    &&& exists|i: int|
        0 <= i < upto && is_candidate(#[trigger] entries[i], name) && candidate_pid(entries[i])
            == Some(pid)
    &&& forall|i: int|
        0 <= i < upto && is_candidate(#[trigger] entries[i], name) ==> (candidate_pid(entries[i])
            matches Some(other) && pid <= other)
}

/// The outcome of the search for `name` in a listing: a parse error if the
/// status record of any candidate is malformed; else the lowest identifier
/// among the candidates; else, with no candidate, `ProcessNotFound`.
pub open spec fn located(
    entries: Seq<ProcessEntry>,
    name: Seq<u8>,
    r: Result<i32, ProcessError>,
) -> bool {
    if any_malformed(entries, name, entries.len() as int) {
        r == Err::<i32, ProcessError>(ProcessError::Parse)
    } else if any_candidate(entries, name, entries.len() as int) {
        match r {
            Ok(pid) => is_lowest_pid(entries, name, entries.len() as int, pid),
            Err(_) => false,
        }
    } else {
        r == Err::<i32, ProcessError>(ProcessError::ProcessNotFound)
    }
}

/// Every entry of `a` also stands somewhere in `b`.
pub open spec fn listed_in(a: Seq<ProcessEntry>, b: Seq<ProcessEntry>) -> bool {
    forall|i: int| 0 <= i < a.len() ==> exists|j: int| 0 <= j < b.len() && b[j] == #[trigger] a[i]
}

/// The search has one outcome only, and it does not depend on the order of
/// the listing: two listings that hold the same entries, in whatever order
/// and however often, give the same result.
pub proof fn lemma_located_whatever_the_order(
    a: Seq<ProcessEntry>,
    b: Seq<ProcessEntry>,
    name: Seq<u8>,
    ra: Result<i32, ProcessError>,
    rb: Result<i32, ProcessError>,
)
    requires
        listed_in(a, b),
        listed_in(b, a),
        located(a, name, ra),
        located(b, name, rb),
    ensures
        ra == rb,
{
    lemma_listed_in(a, b, name);
    lemma_listed_in(b, a, name);
    if !any_malformed(a, name, a.len() as int) && any_candidate(a, name, a.len() as int) {
        let pa = ra->Ok_0;
        let pb = rb->Ok_0;
        let ia = choose|i: int|
            0 <= i < a.len() && is_candidate(#[trigger] a[i], name) && candidate_pid(a[i]) == Some(
                pa,
            );
        let ja = choose|j: int| 0 <= j < b.len() && b[j] == a[ia];
        assert(is_candidate(b[ja], name));
        let ib = choose|i: int|
            0 <= i < b.len() && is_candidate(#[trigger] b[i], name) && candidate_pid(b[i]) == Some(
                pb,
            );
        let jb = choose|j: int| 0 <= j < a.len() && a[j] == b[ib];
        assert(is_candidate(a[jb], name));
    }
}

/// What holds of some entry of a listing holds of some entry of every
/// listing that holds all its entries.
proof fn lemma_listed_in(a: Seq<ProcessEntry>, b: Seq<ProcessEntry>, name: Seq<u8>)
    requires
        listed_in(a, b),
    ensures
        any_candidate(a, name, a.len() as int) ==> any_candidate(b, name, b.len() as int),
        any_malformed(a, name, a.len() as int) ==> any_malformed(b, name, b.len() as int),
{
    if any_candidate(a, name, a.len() as int) {
        let i = choose|i: int| 0 <= i < a.len() && is_candidate(#[trigger] a[i], name);
        let j = choose|j: int| 0 <= j < b.len() && b[j] == a[i];
        assert(is_candidate(b[j], name));
    }
    if any_malformed(a, name, a.len() as int) {
        let i = choose|i: int|
            0 <= i < a.len() && is_candidate(#[trigger] a[i], name) && candidate_pid(a[i]) is None;
        let j = choose|j: int| 0 <= j < b.len() && b[j] == a[i];
        assert(is_candidate(b[j], name) && candidate_pid(b[j]) is None);
    }
}

/// The part of `s` up to its first space.
fn token_of(s: &[u8]) -> (token: &[u8])
    ensures
        token@ == first_token(s@),
{
    let end: usize = find_byte(s, 0, SPACE);
    proof {
        assert(s@.skip(0) =~= s@);
        assert(s@.subrange(0, end as int) =~= s@.take(end as int));
    }
    slice_subrange(s, 0, end)
}

/// Parses a token as a 32-bit signed decimal number with an optional sign.
pub fn parse_i32(token: &[u8]) -> (r: Option<i32>)
    ensures
        r == parse_i32_spec(token@),
{
    let n: usize = token.len();
    if n == 0 {
        return None;
    }
    let negative: bool = token[0] == 0x2d;
    let start: usize = if negative || token[0] == 0x2b {
        1
    } else {
        0
    };
    if start == n {
        return None;
    }
    let ghost digits = token@.skip(start as int);
    let mut magnitude: u64 = 0;
    let mut i: usize = start;
    proof {
        assert(digits.take(0) =~= Seq::<u8>::empty());
        assert(token@.skip(0) =~= token@);
    }
    while i < n
        invariant
            start <= i <= n,
            start < n,
            n == token@.len(),
            negative == (token@[0] == 0x2d),
            start == (if token@[0] == 0x2d || token@[0] == 0x2b { 1int } else { 0int }),
            token@.skip(0) == token@,
            digits == token@.skip(start as int),
            all_digits(digits.take(i - start)),
            magnitude == dec_value(digits.take(i - start)),
            magnitude <= 0x8000_0000,
        decreases n - i,
    {
        let b: u8 = token[i];
        if b < 0x30 || b > 0x39 {
            assert(digits[i - start] == b);
            return None;
        }
        proof {
            let longer = digits.take(i - start + 1);
            assert(longer.drop_last() =~= digits.take(i - start));
            assert(longer.last() == b);
            assert forall|j: int| 0 <= j < longer.len() implies 0x30 <= #[trigger] longer[j]
                <= 0x39 by {
                if j < i - start {
                    assert(longer[j] == digits.take(i - start)[j]);
                }
            }
        }
        magnitude = magnitude * 10 + (b - 0x30) as u64;
        if magnitude > 0x8000_0000 {
            proof {
                lemma_dec_value_grows(digits, i - start + 1);
            }
            return None;
        }
        i += 1;
    }
    proof {
        assert(digits.take(n - start) =~= digits);
    }
    if negative {
        if magnitude == 0x8000_0000 {
            Some(i32::MIN)
        } else {
            Some(-(magnitude as i32))
        }
    } else if magnitude == 0x8000_0000 {
        None
    } else {
        Some(magnitude as i32)
    }
}

/// A string of digits spells at least what any of its prefixes spells.
pub proof fn lemma_dec_value_grows(digits: Seq<u8>, k: int)
    requires
        0 <= k <= digits.len(),
    ensures
        dec_value(digits.take(k)) <= dec_value(digits),
    decreases digits.len() - k,
{
    if k == digits.len() {
        assert(digits.take(k) =~= digits);
    } else {
        lemma_dec_value_grows(digits.drop_last(), k);
        assert(digits.drop_last().take(k) =~= digits.take(k));
    }
}

/// Reads the process identifier from a status record.
pub fn parse_pid(stat: &[u8]) -> (r: Option<i32>)
    ensures
        r == parse_pid_spec(stat@),
{
    let start: usize = skip_spaces(stat, 0);
    let end: usize = skip_word(stat, start);
    proof {
        assert(stat@.skip(0) =~= stat@);
        assert(stat@.subrange(start as int, end as int) =~= first_field(stat@));
    }
    parse_i32(slice_subrange(stat, start, end))
}

/// Whether the first token of `cmdline` holds `name`.
pub fn matches_name(cmdline: &[u8], name: &[u8]) -> (r: bool)
    ensures
        r == cmdline_matches(cmdline@, name@),
{
    contains_bytes(token_of(cmdline), name)
}

/// Searches a listing for the process called `name` and returns its
/// identifier. Entries with a missing field are passed over; among the
/// candidates the lowest identifier wins; a candidate whose status record is
/// malformed fails the search.
pub fn locate(entries: &Vec<ProcessEntry>, name: &[u8]) -> (r: Result<i32, ProcessError>)
    ensures
        located(entries@, name@, r),
{
    let mut best: Option<i32> = None;
    let mut i: usize = 0;
    while i < entries.len()
        invariant
            i <= entries@.len(),
            !any_malformed(entries@, name@, i as int),
            match best {
                Some(pid) => is_lowest_pid(entries@, name@, i as int, pid),
                None => !any_candidate(entries@, name@, i as int),
            },
        decreases entries@.len() - i,
    {
        let entry = &entries[i];
        let ghost before = best;
        match (&entry.cmdline, &entry.stat) {
            (Some(cmdline), Some(stat)) => {
                if matches_name(cmdline.as_slice(), name) {
                    assert(is_candidate(entries@[i as int], name@));
                    match parse_pid(stat.as_slice()) {
                        Some(pid) => {
                            best = match best {
                                Some(lowest) => if pid < lowest {
                                    Some(pid)
                                } else {
                                    Some(lowest)
                                },
                                None => Some(pid),
                            };
                        },
                        None => {
                            assert(any_malformed(entries@, name@, entries@.len() as int));
                            return Err(ProcessError::Parse);
                        },
                    }
                }
            },
            _ => {
                assert(!is_candidate(entries@[i as int], name@));
            },
        }
        i += 1;
    }
    match best {
        Some(pid) => {
            assert(any_candidate(entries@, name@, entries@.len() as int));
            Ok(pid)
        },
        None => Err(ProcessError::ProcessNotFound),
    }
}

} // verus!
