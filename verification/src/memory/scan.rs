//! Scanning regions for a signature, and the policy on regions that cannot be read.
//!
//! Regions are taken in their stored order. A region that was read is searched;
//! the first match ends the scan. A read that was denied, or that found the
//! process gone, ends the scan with that error, since no later read can
//! succeed. Any other failed read only means that this one region is
//! unreadable: the scan moves on.

use vstd::prelude::*;
use super::error::ProcessError;
use super::process::{regions_wf, MemoryRegion, ProcessTraits};
use super::signature::{
    find_signature, first_match, lemma_first_match_is_lowest, matches_at, Signature, SignatureByte,
};

verus! {

/// What one region contributes to a scan.
#[derive(Debug, Clone, Copy, PartialEq, Eq, Structural)]
pub enum ScanStep {
    /// The signature matches at this absolute address.
    Found(usize),
    /// The scan must stop with this error.
    Abort(ProcessError),
    /// Nothing here: the region is unreadable or holds no match.
    Skip,
}

/// What a read handed back, with the bytes as a sequence.
pub open spec fn outcome_of(r: Result<Vec<u8>, ProcessError>) -> Result<Seq<u8>, ProcessError> {
    match r {
        Ok(bytes) => Ok(bytes@),
        Err(e) => Err(e),
    }
}

/// The step that a region contributes when its read handed back `outcome`.
pub open spec fn scan_step_spec(
    region: MemoryRegion,
    outcome: Result<Seq<u8>, ProcessError>,
    sign: Seq<SignatureByte>,
) -> ScanStep {
    match outcome {
        Ok(bytes) => match first_match(bytes, sign) {
            Some(at) => ScanStep::Found((region.from + at) as usize),
            None => ScanStep::Skip,
        },
        Err(e) => if e.is_fatal() {
            ScanStep::Abort(e)
        } else {
            ScanStep::Skip
        },
    }
}

/// The result of a scan over `regions` whose reads handed back `outcomes`, in
/// order: what the first region that does not skip decides, and
/// `SignatureNotFound` when every region skips.
pub open spec fn scan_outcome(
    regions: Seq<MemoryRegion>,
    outcomes: Seq<Result<Seq<u8>, ProcessError>>,
    sign: Seq<SignatureByte>,
) -> Result<usize, ProcessError>
    decreases outcomes.len(),
{
    if outcomes.len() == 0 || regions.len() == 0 {
        Err(ProcessError::SignatureNotFound)
    } else {
        match scan_step_spec(regions[0], outcomes[0], sign) {
            ScanStep::Found(addr) => Ok(addr),
            ScanStep::Abort(e) => Err(e),
            ScanStep::Skip => scan_outcome(regions.skip(1), outcomes.skip(1), sign),
        }
    }
}

/// The first `k` regions all skip.
pub open spec fn all_skip(
    regions: Seq<MemoryRegion>,
    outcomes: Seq<Result<Seq<u8>, ProcessError>>,
    sign: Seq<SignatureByte>,
    k: int,
) -> bool {
    forall|j: int|
        0 <= j < k ==> scan_step_spec(regions[j], #[trigger] outcomes[j], sign) is Skip
}

/// `outcomes` are the reads that one scan makes: one for each region in
/// order, none after the first region that does not skip.
pub open spec fn scan_trace(
    regions: Seq<MemoryRegion>,
    outcomes: Seq<Result<Seq<u8>, ProcessError>>,
    sign: Seq<SignatureByte>,
) -> bool {
    &&& outcomes.len() <= regions.len()
    &&& all_skip(regions, outcomes, sign, outcomes.len() - 1)
    &&& outcomes.len() < regions.len() ==> outcomes.len() > 0 && !(scan_step_spec(
        regions[outcomes.len() - 1],
        outcomes.last(),
        sign,
    ) is Skip)
}

/// Regions that skip do not bear on the result: the scan goes on behind them
/// as if it had started there.
pub proof fn lemma_scan_skips_prefix(
    regions: Seq<MemoryRegion>,
    outcomes: Seq<Result<Seq<u8>, ProcessError>>,
    sign: Seq<SignatureByte>,
    k: int,
)
    requires
        0 <= k <= outcomes.len(),
        k <= regions.len(),
        all_skip(regions, outcomes, sign, k),
    ensures
        scan_outcome(regions, outcomes, sign) == scan_outcome(
            regions.skip(k),
            outcomes.skip(k),
            sign,
        ),
    decreases k,
{
    if k == 0 {
        assert(regions.skip(0) =~= regions);
        assert(outcomes.skip(0) =~= outcomes);
    } else {
        let rest_regions = regions.skip(1);
        let rest_outcomes = outcomes.skip(1);
        assert(scan_step_spec(regions[0], outcomes[0], sign) is Skip);
        assert forall|j: int| 0 <= j < k - 1 implies scan_step_spec(
            rest_regions[j],
            #[trigger] rest_outcomes[j],
            sign,
        ) is Skip by {
            assert(rest_outcomes[j] == outcomes[j + 1]);
            assert(rest_regions[j] == regions[j + 1]);
        }
        lemma_scan_skips_prefix(rest_regions, rest_outcomes, sign, k - 1);
        assert(rest_regions.skip(k - 1) =~= regions.skip(k));
        assert(rest_outcomes.skip(k - 1) =~= outcomes.skip(k));
    }
}

/// The first region that does not skip decides the scan, whatever the reads
/// of the regions behind it would hand back.
pub proof fn lemma_scan_decided_at(
    regions: Seq<MemoryRegion>,
    outcomes: Seq<Result<Seq<u8>, ProcessError>>,
    sign: Seq<SignatureByte>,
    k: int,
)
    requires
        0 <= k < outcomes.len(),
        k < regions.len(),
        all_skip(regions, outcomes, sign, k),
    ensures
        match scan_step_spec(regions[k], outcomes[k], sign) {
            ScanStep::Found(addr) => scan_outcome(regions, outcomes, sign) == Ok::<
                usize,
                ProcessError,
            >(addr),
            ScanStep::Abort(e) => scan_outcome(regions, outcomes, sign) == Err::<
                usize,
                ProcessError,
            >(e),
            ScanStep::Skip => all_skip(regions, outcomes, sign, k + 1),
        },
{
    lemma_scan_skips_prefix(regions, outcomes, sign, k);
    assert(regions.skip(k)[0] == regions[k]);
    assert(outcomes.skip(k)[0] == outcomes[k]);
}

/// Where every region skips, the signature is not found.
pub proof fn lemma_scan_exhausted(
    regions: Seq<MemoryRegion>,
    outcomes: Seq<Result<Seq<u8>, ProcessError>>,
    sign: Seq<SignatureByte>,
)
    requires
        outcomes.len() <= regions.len(),
        all_skip(regions, outcomes, sign, outcomes.len() as int),
    ensures
        scan_outcome(regions, outcomes, sign) == Err::<usize, ProcessError>(
            ProcessError::SignatureNotFound,
        ),
{
    lemma_scan_skips_prefix(regions, outcomes, sign, outcomes.len() as int);
}

/// When the signature occurs in the region at `k` and every region before it
/// skips, the scan returns that region's base plus the offset of the first
/// occurrence there: a match is never anchored to an earlier region.
pub proof fn lemma_scan_finds_in_later_region(
    regions: Seq<MemoryRegion>,
    outcomes: Seq<Result<Seq<u8>, ProcessError>>,
    sign: Seq<SignatureByte>,
    k: int,
    at: int,
)
    requires
        0 <= k < outcomes.len(),
        k < regions.len(),
        all_skip(regions, outcomes, sign, k),
        outcomes[k] matches Ok(bytes) && first_match(bytes, sign) == Some(at),
    ensures
        scan_outcome(regions, outcomes, sign) == Ok::<usize, ProcessError>(
            (regions[k].from + at) as usize,
        ),
{
    lemma_scan_decided_at(regions, outcomes, sign, k);
}

/// With two regions of which only the second holds the signature, the scan
/// returns the second region's base plus the offset found in it.
pub proof fn lemma_scan_match_only_in_second(
    first: MemoryRegion,
    second: MemoryRegion,
    first_bytes: Seq<u8>,
    second_bytes: Seq<u8>,
    sign: Seq<SignatureByte>,
    at: int,
)
    requires
        first_match(first_bytes, sign) is None,
        first_match(second_bytes, sign) == Some(at),
    ensures
        scan_outcome(seq![first, second], seq![Ok(first_bytes), Ok(second_bytes)], sign) == Ok::<
            usize,
            ProcessError,
        >((second.from + at) as usize),
{
    let regions = seq![first, second];
    let outcomes = seq![Ok::<Seq<u8>, ProcessError>(first_bytes), Ok(second_bytes)];
    assert(scan_step_spec(regions[0], outcomes[0], sign) is Skip);
    lemma_scan_finds_in_later_region(regions, outcomes, sign, 1, at);
}

/// When the read of the region at `k` is denied, or finds the process gone,
/// and every region before it skips, the scan ends in that very error. The
/// reads up to `k` alone decide it: what lies behind is never looked at.
pub proof fn lemma_scan_aborts_on_fatal(
    regions: Seq<MemoryRegion>,
    outcomes: Seq<Result<Seq<u8>, ProcessError>>,
    sign: Seq<SignatureByte>,
    k: int,
    e: ProcessError,
)
    requires
        0 <= k < outcomes.len(),
        k < regions.len(),
        all_skip(regions, outcomes, sign, k),
        outcomes[k] == Err::<Seq<u8>, ProcessError>(e),
        e.is_fatal(),
    ensures
        scan_outcome(regions, outcomes, sign) == Err::<usize, ProcessError>(e),
        scan_outcome(regions, outcomes.take(k + 1), sign) == Err::<usize, ProcessError>(e),
        scan_trace(regions, outcomes.take(k + 1), sign),
{
    lemma_scan_decided_at(regions, outcomes, sign, k);
    let cut = outcomes.take(k + 1);
    assert forall|j: int| 0 <= j < k implies scan_step_spec(regions[j], #[trigger] cut[j], sign)
        is Skip by {
        assert(cut[j] == outcomes[j]);
    }
    assert(cut[k] == outcomes[k]);
    lemma_scan_decided_at(regions, cut, sign, k);
}

/// Each region ends where the next begins, or before.
pub open spec fn ascending(regions: Seq<MemoryRegion>) -> bool {
    forall|i: int, j: int|
        0 <= i < j < regions.len() ==> (#[trigger] regions[i]).from + regions[i].size <= (
        #[trigger] regions[j]).from
}

/// The signature matches at the absolute address `addr`, within what was read
/// of the region at `k`.
pub open spec fn matches_in_region(
    regions: Seq<MemoryRegion>,
    outcomes: Seq<Result<Seq<u8>, ProcessError>>,
    sign: Seq<SignatureByte>,
    k: int,
    addr: int,
) -> bool {
    &&& 0 <= k < regions.len()
    &&& k < outcomes.len()
    &&& outcomes[k] matches Ok(bytes)
    &&& bytes.len() == regions[k].size
    &&& matches_at(bytes, sign, addr - regions[k].from)
}

/// A scan that ends in an address was decided by one region: every region
/// before it skips, and the address is that region's base plus the offset of
/// the first match in it.
pub proof fn lemma_scan_found_by(
    regions: Seq<MemoryRegion>,
    outcomes: Seq<Result<Seq<u8>, ProcessError>>,
    sign: Seq<SignatureByte>,
    addr: usize,
) -> (k: int)
    requires
        scan_outcome(regions, outcomes, sign) == Ok::<usize, ProcessError>(addr),
    ensures
        0 <= k < regions.len(),
        k < outcomes.len(),
        all_skip(regions, outcomes, sign, k),
        scan_step_spec(regions[k], outcomes[k], sign) == ScanStep::Found(addr),
    decreases outcomes.len(),
{
    if scan_step_spec(regions[0], outcomes[0], sign) is Skip {
        let rest_regions = regions.skip(1);
        let rest_outcomes = outcomes.skip(1);
        let k = lemma_scan_found_by(rest_regions, rest_outcomes, sign, addr);
        assert forall|j: int| 0 <= j < k + 1 implies scan_step_spec(
            regions[j],
            #[trigger] outcomes[j],
            sign,
        ) is Skip by {
            if j > 0 {
                assert(rest_outcomes[j - 1] == outcomes[j]);
                assert(rest_regions[j - 1] == regions[j]);
            }
        }
        assert(rest_regions[k] == regions[k + 1]);
        assert(rest_outcomes[k] == outcomes[k + 1]);
        k + 1
    } else {
        0
    }
}

/// Over regions in ascending order, each read in full, the address that a
/// scan returns is the lowest at which the signature matches within any one
/// of them.
pub proof fn lemma_scan_finds_lowest_address(
    regions: Seq<MemoryRegion>,
    outcomes: Seq<Result<Seq<u8>, ProcessError>>,
    sign: Seq<SignatureByte>,
    addr: usize,
)
    requires
        regions_wf(regions),
        ascending(regions),
        outcomes.len() == regions.len(),
        forall|k: int|
            0 <= k < outcomes.len() ==> (#[trigger] outcomes[k] matches Ok(bytes) && bytes.len()
                == regions[k].size),
        scan_outcome(regions, outcomes, sign) == Ok::<usize, ProcessError>(addr),
    ensures
        exists|k: int| matches_in_region(regions, outcomes, sign, k, addr as int),
        forall|k: int, other: int|
            matches_in_region(regions, outcomes, sign, k, other) ==> addr <= other,
{
    let found = lemma_scan_found_by(regions, outcomes, sign, addr);
    let here = outcomes[found]->Ok_0;
    lemma_first_match_is_lowest(here, sign);
    let at = first_match(here, sign)->Some_0;
    assert(regions[found].wf());
    assert(matches_in_region(regions, outcomes, sign, found, addr as int));
    assert forall|k: int, other: int|
        matches_in_region(regions, outcomes, sign, k, other) implies addr <= other by {
        let bytes = outcomes[k]->Ok_0;
        if k < found {
            assert(scan_step_spec(regions[k], outcomes[k], sign) is Skip);
            lemma_first_match_is_lowest(bytes, sign);
        } else if k > found {
            assert(regions[found].from + regions[found].size <= regions[k].from);
        }
    }
}

/// Decides what a region contributes to a scan from what its read handed back.
pub fn scan_region(
    region: &MemoryRegion,
    outcome: &Result<Vec<u8>, ProcessError>,
    sign: &Signature,
) -> (step: ScanStep)
    requires
        region.wf(),
        outcome matches Ok(bytes) ==> bytes@.len() <= region.size,
    ensures
        step == scan_step_spec(*region, outcome_of(*outcome), sign@),
{
    match outcome {
        Ok(bytes) => match find_signature(bytes.as_slice(), sign) {
            Some(at) => ScanStep::Found(region.from + at),
            None => ScanStep::Skip,
        },
        Err(e) => if e.aborts_scan() {
            ScanStep::Abort(*e)
        } else {
            ScanStep::Skip
        },
    }
}

/// Scans `regions` of `process` in order for the first occurrence of `sign`:
/// reads each region whole, searches what was read, and returns the absolute
/// address of the first match. Unreadable regions are passed over; a read
/// that is denied or finds the process gone ends the scan with that error;
/// when no region is left the signature is not found.
pub fn scan_regions<P: ProcessTraits>(
    process: &P,
    regions: &Vec<MemoryRegion>,
    sign: &Signature,
) -> (r: Result<usize, ProcessError>)
    requires
        regions_wf(regions@),
    ensures
        exists|outcomes: Seq<Result<Seq<u8>, ProcessError>>|
            {
                &&& #[trigger] scan_trace(regions@, outcomes, sign@)
                &&& forall|i: int|
                    0 <= i < outcomes.len() ==> process.may_yield(
                        regions@[i].from,
                        regions@[i].size,
                        #[trigger] outcomes[i],
                    )
                &&& r == scan_outcome(regions@, outcomes, sign@)
            },
{
    let ghost mut outcomes: Seq<Result<Seq<u8>, ProcessError>> = Seq::empty();
    let mut i: usize = 0;
    while i < regions.len()
        invariant
            i <= regions@.len(),
            outcomes.len() == i,
            regions_wf(regions@),
            all_skip(regions@, outcomes, sign@, i as int),
            forall|j: int|
                0 <= j < outcomes.len() ==> process.may_yield(
                    regions@[j].from,
                    regions@[j].size,
                    #[trigger] outcomes[j],
                ),
        decreases regions@.len() - i,
    {
        let region: MemoryRegion = regions[i];
        let outcome = process.read(region.from, region.size);
        let ghost before = outcomes;
        proof {
            outcomes = before.push(outcome_of(outcome));
            assert forall|j: int| 0 <= j < i implies scan_step_spec(
                regions@[j],
                #[trigger] outcomes[j],
                sign@,
            ) is Skip by {
                assert(outcomes[j] == before[j]);
            }
            assert forall|j: int| 0 <= j < outcomes.len() implies process.may_yield(
                regions@[j].from,
                regions@[j].size,
                #[trigger] outcomes[j],
            ) by {
                if j < i {
                    assert(outcomes[j] == before[j]);
                }
            }
            lemma_scan_decided_at(regions@, outcomes, sign@, i as int);
        }
        match scan_region(&region, &outcome, sign) {
            ScanStep::Found(addr) => {
                assert(scan_trace(regions@, outcomes, sign@));
                return Ok(addr);
            },
            ScanStep::Abort(e) => {
                assert(scan_trace(regions@, outcomes, sign@));
                return Err(e);
            },
            ScanStep::Skip => {},
        }
        i += 1;
    }
    proof {
        lemma_scan_exhausted(regions@, outcomes, sign@);
        assert(scan_trace(regions@, outcomes, sign@));
    }
    Err(ProcessError::SignatureNotFound)
}

} // verus!
