//! Unsigned LEB128: seven value bits per byte, least significant group first,
//! the high bit of a byte announcing that another group follows.
//!
//! A value is decoded into 64 bits. Ten groups are enough to fill them, so a
//! tenth group that still announces another, or one that carries more than the
//! one bit that is left, is an overflow and never wraps.

use vstd::prelude::*;
use super::error::ProcessError;

verus! {

/// The greatest number of groups that a 64-bit value can take.
pub const ULEB128_MAX_GROUPS: usize = 10;

/// The seven value bits of a group.
pub open spec fn group_payload(byte: u8) -> nat {
    (byte % 128) as nat
}

/// Whether a group announces that another group follows.
pub open spec fn group_continues(byte: u8) -> bool {
    byte >= 128
}

/// `128` to the power `index`: what one unit of the group at `index` is worth.
pub open spec fn group_weight(index: nat) -> nat
    decreases index,
{
    if index == 0 {
        1
    } else {
        128 * group_weight((index - 1) as nat)
    }
}

/// The number that the groups spell: the sum of each payload times its weight.
pub open spec fn uleb128_value(groups: Seq<u8>) -> nat
    decreases groups.len(),
{
    if groups.len() == 0 {
        0
    } else {
        uleb128_value(groups.drop_last()) + group_payload(groups.last()) * group_weight(
            (groups.len() - 1) as nat,
        )
    }
}

/// No more groups than a 64-bit value can take.
pub open spec fn uleb128_bounded(groups: Seq<u8>) -> bool {
    groups.len() <= ULEB128_MAX_GROUPS
}

/// Every group announces another: the encoding has not ended yet.
pub open spec fn uleb128_open(groups: Seq<u8>) -> bool {
    forall|i: int| 0 <= i < groups.len() ==> group_continues(#[trigger] groups[i])
}

/// The groups form one whole encoding: the last group ends it and no earlier one does.
pub open spec fn uleb128_complete(groups: Seq<u8>) -> bool {
    &&& groups.len() > 0
    &&& !group_continues(groups.last())
    &&& uleb128_open(groups.drop_last())
}

/// The groups are where decoding into 64 bits gives up: nine groups that each
/// announce another, then a tenth that announces yet another or whose payload
/// lies beyond bit 63.
pub open spec fn uleb128_overflows(groups: Seq<u8>) -> bool {
    &&& groups.len() == ULEB128_MAX_GROUPS
    &&& uleb128_open(groups.drop_last())
    &&& (group_continues(groups.last()) || uleb128_value(groups) > u64::MAX)
}

/// `r` is the verdict on `groups` as a whole: the value of a complete
/// encoding, or an overflow where decoding gives up.
pub open spec fn uleb128_decoded(groups: Seq<u8>, r: Result<u64, ProcessError>) -> bool {
    ||| r matches Ok(v) && uleb128_complete(groups) && v == uleb128_value(groups)
    ||| r == Err::<u64, ProcessError>(ProcessError::VarintOverflow) && uleb128_overflows(groups)
}

/// What one more group does to a decoding in progress.
#[derive(Debug, Clone, Copy, PartialEq, Eq, Structural)]
pub enum Uleb128Step {
    /// Another group follows; the value accumulated so far.
    More(u64),
    /// The encoding ended; the decoded value.
    Done(u64),
    /// The value does not fit in 64 bits.
    Overflow,
}

/// The step taken on the group `byte` at position `index`, after groups worth `value`.
pub open spec fn uleb128_step_spec(value: nat, index: nat, byte: u8) -> Uleb128Step {
    let sum = value + group_payload(byte) * group_weight(index);
    if sum > u64::MAX || (group_continues(byte) && index + 1 >= ULEB128_MAX_GROUPS) {
        Uleb128Step::Overflow
    } else if group_continues(byte) {
        Uleb128Step::More(sum as u64)
    } else {
        Uleb128Step::Done(sum as u64)
    }
}

/// The weights of the first ten groups, the last of which is bit 63.
pub proof fn lemma_group_weights()
    ensures
        group_weight(0) == 1,
        group_weight(1) == 0x80,
        group_weight(9) == 0x8000_0000_0000_0000,
        group_weight(10) == 0x40_0000_0000_0000_0000,
{
    reveal_with_fuel(group_weight, 11);
}

/// Weights grow with the index.
pub proof fn lemma_group_weight_monotonic(a: nat, b: nat)
    requires
        a <= b,
    ensures
        0 < group_weight(a) <= group_weight(b),
    decreases b,
{
    if b == 0 {
    } else if a == b {
        lemma_group_weight_monotonic((a - 1) as nat, (b - 1) as nat);
    } else {
        lemma_group_weight_monotonic(a, (b - 1) as nat);
    }
}

/// `n` groups spell a number below `128^n`.
pub proof fn lemma_uleb128_value_bound(groups: Seq<u8>)
    ensures
        uleb128_value(groups) < group_weight(groups.len()),
    decreases groups.len(),
{
    if groups.len() > 0 {
        lemma_uleb128_value_bound(groups.drop_last());
        let w = group_weight((groups.len() - 1) as nat);
        let p = group_payload(groups.last());
        assert(p * w <= 127 * w) by (nonlinear_arith)
            requires
                p <= 127,
                w >= 0,
        ;
    }
}

/// One more group adds its payload times the weight of its position.
pub proof fn lemma_uleb128_value_push(groups: Seq<u8>, byte: u8)
    ensures
        uleb128_value(groups.push(byte)) == uleb128_value(groups) + group_payload(byte)
            * group_weight(groups.len()),
{
    assert(groups.push(byte).drop_last() =~= groups);
}

/// An encoding that ends within nine groups always fits in 64 bits.
pub proof fn lemma_short_encoding_fits(groups: Seq<u8>)
    requires
        groups.len() < ULEB128_MAX_GROUPS,
    ensures
        uleb128_value(groups) < 0x8000_0000_0000_0000,
{
    lemma_uleb128_value_bound(groups);
    lemma_group_weight_monotonic(groups.len(), 9);
    lemma_group_weights();
}

/// The worth of one unit of the group at `index`.
fn weight_of(index: usize) -> (w: u64)
    requires
        index < ULEB128_MAX_GROUPS,
    ensures
        w == group_weight(index as nat),
        w <= 0x8000_0000_0000_0000,
{
    let mut w: u64 = 1;
    let mut i: usize = 0;
    while i < index
        invariant
            i <= index < ULEB128_MAX_GROUPS,
            w == group_weight(i as nat),
        decreases index - i,
    {
        proof {
            lemma_group_weight_monotonic((i + 1) as nat, 9);
            lemma_group_weights();
        }
        w = w * 128;
        i += 1;
    }
    proof {
        lemma_group_weight_monotonic(index as nat, 9);
        lemma_group_weights();
    }
    w
}

/// Takes the group `byte` at position `index` into a decoding that has
/// accumulated `value` from the groups before it.
pub fn uleb128_step(value: u64, index: usize, byte: u8) -> (step: Uleb128Step)
    requires
        index < ULEB128_MAX_GROUPS,
        value < group_weight(index as nat),
    ensures
        step == uleb128_step_spec(value as nat, index as nat, byte),
{
    let payload: u8 = byte & 0x7f;
    let continues: bool = (byte & 0x80) != 0;
    assert(payload == byte % 128 && continues == (byte >= 128)) by (bit_vector)
        requires
            payload == byte & 0x7f,
            continues == ((byte & 0x80) != 0),
    ;
    let weight: u64 = weight_of(index);
    assert(payload * weight <= 127 * 0x8000_0000_0000_0000) by (nonlinear_arith)
        requires
            payload <= 127,
            weight <= 0x8000_0000_0000_0000,
    ;
    let sum: u128 = value as u128 + payload as u128 * weight as u128;
    if sum > u64::MAX as u128 || (continues && index + 1 >= ULEB128_MAX_GROUPS) {
        Uleb128Step::Overflow
    } else if continues {
        Uleb128Step::More(sum as u64)
    } else {
        Uleb128Step::Done(sum as u64)
    }
}

/// After groups that each announced another, the step on the next group is
/// the verdict on the whole sequence: `Done` with its value when it is a
/// complete encoding that fits, `Overflow` exactly where decoding gives up,
/// and `More` with the value so far otherwise.
pub proof fn lemma_step_extends(groups: Seq<u8>, byte: u8)
    requires
        groups.len() < ULEB128_MAX_GROUPS,
        uleb128_open(groups),
    ensures
        uleb128_value(groups) < group_weight(groups.len()),
        match uleb128_step_spec(uleb128_value(groups), groups.len(), byte) {
            Uleb128Step::More(v) => {
                &&& uleb128_open(groups.push(byte))
                &&& groups.len() + 1 < ULEB128_MAX_GROUPS
                &&& v == uleb128_value(groups.push(byte))
            },
            Uleb128Step::Done(v) => {
                &&& uleb128_complete(groups.push(byte))
                &&& v == uleb128_value(groups.push(byte))
            },
            Uleb128Step::Overflow => uleb128_overflows(groups.push(byte)),
        },
{
    let next = groups.push(byte);
    lemma_uleb128_value_bound(groups);
    lemma_uleb128_value_push(groups, byte);
    assert(next.drop_last() =~= groups);
    if groups.len() + 1 < ULEB128_MAX_GROUPS {
        lemma_short_encoding_fits(next);
    }
}

} // verus!
