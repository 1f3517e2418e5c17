//! Little-endian decoding of fixed-width integers, stated over a positional
//! model of byte strings.

use vstd::prelude::*;

verus! {

/// `256` to the power `width`: the number of values that `width` bytes can hold.
pub open spec fn radix(width: nat) -> nat
    decreases width,
{
    if width == 0 {
        1
    } else {
        256 * radix((width - 1) as nat)
    }
}

/// The number that `bytes` spells with its least significant byte first.
pub open spec fn le_value(bytes: Seq<u8>) -> nat
    decreases bytes.len(),
{
    if bytes.len() == 0 {
        0
    } else {
        bytes[0] as nat + 256 * le_value(bytes.skip(1))
    }
}

/// The `width` low bytes of `value`, least significant first.
pub open spec fn le_bytes(value: nat, width: nat) -> Seq<u8>
    decreases width,
{
    if width == 0 {
        Seq::empty()
    } else {
        seq![(value % 256) as u8] + le_bytes(value / 256, (width - 1) as nat)
    }
}

/// The two's-complement reading of `value` as a signed number of `width` bytes.
pub open spec fn signed_value(value: nat, width: nat) -> int {
    if 2 * value >= radix(width) {
        value - radix(width)
    } else {
        value as int
    }
}

/// The unsigned number whose two's-complement reading in `width` bytes is `x`.
pub open spec fn unsigned_image(x: int, width: nat) -> nat {
    if x < 0 {
        (x + radix(width)) as nat
    } else {
        x as nat
    }
}

/// The powers of 256 at the widths of the machine integers.
pub proof fn lemma_radix_values()
    ensures
        radix(0) == 1,
        radix(1) == 0x100,
        radix(2) == 0x1_0000,
        radix(4) == 0x1_0000_0000,
        radix(8) == 0x1_0000_0000_0000_0000,
        radix(15) == 0x100_0000_0000_0000_0000_0000_0000_0000,
        radix(16) == 0x1_0000_0000_0000_0000_0000_0000_0000_0000,
{
    reveal_with_fuel(radix, 17);
}

/// `radix` never shrinks as the width grows.
pub proof fn lemma_radix_monotonic(a: nat, b: nat)
    requires
        a <= b,
    ensures
        0 < radix(a) <= radix(b),
    decreases b,
{
    if b == 0 {
    } else if a == b {
        lemma_radix_monotonic((a - 1) as nat, (b - 1) as nat);
    } else {
        lemma_radix_monotonic(a, (b - 1) as nat);
    }
}

/// A byte string of length `n` spells a number below `256^n`.
pub proof fn lemma_le_value_bound(bytes: Seq<u8>)
    ensures
        le_value(bytes) < radix(bytes.len()),
    decreases bytes.len(),
{
    if bytes.len() > 0 {
        lemma_le_value_bound(bytes.skip(1));
    }
}

/// `le_bytes` yields exactly `width` bytes.
pub proof fn lemma_le_bytes_len(value: nat, width: nat)
    ensures
        le_bytes(value, width).len() == width,
    decreases width,
{
    if width > 0 {
        lemma_le_bytes_len(value / 256, (width - 1) as nat);
    }
}

/// Decoding the little-endian bytes of a value that fits in `width` bytes
/// gives that value back.
pub proof fn lemma_unsigned_round_trip(value: nat, width: nat)
    requires
        value < radix(width),
    ensures
        le_bytes(value, width).len() == width,
        unsigned_echo(value, width) == value,
    decreases width,
{
    lemma_le_bytes_len(value, width);
    if width > 0 {
        let rest = le_bytes(value / 256, (width - 1) as nat);
        lemma_unsigned_round_trip(value / 256, (width - 1) as nat);
        assert(le_bytes(value, width).skip(1) =~= rest);
    }
}

/// Decoding the two's-complement little-endian bytes of a signed value that
/// fits in `width` bytes gives that value back, the least and the greatest
/// representable value included.
pub proof fn lemma_signed_round_trip(x: int, width: nat)
    requires
        width > 0,
        -(radix(width) as int) <= 2 * x < radix(width),
    ensures
        unsigned_image(x, width) < radix(width),
        signed_echo(x, width) == x,
{
    lemma_unsigned_round_trip(unsigned_image(x, width), width);
}

/// What comes back when the unsigned `value` is written as `width`
/// little-endian bytes and those bytes are decoded.
pub open spec fn unsigned_echo(value: nat, width: nat) -> nat {
    le_value(le_bytes(value, width))
}

/// What comes back when the signed `x` is written as `width` little-endian
/// bytes in two's complement and those bytes are decoded.
pub open spec fn signed_echo(x: int, width: nat) -> int {
    signed_value(le_value(le_bytes(unsigned_image(x, width), width)), width)
}

/// Every value of every machine integer type survives being written as
/// little-endian bytes of its width and read back, zero and both ends of the
/// range included.
pub proof fn lemma_machine_round_trips()
    ensures
        forall|x: u8| #[trigger] unsigned_echo(x as nat, 1) == x,
        forall|x: u16| #[trigger] unsigned_echo(x as nat, 2) == x,
        forall|x: u32| #[trigger] unsigned_echo(x as nat, 4) == x,
        forall|x: u64| #[trigger] unsigned_echo(x as nat, 8) == x,
        forall|x: u128| #[trigger] unsigned_echo(x as nat, 16) == x,
        forall|x: i8| #[trigger] signed_echo(x as int, 1) == x,
        forall|x: i16| #[trigger] signed_echo(x as int, 2) == x,
        forall|x: i32| #[trigger] signed_echo(x as int, 4) == x,
        forall|x: i64| #[trigger] signed_echo(x as int, 8) == x,
        forall|x: i128| #[trigger] signed_echo(x as int, 16) == x,
{
    lemma_radix_values();
    assert forall|x: u8| #[trigger] unsigned_echo(x as nat, 1) == x by {
        lemma_unsigned_round_trip(x as nat, 1);
    }
    assert forall|x: u16| #[trigger] unsigned_echo(x as nat, 2) == x by {
        lemma_unsigned_round_trip(x as nat, 2);
    }
    assert forall|x: u32| #[trigger] unsigned_echo(x as nat, 4) == x by {
        lemma_unsigned_round_trip(x as nat, 4);
    }
    assert forall|x: u64| #[trigger] unsigned_echo(x as nat, 8) == x by {
        lemma_unsigned_round_trip(x as nat, 8);
    }
    assert forall|x: u128| #[trigger] unsigned_echo(x as nat, 16) == x by {
        lemma_unsigned_round_trip(x as nat, 16);
    }
    assert forall|x: i8| #[trigger] signed_echo(x as int, 1) == x by {
        lemma_signed_round_trip(x as int, 1);
    }
    assert forall|x: i16| #[trigger] signed_echo(x as int, 2) == x by {
        lemma_signed_round_trip(x as int, 2);
    }
    assert forall|x: i32| #[trigger] signed_echo(x as int, 4) == x by {
        lemma_signed_round_trip(x as int, 4);
    }
    assert forall|x: i64| #[trigger] signed_echo(x as int, 8) == x by {
        lemma_signed_round_trip(x as int, 8);
    }
    assert forall|x: i128| #[trigger] signed_echo(x as int, 16) == x by {
        lemma_signed_round_trip(x as int, 16);
    }
}

/// The unsigned number that up to sixteen bytes spell, least significant first.
pub fn decode_unsigned(bytes: &[u8]) -> (v: u128)
    requires
        bytes@.len() <= 16,
    ensures
        v == le_value(bytes@),
        v < radix(bytes@.len()),
{
    let n: usize = bytes.len();
    let mut i: usize = n;
    let mut acc: u128 = 0;
    proof {
        lemma_le_value_bound(bytes@);
        assert(bytes@.skip(n as int) =~= Seq::<u8>::empty());
    }
    while i > 0
        invariant
            n == bytes@.len(),
            n <= 16,
            i <= n,
            acc == le_value(bytes@.skip(i as int)),
        decreases i,
    {
        i -= 1;
        proof {
            let tail = bytes@.skip(i as int);
            assert(tail.skip(1) =~= bytes@.skip(i + 1));
            lemma_le_value_bound(tail.skip(1));
            lemma_le_value_bound(tail);
            lemma_radix_monotonic(tail.len(), 16);
            lemma_radix_values();
        }
        acc = acc * 256 + bytes[i] as u128;
    }
    proof {
        assert(bytes@.skip(0) =~= bytes@);
    }
    acc
}

/// Decodes one byte as `u8`.
pub fn decode_u8(bytes: &[u8]) -> (v: u8)
    requires
        bytes@.len() == 1,
    ensures
        v == le_value(bytes@),
{
    proof {
        lemma_radix_values();
    }
    decode_unsigned(bytes) as u8
}

/// Decodes two little-endian bytes as `u16`.
pub fn decode_u16(bytes: &[u8]) -> (v: u16)
    requires
        bytes@.len() == 2,
    ensures
        v == le_value(bytes@),
{
    proof {
        lemma_radix_values();
    }
    decode_unsigned(bytes) as u16
}

/// Decodes four little-endian bytes as `u32`.
pub fn decode_u32(bytes: &[u8]) -> (v: u32)
    requires
        bytes@.len() == 4,
    ensures
        v == le_value(bytes@),
{
    proof {
        lemma_radix_values();
    }
    decode_unsigned(bytes) as u32
}

/// Decodes eight little-endian bytes as `u64`.
pub fn decode_u64(bytes: &[u8]) -> (v: u64)
    requires
        bytes@.len() == 8,
    ensures
        v == le_value(bytes@),
{
    proof {
        lemma_radix_values();
    }
    decode_unsigned(bytes) as u64
}

/// Decodes sixteen little-endian bytes as `u128`.
pub fn decode_u128(bytes: &[u8]) -> (v: u128)
    requires
        bytes@.len() == 16,
    ensures
        v == le_value(bytes@),
{
    decode_unsigned(bytes)
}

/// Decodes one byte as a two's-complement `i8`.
pub fn decode_i8(bytes: &[u8]) -> (v: i8)
    requires
        bytes@.len() == 1,
    ensures
        v == signed_value(le_value(bytes@), 1),
{
    proof {
        lemma_radix_values();
    }
    let u: u128 = decode_unsigned(bytes);
    if u < 0x80 {
        u as i8
    } else {
        (u as i16 - 0x100) as i8
    }
}

/// Decodes two little-endian bytes as a two's-complement `i16`.
pub fn decode_i16(bytes: &[u8]) -> (v: i16)
    requires
        bytes@.len() == 2,
    ensures
        v == signed_value(le_value(bytes@), 2),
{
    proof {
        lemma_radix_values();
    }
    let u: u128 = decode_unsigned(bytes);
    if u < 0x8000 {
        u as i16
    } else {
        (u as i32 - 0x1_0000) as i16
    }
}

/// Decodes four little-endian bytes as a two's-complement `i32`.
pub fn decode_i32(bytes: &[u8]) -> (v: i32)
    requires
        bytes@.len() == 4,
    ensures
        v == signed_value(le_value(bytes@), 4),
{
    proof {
        lemma_radix_values();
    }
    let u: u128 = decode_unsigned(bytes);
    if u < 0x8000_0000 {
        u as i32
    } else {
        (u as i64 - 0x1_0000_0000) as i32
    }
}

/// Decodes eight little-endian bytes as a two's-complement `i64`.
pub fn decode_i64(bytes: &[u8]) -> (v: i64)
    requires
        bytes@.len() == 8,
    ensures
        v == signed_value(le_value(bytes@), 8),
{
    proof {
        lemma_radix_values();
    }
    let u: u128 = decode_unsigned(bytes);
    if u < 0x8000_0000_0000_0000 {
        u as i64
    } else {
        (u as i128 - 0x1_0000_0000_0000_0000) as i64
    }
}

/// Decodes sixteen little-endian bytes as a two's-complement `i128`.
pub fn decode_i128(bytes: &[u8]) -> (v: i128)
    requires
        bytes@.len() == 16,
    ensures
        v == signed_value(le_value(bytes@), 16),
{
    proof {
        lemma_radix_values();
    }
    let u: u128 = decode_unsigned(bytes);
    if u < 0x8000_0000_0000_0000_0000_0000_0000_0000 {
        u as i128
    } else {
        (u - 0x8000_0000_0000_0000_0000_0000_0000_0000) as i128 + i128::MIN
    }
}

} // verus!
