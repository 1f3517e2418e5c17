use procmem::memory::endian::{
    decode_i128, decode_i16, decode_i32, decode_i64, decode_i8, decode_u128, decode_u16,
    decode_u32, decode_u64, decode_u8, decode_unsigned,
};

#[test]
fn u8_round_trips() {
    for x in [0u8, 1, 0x7f, 0x80, u8::MAX] {
        assert_eq!(decode_u8(&x.to_le_bytes()), x);
    }
}

#[test]
fn u16_round_trips() {
    for x in [0u16, 1, 0x1234, 0x8000, u16::MAX] {
        assert_eq!(decode_u16(&x.to_le_bytes()), x);
    }
}

#[test]
fn u32_round_trips() {
    for x in [0u32, 1, 0x1234_5678, 0x8000_0000, u32::MAX] {
        assert_eq!(decode_u32(&x.to_le_bytes()), x);
    }
}

#[test]
fn u64_round_trips() {
    for x in [0u64, 1, 0x0123_4567_89ab_cdef, 1 << 63, u64::MAX] {
        assert_eq!(decode_u64(&x.to_le_bytes()), x);
    }
}

#[test]
fn u128_round_trips() {
    for x in [0u128, 1, 0x0123_4567_89ab_cdef_0011_2233_4455_6677, 1 << 127, u128::MAX] {
        assert_eq!(decode_u128(&x.to_le_bytes()), x);
    }
}

#[test]
fn i8_round_trips() {
    for x in [0i8, 1, -1, i8::MIN, i8::MAX] {
        assert_eq!(decode_i8(&x.to_le_bytes()), x);
    }
}

#[test]
fn i16_round_trips() {
    for x in [0i16, 1, -1, -12345, i16::MIN, i16::MAX] {
        assert_eq!(decode_i16(&x.to_le_bytes()), x);
    }
}

#[test]
fn i32_round_trips() {
    for x in [0i32, 1, -1, -123_456_789, i32::MIN, i32::MAX] {
        assert_eq!(decode_i32(&x.to_le_bytes()), x);
    }
}

#[test]
fn i64_round_trips() {
    for x in [0i64, 1, -1, -1_234_567_890_123, i64::MIN, i64::MAX] {
        assert_eq!(decode_i64(&x.to_le_bytes()), x);
    }
}

#[test]
fn i128_round_trips() {
    for x in [0i128, 1, -1, -(1 << 100), i128::MIN, i128::MAX] {
        assert_eq!(decode_i128(&x.to_le_bytes()), x);
    }
}

#[test]
fn f32_round_trips_through_its_bits() {
    for x in [0.0f32, -0.0, 1.5, -2.25, f32::MIN, f32::MAX, f32::MIN_POSITIVE, f32::INFINITY] {
        let back = f32::from_bits(decode_u32(&x.to_le_bytes()));
        assert_eq!(back.to_bits(), x.to_bits());
    }
}

#[test]
fn f64_round_trips_through_its_bits() {
    for x in [0.0f64, -0.0, 1.5, -2.25, f64::MIN, f64::MAX, f64::MIN_POSITIVE, f64::NEG_INFINITY] {
        let back = f64::from_bits(decode_u64(&x.to_le_bytes()));
        assert_eq!(back.to_bits(), x.to_bits());
    }
}

#[test]
fn least_significant_byte_comes_first() {
    assert_eq!(decode_u16(&[0x34, 0x12]), 0x1234);
    assert_eq!(decode_u32(&[0x78, 0x56, 0x34, 0x12]), 0x1234_5678);
    assert_eq!(decode_u64(&[1, 0, 0, 0, 0, 0, 0, 0]), 1);
    assert_eq!(decode_u64(&[0, 0, 0, 0, 0, 0, 0, 1]), 1 << 56);
}

#[test]
fn high_bit_makes_a_signed_value_negative() {
    assert_eq!(decode_i8(&[0xff]), -1);
    assert_eq!(decode_i8(&[0x80]), -128);
    assert_eq!(decode_i16(&[0xfe, 0xff]), -2);
    assert_eq!(decode_i32(&[0x00, 0x00, 0x00, 0x80]), i32::MIN);
    assert_eq!(decode_i64(&[0xff; 8]), -1);
    assert_eq!(decode_i128(&[0xff; 16]), -1);
}

#[test]
fn decode_unsigned_takes_any_width_up_to_sixteen() {
    assert_eq!(decode_unsigned(&[]), 0);
    assert_eq!(decode_unsigned(&[0x01, 0x02, 0x03]), 0x03_02_01);
    assert_eq!(decode_unsigned(&[0xff; 16]), u128::MAX);
}
