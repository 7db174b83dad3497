use parity_scale_codec::{Compact, Decode, Encode};
use uint_codec::scale::{
    assert_compact_supported, compact_tail, compact_tail_by_bytes, CompactRefUint, CompactUint,
    PrefixInput, ScaleError, COMPACT_BITS_LIMIT,
};
use uint_codec::Uint;

type U8 = Uint<8, 1>;
type U16 = Uint<16, 1>;
type U64 = Uint<64, 1>;
type U128 = Uint<128, 2>;
type U256 = Uint<256, 4>;
type U512 = Uint<512, 8>;

struct Rng(u64);

impl Rng {
    fn next(&mut self) -> u64 {
        self.0 ^= self.0 << 13;
        self.0 ^= self.0 >> 7;
        self.0 ^= self.0 << 17;
        self.0
    }
}

/// Integers of the width: zero, one, the largest, and others of every
/// length in bytes.
fn samples<const BITS: usize, const LIMBS: usize>(seed: u64) -> Vec<Uint<BITS, LIMBS>> {
    let bytes = (BITS + 7) / 8;
    let mut rng = Rng(seed);
    let mut out = Vec::new();
    out.push(Uint::try_from_le_slice(&[]).unwrap());
    for round in 0..(4 * bytes + 4) {
        let mut le = vec![0u8; bytes];
        let keep = if round < bytes { round + 1 } else { (rng.next() as usize) % (bytes + 1) };
        for b in le[..keep].iter_mut() {
            *b = if round % 5 == 4 { 0xff } else { rng.next() as u8 };
        }
        if BITS % 8 != 0 {
            le[bytes - 1] &= (1u8 << (BITS % 8)) - 1;
        }
        out.push(Uint::try_from_le_slice(&le).unwrap());
    }
    if BITS > 0 {
        out.push(Uint::try_from_u128(1).unwrap());
    }
    out
}

fn fixed<const BITS: usize, const LIMBS: usize>(value: &Uint<BITS, LIMBS>) -> Vec<u8> {
    value.using_encoded(|bytes| bytes.to_vec())
}

fn compact<const BITS: usize, const LIMBS: usize>(value: &Uint<BITS, LIMBS>) -> Vec<u8> {
    let mut dest = vec![];
    CompactRefUint(value).encode_to(&mut dest);
    dest
}

fn compact_of(x: u128) -> Vec<u8> {
    compact(&U256::try_from_u128(x).unwrap())
}

fn decode_compact<const BITS: usize, const LIMBS: usize>(
    bytes: &[u8],
) -> (Result<Uint<BITS, LIMBS>, ScaleError>, usize) {
    let mut input = bytes;
    let r = CompactUint::<BITS, LIMBS>::decode(&mut input).map(|c| c.0);
    (r, bytes.len() - input.len())
}

fn scale_at<const BITS: usize, const LIMBS: usize>() {
    for value in samples::<BITS, LIMBS>(0x9e37_79b9_7f4a_7c15 ^ BITS as u64) {
        let serialized = fixed(&value);
        let deserialized = Uint::<BITS, LIMBS>::decode_fixed(&mut serialized.as_slice()).unwrap();
        assert_eq!(value, deserialized);
    }
}

fn scale_compact_at<const BITS: usize, const LIMBS: usize>() {
    let zero = Uint::<BITS, LIMBS>::try_from_le_slice(&[]).unwrap();
    for value in samples::<BITS, LIMBS>(0x2545_f491_4f6c_dd1d ^ BITS as u64) {
        if BITS < COMPACT_BITS_LIMIT {
            let serialized_compact = compact(&value);
            let deserialized_compact =
                CompactUint::<BITS, LIMBS>::decode(&mut serialized_compact.as_slice()).unwrap();
            assert_eq!(value, deserialized_compact.0);

            if BITS < 30 && value != zero {
                let serialized_normal = fixed(&value);
                assert!(serialized_compact.len() < serialized_normal.len());
            }
        }
    }
}

#[test]
fn test_scale() {
    scale_at::<0, 0>();
    scale_at::<1, 1>();
    scale_at::<2, 1>();
    scale_at::<63, 1>();
    scale_at::<64, 1>();
    scale_at::<65, 2>();
    scale_at::<127, 2>();
    scale_at::<128, 2>();
    scale_at::<129, 3>();
    scale_at::<256, 4>();
    scale_at::<384, 6>();
    scale_at::<512, 8>();
    scale_at::<4096, 64>();
}

#[test]
fn test_scale_compact() {
    scale_compact_at::<0, 0>();
    scale_compact_at::<1, 1>();
    scale_compact_at::<2, 1>();
    scale_compact_at::<63, 1>();
    scale_compact_at::<64, 1>();
    scale_compact_at::<65, 2>();
    scale_compact_at::<127, 2>();
    scale_compact_at::<128, 2>();
    scale_compact_at::<129, 3>();
    scale_compact_at::<256, 4>();
    scale_compact_at::<384, 6>();
    scale_compact_at::<512, 8>();
    scale_compact_at::<4096, 64>();
}

#[test]
fn compact_supported_below_the_limit() {
    assert_eq!(COMPACT_BITS_LIMIT, 536);
    assert_compact_supported::<0>();
    assert_compact_supported::<256>();
    assert_compact_supported::<535>();
}

#[test]
fn fixed_form_is_a_vector_of_the_le_bytes() {
    assert_eq!(fixed(&U16::try_from_u128(0x0102).unwrap()), vec![0x08, 0x02, 0x01]);
    assert_eq!(fixed(&U8::try_from_u128(7).unwrap()), vec![0x04, 0x07]);
    assert_eq!(fixed(&Uint::<0, 0>::try_from_u128(0).unwrap()), vec![0x00]);
    let mut expected = vec![32 << 2];
    expected.extend_from_slice(&[0x78, 0x56, 0x34, 0x12]);
    expected.extend_from_slice(&[0u8; 28]);
    assert_eq!(fixed(&U256::try_from_u128(0x1234_5678).unwrap()), expected);
}

#[test]
fn fixed_form_of_64_bytes_has_a_length_of_two_bytes() {
    let value = U512::try_from_le_slice(&[0xab; 64]).unwrap();
    let encoded = fixed(&value);
    assert_eq!(encoded.len(), 66);
    assert_eq!(encoded[..2], [0x01, 0x01]);
    assert_eq!(encoded, value.to_le_bytes_vec().encode());
    let mut input = &encoded[..];
    assert_eq!(U512::decode_fixed(&mut input), Ok(value));
    assert!(input.is_empty());
}

#[test]
fn fixed_form_agrees_with_the_vector_codec() {
    for value in samples::<256, 4>(77) {
        let bytes = value.to_le_bytes_vec();
        assert_eq!(fixed(&value), bytes.encode());
        let mut input = &fixed(&value)[..];
        assert_eq!(Vec::<u8>::decode(&mut input).unwrap(), bytes);
    }
}

#[test]
fn fixed_size_hint_is_four_more_than_the_bytes() {
    assert_eq!(U256::try_from_u128(5).unwrap().size_hint(), 36);
    assert_eq!(U8::try_from_u128(5).unwrap().size_hint(), 5);
    assert_eq!(Uint::<0, 0>::try_from_u128(0).unwrap().size_hint(), 4);
    assert_eq!(Uint::<4096, 64>::try_from_u128(0).unwrap().size_hint(), 516);
}

#[test]
fn fixed_decode_leaves_what_follows() {
    let bytes = [0x08, 0x02, 0x01, 0xaa];
    let mut input = &bytes[..];
    assert_eq!(U16::decode_fixed(&mut input), Ok(U16::try_from_u128(0x0102).unwrap()));
    assert_eq!(input, &[0xaa][..]);
}

#[test]
fn fixed_decode_reads_vectors_of_other_lengths() {
    let mut input = &[0x00][..];
    assert_eq!(U16::decode_fixed(&mut input), Ok(U16::try_from_u128(0).unwrap()));
    let mut input = &[0x04, 0x09][..];
    assert_eq!(U16::decode_fixed(&mut input), Ok(U16::try_from_u128(9).unwrap()));
    let mut input = &[0x10, 0x09, 0x01, 0x00, 0x00][..];
    assert_eq!(U16::decode_fixed(&mut input), Ok(U16::try_from_u128(0x0109).unwrap()));
    assert!(input.is_empty());
}

#[test]
fn fixed_decode_refuses_what_the_width_cannot_hold() {
    let mut input = &[0x0c, 0x00, 0x00, 0x01][..];
    assert_eq!(U16::decode_fixed(&mut input), Err(ScaleError::TooLarge));
    assert!(input.is_empty());
    let mut input = &[0x08, 0x00, 0x10][..];
    assert_eq!(Uint::<12, 1>::decode_fixed(&mut input), Err(ScaleError::TooLarge));
}

#[test]
fn fixed_decode_refuses_a_short_or_malformed_input() {
    let mut input = &[][..];
    assert_eq!(U16::decode_fixed(&mut input), Err(ScaleError::ByteVector));
    let mut input = &[0x08, 0x02][..];
    assert_eq!(U16::decode_fixed(&mut input), Err(ScaleError::ByteVector));
    assert_eq!(input, &[0x02][..]);
    let mut input = &[0x05, 0x00, 0x01][..];
    assert_eq!(U16::decode_fixed(&mut input), Err(ScaleError::ByteVector));
    assert_eq!(input, &[0x01][..]);
    let mut input = &[0x07, 0x01, 0x00, 0x00, 0x40][..];
    assert_eq!(U16::decode_fixed(&mut input), Err(ScaleError::ByteVector));
    assert_eq!(input.len(), 4);
}

#[test]
fn compact_modes_by_bit_length() {
    assert_eq!(compact_of(0), vec![0x00]);
    assert_eq!(compact_of(1), vec![0x04]);
    assert_eq!(compact_of(42), vec![0xa8]);
    assert_eq!(compact_of(63), vec![0xfc]);
    assert_eq!(compact_of(64), vec![0x01, 0x01]);
    assert_eq!(compact_of(69), vec![0x15, 0x01]);
    assert_eq!(compact_of(16383), vec![0xfd, 0xff]);
    assert_eq!(compact_of(16384), vec![0x02, 0x00, 0x01, 0x00]);
    assert_eq!(compact_of(65535), vec![0xfe, 0xff, 0x03, 0x00]);
    assert_eq!(compact_of((1 << 30) - 1), vec![0xfe, 0xff, 0xff, 0xff]);
    assert_eq!(compact_of(1 << 30), vec![0x03, 0x00, 0x00, 0x00, 0x40]);
    assert_eq!(compact_of(u32::MAX as u128), vec![0x03, 0xff, 0xff, 0xff, 0xff]);
    assert_eq!(compact_of(1 << 32), vec![0x07, 0x00, 0x00, 0x00, 0x00, 0x01]);
    assert_eq!(
        compact_of(u64::MAX as u128),
        vec![0x13, 0xff, 0xff, 0xff, 0xff, 0xff, 0xff, 0xff, 0xff]
    );
    let mut expected = vec![0x33];
    expected.extend_from_slice(&[0xff; 16]);
    assert_eq!(compact_of(u128::MAX), expected);
}

#[test]
fn compact_of_the_widest_integer_counts_67_bytes() {
    let mut le = vec![0xffu8; 66];
    le.push(0x7f);
    let value = Uint::<535, 9>::try_from_le_slice(&le).unwrap();
    let encoded = compact(&value);
    assert_eq!(encoded.len(), 68);
    assert_eq!(encoded[0], 0xff);
    assert_eq!(encoded[1..], le[..]);
    assert_eq!(decode_compact::<535, 9>(&encoded), (Ok(value), 68));
}

#[test]
fn compact_encode_appends_to_what_is_there() {
    let mut dest = vec![0xaa];
    CompactRefUint(&U64::try_from_u128(64).unwrap()).encode_to(&mut dest);
    assert_eq!(dest, vec![0xaa, 0x01, 0x01]);
}

#[test]
fn compact_size_hint_is_the_length() {
    for value in samples::<512, 8>(5) {
        assert_eq!(CompactRefUint(&value).size_hint(), compact(&value).len());
    }
    for x in [0u128, 63, 64, 16383, 16384, (1 << 30) - 1, 1 << 30, u64::MAX as u128, u128::MAX] {
        let value = U256::try_from_u128(x).unwrap();
        assert_eq!(CompactRefUint(&value).size_hint(), compact(&value).len());
    }
    assert_eq!(CompactRefUint(&U256::try_from_u128(63).unwrap()).size_hint(), 1);
    assert_eq!(CompactRefUint(&U256::try_from_u128(16383).unwrap()).size_hint(), 2);
    assert_eq!(CompactRefUint(&U256::try_from_u128((1 << 30) - 1).unwrap()).size_hint(), 4);
    assert_eq!(CompactRefUint(&U256::try_from_u128(1 << 30).unwrap()).size_hint(), 5);
    assert_eq!(CompactRefUint(&U256::try_from_u128(u128::MAX).unwrap()).size_hint(), 17);
}

#[test]
fn compact_agrees_with_the_compact_primitives() {
    let mut rng = Rng(0x0123_4567_89ab_cdef);
    let mut values = vec![
        0u128,
        1,
        63,
        64,
        16383,
        16384,
        (1 << 30) - 1,
        1 << 30,
        u32::MAX as u128,
        1 << 32,
        (1 << 56) - 1,
        1 << 56,
        u64::MAX as u128,
        1 << 64,
        (1 << 120) - 1,
        1 << 120,
        u128::MAX,
    ];
    for _ in 0..300 {
        let x = ((rng.next() as u128) << 64) | rng.next() as u128;
        values.push(x >> (rng.next() % 128));
    }
    for x in values {
        let expected = Compact(x).encode();
        assert_eq!(compact_of(x), expected);
        assert_eq!(
            decode_compact::<128, 2>(&expected),
            (Ok(U128::try_from_u128(x).unwrap()), expected.len())
        );
        let mut input = &compact_of(x)[..];
        assert_eq!(Compact::<u128>::decode(&mut input).unwrap().0, x);
        if x <= u64::MAX as u128 {
            assert_eq!(compact_of(x), Compact(x as u64).encode());
        }
        if x <= u32::MAX as u128 {
            assert_eq!(compact_of(x), Compact(x as u32).encode());
        }
    }
}

#[test]
fn compact_decode_leaves_what_follows() {
    assert_eq!(decode_compact::<256, 4>(&[0xa8, 0xaa]), (Ok(U256::try_from_u128(42).unwrap()), 1));
    assert_eq!(
        decode_compact::<256, 4>(&[0x15, 0x01, 0xaa]),
        (Ok(U256::try_from_u128(69).unwrap()), 2)
    );
    assert_eq!(
        decode_compact::<256, 4>(&[0xfe, 0xff, 0x03, 0x00, 0xaa]),
        (Ok(U256::try_from_u128(65535).unwrap()), 4)
    );
    assert_eq!(
        decode_compact::<256, 4>(&[0x03, 0x00, 0x00, 0x00, 0x40, 0xaa]),
        (Ok(U256::try_from_u128(1 << 30).unwrap()), 5)
    );
    assert_eq!(
        decode_compact::<256, 4>(&[0x07, 0x00, 0x00, 0x00, 0x00, 0x01, 0xaa]),
        (Ok(U256::try_from_u128(1 << 32).unwrap()), 6)
    );
}

#[test]
fn compact_decode_refuses_a_short_input() {
    let exhausted = Err(ScaleError::StreamExhausted);
    assert_eq!(decode_compact::<256, 4>(&[]), (exhausted, 0));
    assert_eq!(decode_compact::<256, 4>(&[0x15]), (exhausted, 1));
    assert_eq!(decode_compact::<256, 4>(&[0xfe, 0xff, 0x03]), (exhausted, 1));
    assert_eq!(decode_compact::<256, 4>(&[0x03, 0x00, 0x00, 0x40]), (exhausted, 1));
    assert_eq!(decode_compact::<256, 4>(&[0x13, 1, 2, 3, 4, 5, 6, 7]), (exhausted, 1));
    assert_eq!(decode_compact::<256, 4>(&[0x33, 1, 2, 3]), (exhausted, 1));
    assert_eq!(decode_compact::<256, 4>(&[0x07, 1, 2, 3, 4]), (exhausted, 5));
    assert_eq!(decode_compact::<256, 4>(&[0x07]), (exhausted, 1));
}

#[test]
fn compact_decode_refuses_a_longer_mode_than_needed() {
    assert_eq!(decode_compact::<256, 4>(&[0x01, 0x00]), (Err(ScaleError::OutOfRange), 2));
    assert_eq!(decode_compact::<256, 4>(&[0xf9, 0x00]), (Err(ScaleError::OutOfRange), 2));
    assert_eq!(
        decode_compact::<256, 4>(&[0x02, 0x00, 0x00, 0x00]),
        (Err(ScaleError::OutOfRange), 4)
    );
    assert_eq!(
        decode_compact::<256, 4>(&[0xfa, 0xff, 0x00, 0x00]),
        (Err(ScaleError::OutOfRange), 4)
    );
    assert_eq!(
        decode_compact::<256, 4>(&[0x03, 0xff, 0xff, 0xff, 0x3f]),
        (Err(ScaleError::OutOfRange), 5)
    );
    assert_eq!(
        decode_compact::<256, 4>(&[0x13, 0xff, 0xff, 0xff, 0xff, 0xff, 0xff, 0xff, 0x00]),
        (Err(ScaleError::OutOfRange), 9)
    );
    let mut word = vec![0x33];
    word.extend_from_slice(&[0xff; 15]);
    word.push(0x00);
    assert_eq!(decode_compact::<256, 4>(&word), (Err(ScaleError::OutOfRange), 17));
    assert_eq!(decode_compact::<256, 4>(&[0x07, 0, 0, 0, 0, 0]), (Err(ScaleError::OutOfRange), 6));
    assert_eq!(decode_compact::<64, 1>(&[0xfd, 0x00]), (Err(ScaleError::OutOfRange), 2));
    assert_eq!(decode_compact::<64, 1>(&[0xfd, 0x00, 0xaa]), (Err(ScaleError::OutOfRange), 2));
    assert_eq!(
        decode_compact::<64, 1>(&[0xfe, 0xff, 0x00, 0x00]),
        (Err(ScaleError::OutOfRange), 4)
    );
    assert_eq!(
        decode_compact::<64, 1>(&[0x07, 0x01, 0x00, 0x00, 0x00, 0x00]),
        (Err(ScaleError::OutOfRange), 6)
    );
    assert_eq!(
        decode_compact::<64, 1>(&[0x0b, 0, 0, 0, 0, 1, 0]),
        (Err(ScaleError::OutOfRange), 7)
    );
}

#[test]
fn compact_decode_at_the_bounds_of_the_modes() {
    assert_eq!(decode_compact::<256, 4>(&[0xfc]), (Ok(U256::try_from_u128(63).unwrap()), 1));
    assert_eq!(decode_compact::<256, 4>(&[0xfd, 0x00]), (Err(ScaleError::OutOfRange), 2));
    assert_eq!(decode_compact::<256, 4>(&[0x01, 0x01]), (Ok(U256::try_from_u128(64).unwrap()), 2));
    assert_eq!(
        decode_compact::<256, 4>(&[0xfd, 0xff]),
        (Ok(U256::try_from_u128(16383).unwrap()), 2)
    );
    assert_eq!(
        decode_compact::<256, 4>(&[0xfe, 0xff, 0x00, 0x00]),
        (Err(ScaleError::OutOfRange), 4)
    );
    assert_eq!(
        decode_compact::<256, 4>(&[0x02, 0x00, 0x01, 0x00]),
        (Ok(U256::try_from_u128(16384).unwrap()), 4)
    );
    assert_eq!(
        decode_compact::<256, 4>(&[0x13, 0, 0, 0, 0, 0, 0, 0, 1]),
        (Ok(U256::try_from_u128(1 << 56).unwrap()), 9)
    );
    assert_eq!(
        decode_compact::<256, 4>(&[0x07, 0xff, 0xff, 0xff, 0xff, 0x00]),
        (Err(ScaleError::OutOfRange), 6)
    );
    assert_eq!(
        decode_compact::<256, 4>(&[0x07, 0x00, 0x00, 0x00, 0x00, 0x01]),
        (Ok(U256::try_from_u128(1 << 32).unwrap()), 6)
    );
}

#[test]
fn compact_decode_of_a_general_byte_count() {
    assert_eq!(
        decode_compact::<256, 4>(&[0x07, 1, 0, 0, 0, 0]),
        (Err(ScaleError::OutOfRange), 6)
    );
    assert_eq!(
        decode_compact::<256, 4>(&[0x0b, 1, 2, 3, 4, 5, 6]),
        (Ok(U256::try_from_u128(0x0605_0403_0201).unwrap()), 7)
    );
    let mut long = vec![(35 - 4) << 2 | 3];
    long.extend_from_slice(&[0u8; 35]);
    long[1] = 0xff;
    assert_eq!(decode_compact::<512, 8>(&long), (Err(ScaleError::OutOfRange), 36));
    long[34] = 0x01;
    assert_eq!(decode_compact::<512, 8>(&long), (Err(ScaleError::OutOfRange), 36));
    long[35] = 0x01;
    let value = U512::try_from_le_slice(&long[1..]).unwrap();
    assert_eq!(decode_compact::<512, 8>(&long), (Ok(value), 36));
    assert_eq!(compact(&value), long);
    let mut longest = vec![0xff];
    longest.extend_from_slice(&[0u8; 67]);
    longest[66] = 0xff;
    assert_eq!(decode_compact::<535, 9>(&longest), (Err(ScaleError::OutOfRange), 68));
    longest[67] = 0x01;
    let value = Uint::<535, 9>::try_from_le_slice(&longest[1..]).unwrap();
    assert_eq!(decode_compact::<535, 9>(&longest), (Ok(value), 68));
    longest[67] = 0x80;
    assert_eq!(decode_compact::<535, 9>(&longest), (Err(ScaleError::TooLarge), 68));
}

#[test]
fn compact_decode_refuses_what_the_width_cannot_hold() {
    assert_eq!(decode_compact::<8, 1>(&[0xfc]), (Ok(U8::try_from_u128(63).unwrap()), 1));
    assert_eq!(decode_compact::<4, 1>(&[0xfc]), (Err(ScaleError::OutOfRange), 1));
    assert_eq!(decode_compact::<8, 1>(&[0xfd, 0x03]), (Ok(U8::try_from_u128(255).unwrap()), 2));
    assert_eq!(decode_compact::<8, 1>(&[0x01, 0x04]), (Err(ScaleError::OutOfRange), 2));
    assert_eq!(decode_compact::<8, 1>(&[0x02, 0x00, 0x01, 0x00]), (Err(ScaleError::OutOfRange), 4));
    assert_eq!(
        decode_compact::<16, 1>(&[0x03, 0x00, 0x00, 0x00, 0x40]),
        (Err(ScaleError::OutOfRange), 5)
    );
    assert_eq!(
        decode_compact::<16, 1>(&[0x13, 0, 0, 0, 0, 0, 0, 0, 1]),
        (Err(ScaleError::OutOfRange), 9)
    );
    let mut word = vec![0x33];
    word.extend_from_slice(&[0x01; 16]);
    assert_eq!(decode_compact::<64, 1>(&word), (Err(ScaleError::OutOfRange), 17));
    assert_eq!(
        decode_compact::<16, 1>(&[0x07, 0x00, 0x00, 0x00, 0x00, 0x01]),
        (Err(ScaleError::TooLarge), 6)
    );
    assert_eq!(
        decode_compact::<64, 1>(&[0x17, 0, 0, 0, 0, 0, 0, 0, 0, 1]),
        (Err(ScaleError::TooLarge), 10)
    );
}

#[test]
fn compact_wrappers_pass_the_integer_on() {
    let value = U64::try_from_u128(77).unwrap();
    let compact = CompactUint::decode_from(value).unwrap();
    assert_eq!(compact.0, value);
    assert_eq!(*compact.encode_as(), value);
}

#[test]
fn prefix_input_counts_the_pending_byte() {
    let bytes = [1u8, 2, 3];
    let mut input = &bytes[..];
    let mut prefixed = PrefixInput { prefix: Some(9), input: &mut input };
    assert_eq!(prefixed.remaining_len(), Ok(Some(4)));
    let mut input = &bytes[..];
    let mut prefixed = PrefixInput { prefix: None, input: &mut input };
    assert_eq!(prefixed.remaining_len(), Ok(Some(3)));
    let mut input = &[][..];
    let mut prefixed = PrefixInput { prefix: Some(9), input: &mut input };
    assert_eq!(prefixed.remaining_len(), Ok(Some(1)));
}

#[test]
fn prefix_input_reads_the_pending_byte_first() {
    let bytes = [1u8, 2, 3];
    let mut input = &bytes[..];
    let mut prefixed = PrefixInput { prefix: Some(9), input: &mut input };
    let mut buffer = [0u8; 2];
    assert_eq!(prefixed.read(&mut buffer), Ok(()));
    assert_eq!(buffer, [9, 1]);
    assert_eq!(prefixed.prefix, None);
    assert_eq!(prefixed.read(&mut buffer), Ok(()));
    assert_eq!(buffer, [2, 3]);
    assert_eq!(prefixed.remaining_len(), Ok(Some(0)));
    assert!(input.is_empty());
}

#[test]
fn prefix_input_keeps_the_pending_byte_on_an_empty_buffer() {
    let bytes = [1u8, 2, 3];
    let mut input = &bytes[..];
    let mut prefixed = PrefixInput { prefix: Some(9), input: &mut input };
    assert_eq!(prefixed.read(&mut []), Ok(()));
    assert_eq!(prefixed.prefix, Some(9));
    assert_eq!(prefixed.remaining_len(), Ok(Some(4)));
}

#[test]
fn prefix_input_fails_on_a_short_inner_input() {
    let bytes = [1u8];
    let mut input = &bytes[..];
    let mut prefixed = PrefixInput { prefix: Some(9), input: &mut input };
    let mut buffer = [0u8; 3];
    assert_eq!(prefixed.read(&mut buffer), Err(ScaleError::StreamExhausted));
    assert_eq!(buffer, [9, 0, 0]);
    assert_eq!(prefixed.prefix, None);
    assert_eq!(input, &[1][..]);
    let mut prefixed = PrefixInput { prefix: None, input: &mut input };
    assert_eq!(prefixed.read(&mut buffer), Err(ScaleError::StreamExhausted));
    assert_eq!(buffer, [9, 0, 0]);
}

#[test]
fn compact_reencoding_gives_the_bytes_read() {
    let mut word = vec![0x33];
    word.extend_from_slice(&[0x5a; 16]);
    let inputs = vec![
        vec![0x00],
        vec![0xa8],
        vec![0x01, 0x01],
        vec![0x15, 0x01],
        vec![0x02, 0x00, 0x01, 0x00],
        vec![0xfe, 0xff, 0x03, 0x00],
        vec![0x03, 0x00, 0x00, 0x00, 0x40],
        vec![0x07, 0x00, 0x00, 0x00, 0x00, 0x01],
        vec![0x13, 1, 2, 3, 4, 5, 6, 7, 8],
        vec![0x17, 1, 2, 3, 4, 5, 6, 7, 8, 9],
        word,
    ];
    for bytes in inputs {
        let (read, n) = decode_compact::<256, 4>(&bytes);
        assert_eq!(n, bytes.len());
        assert_eq!(compact(&read.unwrap()), bytes);
    }
}

#[test]
fn compact_decode_reads_only_what_reencodes_alike() {
    for s in compact_inputs() {
        let (read, n) = decode_compact::<256, 4>(&s);
        if let Ok(value) = read {
            assert_eq!(compact(&value), s[..n]);
        }
    }
    for value in samples::<512, 8>(23) {
        let mut padded = compact(&value);
        if padded[0] % 4 == 3 && padded[0] < 0xff {
            padded[0] += 4;
            padded.push(0);
            let n = padded.len();
            assert_eq!(decode_compact::<512, 8>(&padded), (Err(ScaleError::OutOfRange), n));
        }
    }
}

#[test]
fn compact_tail_is_told_by_the_first_byte() {
    assert_eq!(compact_tail(0x00), 0);
    assert_eq!(compact_tail(0xfc), 0);
    assert_eq!(compact_tail(0x01), 1);
    assert_eq!(compact_tail(0xfd), 1);
    assert_eq!(compact_tail(0x02), 3);
    assert_eq!(compact_tail(0xfe), 3);
    assert_eq!(compact_tail(0x03), 4);
    assert_eq!(compact_tail(0x07), 5);
    assert_eq!(compact_tail(0x13), 8);
    assert_eq!(compact_tail(0x33), 16);
    assert_eq!(compact_tail(0xff), 67);
    for value in samples::<512, 8>(11) {
        let encoded = compact(&value);
        assert_eq!(encoded.len(), 1 + compact_tail(encoded[0]));
    }
}

#[test]
fn compact_is_shorter_than_fixed_for_small_integers() {
    let one = Uint::<1, 1>::try_from_u128(1).unwrap();
    assert_eq!((compact(&one).len(), fixed(&one).len()), (1, 2));
    let small = U16::try_from_u128(63).unwrap();
    assert_eq!((compact(&small).len(), fixed(&small).len()), (1, 3));
    let medium = U16::try_from_u128(16383).unwrap();
    assert_eq!((compact(&medium).len(), fixed(&medium).len()), (2, 3));
    let large = Uint::<32, 1>::try_from_u128((1 << 30) - 1).unwrap();
    assert_eq!((compact(&large).len(), fixed(&large).len()), (4, 5));
    let byte = U8::try_from_u128(64).unwrap();
    assert_eq!((compact(&byte).len(), fixed(&byte).len()), (2, 2));
    let zero = Uint::<0, 0>::try_from_u128(0).unwrap();
    assert_eq!((compact(&zero).len(), fixed(&zero).len()), (1, 1));
}

/// The length at the front of an encoded vector as the format defines it,
/// and the number of bytes that belong to it.
fn length_prefix_of(s: &[u8]) -> (Option<usize>, usize) {
    if s.is_empty() {
        return (None, 0);
    }
    let le = |bytes: &[u8]| bytes.iter().rev().fold(0u64, |x, b| x * 256 + *b as u64);
    match s[0] % 4 {
        0 => (Some((s[0] / 4) as usize), 1),
        1 if s.len() < 2 => (None, 1),
        1 => {
            let x = le(&s[..2]) / 4;
            (if x > 0x3f { Some(x as usize) } else { None }, 2)
        }
        2 if s.len() < 4 => (None, 1),
        2 => {
            let x = le(&s[..4]) / 4;
            (if x > 0x3fff { Some(x as usize) } else { None }, 4)
        }
        _ if s[0] / 4 != 0 || s.len() < 5 => (None, 1),
        _ => {
            let x = le(&s[1..5]);
            (if x > 0x3fff_ffff { Some(x as usize) } else { None }, 5)
        }
    }
}

/// What reading a compact integer off `s` gives as the format defines it:
/// the little-endian bytes of the value or the failure, and the number of
/// bytes read.
fn compact_of_bytes(bits: usize, s: &[u8]) -> (Result<Vec<u8>, ScaleError>, usize) {
    let fits = |le: &[u8]| {
        let top = le.iter().rposition(|b| *b != 0);
        match top {
            None => true,
            Some(i) => 8 * i + (8 - le[i].leading_zeros() as usize) <= bits,
        }
    };
    let greater = |le: &[u8], floor: &[u8]| {
        let mut a = le.to_vec();
        let mut b = floor.to_vec();
        let n = a.len().max(b.len());
        a.resize(n, 0);
        b.resize(n, 0);
        a.reverse();
        b.reverse();
        a > b
    };
    let fitted = |le: Vec<u8>| if fits(&le) { Ok(le) } else { Err(ScaleError::OutOfRange) };
    let shifted = |word: &[u8]| {
        let mut x = word.iter().rev().fold(0u64, |x, b| x * 256 + *b as u64) / 4;
        let mut le = vec![];
        for _ in 0..word.len() {
            le.push(x as u8);
            x /= 256;
        }
        le
    };
    if s.is_empty() {
        return (Err(ScaleError::StreamExhausted), 0);
    }
    match s[0] % 4 {
        0 => (fitted(vec![s[0] / 4]), 1),
        1 if s.len() < 2 => (Err(ScaleError::StreamExhausted), 1),
        1 => {
            let x = shifted(&s[..2]);
            let r = if greater(&x, &[0x3f]) { fitted(x) } else { Err(ScaleError::OutOfRange) };
            (r, 2)
        }
        2 if s.len() < 4 => (Err(ScaleError::StreamExhausted), 1),
        2 => {
            let x = shifted(&s[..4]);
            let in_range = greater(&x, &[0xff, 0x3f]);
            let r = if in_range { fitted(x) } else { Err(ScaleError::OutOfRange) };
            (r, 4)
        }
        _ => {
            let extra = (s[0] / 4) as usize + 4;
            if extra == 4 || extra == 8 || extra == 16 {
                if s.len() - 1 < extra {
                    return (Err(ScaleError::StreamExhausted), 1);
                }
                let x = s[1..1 + extra].to_vec();
                let mut floor = vec![0xffu8; extra - 1];
                if extra == 4 {
                    floor.push(0x3f);
                }
                let r = if greater(&x, &floor) { fitted(x) } else { Err(ScaleError::OutOfRange) };
                (r, 1 + extra)
            } else {
                if s.len() - 1 < extra {
                    return (Err(ScaleError::StreamExhausted), s.len());
                }
                let x = s[1..1 + extra].to_vec();
                let floor = vec![0xffu8; extra - 1];
                let r = if !fits(&x) {
                    Err(ScaleError::TooLarge)
                } else if greater(&x, &floor) {
                    Ok(x)
                } else {
                    Err(ScaleError::OutOfRange)
                };
                (r, 1 + extra)
            }
        }
    }
}

/// Byte strings that begin with every first byte, cut at every kind of
/// length, with and without zero bytes at the end of the value.
fn compact_inputs() -> Vec<Vec<u8>> {
    let mut rng = Rng(0xc0de_c0de_1234_5678);
    let mut inputs = vec![vec![]];
    for first in 0..=255u8 {
        let tail = compact_tail(first);
        for round in 0..16 {
            let len = match round {
                0 => 0,
                1 => tail.saturating_sub(1),
                2 => tail + 2,
                _ => tail,
            };
            let mut s = vec![first];
            for _ in 0..len {
                s.push(rng.next() as u8);
            }
            if round >= 4 {
                let zeros = (rng.next() as usize) % (len + 1);
                let n = s.len();
                s[n - zeros..].iter_mut().for_each(|b| *b = 0);
            }
            if round >= 10 && len > 0 {
                let keep = 1 + (rng.next() as usize) % len;
                s[keep..].iter_mut().for_each(|b| *b = 0);
                s[keep] |= (rng.next() % 2) as u8;
            }
            inputs.push(s);
        }
    }
    inputs
}

fn compact_agrees_at<const BITS: usize, const LIMBS: usize>() {
    for s in compact_inputs() {
        let (value, read) = compact_of_bytes(BITS, &s);
        let expected = value.map(|le| Uint::<BITS, LIMBS>::try_from_le_slice(&le).unwrap());
        assert_eq!(decode_compact::<BITS, LIMBS>(&s), (expected, read));
    }
}

#[test]
fn compact_decode_agrees_with_the_format_on_every_first_byte() {
    compact_agrees_at::<0, 0>();
    compact_agrees_at::<5, 1>();
    compact_agrees_at::<8, 1>();
    compact_agrees_at::<30, 1>();
    compact_agrees_at::<64, 1>();
    compact_agrees_at::<120, 2>();
    compact_agrees_at::<256, 4>();
    compact_agrees_at::<535, 9>();
}

#[test]
fn vector_codec_agrees_with_the_format_on_every_first_byte() {
    let mut rng = Rng(0xfeed_f00d_dead_beef);
    for first in 0..=255u8 {
        for round in 0..12 {
            let mut s = vec![first];
            let len = match round {
                0 => 0,
                1 => 1,
                2 => 3,
                3 => 4,
                _ => (rng.next() % 90) as usize,
            };
            for i in 0..len {
                let b = rng.next() as u8;
                s.push(if i < 4 && round % 2 == 0 { b % 2 } else { b });
            }
            let (length, read) = length_prefix_of(&s);
            let (expected, read) = match length {
                Some(n) if s.len() - read >= n => (Some(s[read..read + n].to_vec()), read + n),
                _ => (None, read),
            };
            let mut input = &s[..];
            let decoded = Vec::<u8>::decode(&mut input).ok();
            assert_eq!((decoded, s.len() - input.len()), (expected.clone(), read));
            let mut input = &s[..];
            let fixed = Uint::<72, 2>::decode_fixed(&mut input);
            let value = match expected {
                None => Err(ScaleError::ByteVector),
                Some(le) => Uint::<72, 2>::try_from_le_slice(&le).ok_or(ScaleError::TooLarge),
            };
            assert_eq!((fixed, s.len() - input.len()), (value, read));
        }
    }
}

#[test]
fn compact_tail_is_taken_by_bytes_behind_a_general_count() {
    for prefix in 0..=255u8 {
        let count = prefix as usize / 4 + 4;
        let by_bytes = prefix % 4 == 3 && count != 4 && count != 8 && count != 16;
        assert_eq!(compact_tail_by_bytes(prefix), by_bytes);
        let tail = compact_tail(prefix);
        if tail > 0 {
            let short = vec![prefix; tail];
            let left = if by_bytes { tail } else { 1 };
            assert_eq!(
                decode_compact::<256, 4>(&short),
                (Err(ScaleError::StreamExhausted), left)
            );
        }
    }
}

#[test]
fn byte_vector_of_any_length_is_read() {
    assert_eq!(U16::from_byte_vector(&[]), Ok(U16::try_from_u128(0).unwrap()));
    assert_eq!(U16::from_byte_vector(&[0x02, 0x01]), Ok(U16::try_from_u128(0x0102).unwrap()));
    assert_eq!(U16::from_byte_vector(&[0x02, 0x01, 0, 0]), Ok(U16::try_from_u128(0x0102).unwrap()));
    assert_eq!(U16::from_byte_vector(&[0x02, 0x01, 0x01]), Err(ScaleError::TooLarge));
    assert_eq!(Uint::<12, 1>::from_byte_vector(&[0x00, 0x10]), Err(ScaleError::TooLarge));
}

#[test]
fn compact_decode_refuses_every_value_that_a_shorter_mode_holds() {
    for x in 0..=0x3fffu16 {
        let bytes = ((x << 2) | 0b01).to_le_bytes();
        let expected = if x <= 0x3f {
            Err(ScaleError::OutOfRange)
        } else {
            Ok(U64::try_from_u128(x as u128).unwrap())
        };
        assert_eq!(decode_compact::<64, 1>(&bytes), (expected, 2));
    }
    for x in [0u32, 1, 0x3f, 0x40, 0x3ffe, 0x3fff, 0x4000, 0x3fff_ffff] {
        let bytes = ((x << 2) | 0b10).to_le_bytes();
        let expected = if x <= 0x3fff {
            Err(ScaleError::OutOfRange)
        } else {
            Ok(U64::try_from_u128(x as u128).unwrap())
        };
        assert_eq!(decode_compact::<64, 1>(&bytes), (expected, 4));
    }
    for count in 4..=8usize {
        for value_bytes in 0..=count {
            let mut bytes = vec![(((count - 4) << 2) | 0b11) as u8];
            for i in 0..count {
                bytes.push(if i < value_bytes { 0x5a } else { 0 });
            }
            let minimal = value_bytes == count;
            let (read, n) = decode_compact::<64, 1>(&bytes);
            assert_eq!(n, 1 + count);
            if minimal {
                assert_eq!(compact(&read.unwrap()), bytes);
            } else {
                assert_eq!(read, Err(ScaleError::OutOfRange));
            }
        }
    }
}
