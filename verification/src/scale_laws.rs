//! What holds of the SCALE codec: reading gives back what was written, an
//! encoding is read at no width as another number, and the compact form is
//! the short one.
use crate::numeral::{
    bit_length, byte_length, bytes_for, le_bytes, le_minimal, le_value, lemma_bit_length_le,
    lemma_byte_length_bounds, lemma_byte_length_le, lemma_byte_length_of_bits,
    lemma_le_bytes_len, lemma_le_bytes_unique, lemma_le_bytes_value, lemma_le_value_bound,
    lemma_le_value_concat, lemma_minimal, lemma_pow2_monotonic,
};
use crate::scale::{
    compact_decoding, compact_encoding, compact_tail_by_bytes_spec, compact_tail_len,
    fixed_decoding,
    fixed_encoding, length_prefix, ScaleError, COMPACT_BITS_LIMIT,
};
use vstd::arithmetic::power2::{lemma2_to64, lemma2_to64_rest, lemma_pow2_adds, pow2};
use vstd::prelude::*;

verus! {

/// The first byte of a word with the mode in its two low bits tells the mode.
proof fn lemma_mode_of_word(w: nat, n: nat)
    requires
        n >= 1,
    ensures
        le_bytes(w, n)[0] % 4 == w % 4,
        le_bytes(w, n).len() == n,
{
    lemma_le_bytes_len(w, n);
    lemma_le_bytes_len(w / 256, (n - 1) as nat);
}

/// The first byte of a byte string tells the two low bits of its value.
proof fn lemma_mode_of_value(s: Seq<u8>)
    requires
        s.len() >= 1,
    ensures
        le_value(s) % 4 == s[0] % 4,
{
}

proof fn lemma_pow2_values()
    ensures
        pow2(6) == 0x40,
        pow2(14) == 0x4000,
        pow2(16) == 0x1_0000,
        pow2(30) == 0x4000_0000,
        pow2(32) == 0x1_0000_0000,
        pow2(56) == 0x0100_0000_0000_0000,
        pow2(120) == 0x0100_0000_0000_0000_0000_0000_0000_0000,
{
    lemma2_to64();
    lemma2_to64_rest();
    lemma_pow2_adds(60, 60);
}

/// The length of the compact encoding: 1, 2 or 4 bytes for up to 6, 14 or
/// 30 binary digits, and one byte more than the integer has above that.
pub proof fn lemma_compact_encoding_len(v: nat)
    ensures
        compact_encoding(v).len() == if bit_length(v) <= 6 {
            1
        } else if bit_length(v) <= 14 {
            2
        } else if bit_length(v) <= 30 {
            4
        } else {
            1 + byte_length(v)
        },
        bit_length(v) > 30 ==> byte_length(v) >= 4,
{
    lemma_le_bytes_len(4 * v + 1, 2);
    lemma_le_bytes_len(4 * v + 2, 4);
    lemma_minimal(v);
    lemma_byte_length_of_bits(v);
}

/// Reading back a compact encoding gives the integer again and reads off
/// exactly the bytes written, whatever follows them.
pub proof fn lemma_compact_decoding_of_encoding(bits: nat, v: nat, rest: Seq<u8>)
    requires
        bits < COMPACT_BITS_LIMIT,
        v < pow2(bits),
    ensures
        compact_decoding(bits, compact_encoding(v) + rest) == (
            Ok::<nat, ScaleError>(v),
            compact_encoding(v).len(),
        ),
{
    let e = compact_encoding(v);
    let s = e + rest;
    lemma_pow2_values();
    lemma_compact_encoding_len(v);
    lemma_bit_length_le(v, 6);
    lemma_bit_length_le(v, 14);
    lemma_bit_length_le(v, 30);
    if bit_length(v) <= 6 {
        assert(s[0] == (4 * v) as u8);
    } else if bit_length(v) <= 14 {
        lemma_mode_of_word(4 * v + 1, 2);
        lemma_le_bytes_value(4 * v + 1, 2);
        assert(s[0] == e[0]);
        assert(s.take(2) =~= e);
    } else if bit_length(v) <= 30 {
        lemma_mode_of_word(4 * v + 2, 4);
        lemma_le_bytes_value(4 * v + 2, 4);
        assert(s[0] == e[0]);
        assert(s.take(4) =~= e);
    } else {
        let n = byte_length(v);
        lemma_minimal(v);
        lemma_pow2_monotonic(bits, 536);
        lemma_byte_length_le(v, 67);
        lemma_byte_length_bounds(v);
        assert(s[0] == (3 + 4 * (n - 4)) as u8);
        assert(s.subrange(1, 1 + n as int) =~= le_minimal(v));
    }
}

/// Re-encoding an integer that was read gives back the bytes read: the
/// input is the compact encoding of the integer, and then what is left.
pub proof fn lemma_compact_encoding_of_decoding(bits: nat, s: Seq<u8>)
    requires
        bits < COMPACT_BITS_LIMIT,
        compact_decoding(bits, s).0 is Ok,
    ensures
        ({
            let v = compact_decoding(bits, s).0->Ok_0;
            let read = compact_decoding(bits, s).1;
            &&& v < pow2(bits)
            &&& read <= s.len()
            &&& compact_encoding(v) == s.take(read as int)
            &&& s == compact_encoding(v) + s.skip(read as int)
        }),
{
    let v = compact_decoding(bits, s).0->Ok_0;
    let read = compact_decoding(bits, s).1;
    let e = compact_encoding(v);
    lemma_pow2_values();
    lemma_compact_encoding_len(v);
    lemma_bit_length_le(v, 6);
    lemma_bit_length_le(v, 14);
    lemma_bit_length_le(v, 30);
    if s[0] % 4 == 0 {
        assert(e =~= s.take(1));
    } else if s[0] % 4 == 1 {
        let w = le_value(s.take(2));
        lemma_mode_of_value(s.take(2));
        lemma_le_bytes_unique(s.take(2));
        assert(w == 4 * v + 1);
    } else if s[0] % 4 == 2 {
        let w = le_value(s.take(4));
        lemma_mode_of_value(s.take(4));
        lemma_le_bytes_unique(s.take(4));
        assert(w == 4 * v + 2);
    } else {
        let extra = (s[0] / 4 + 4) as nat;
        let payload = s.subrange(1, 1 + extra as int);
        lemma_le_value_bound(payload);
        lemma_byte_length_le(v, extra);
        lemma_byte_length_le(v, (extra - 1) as nat);
        lemma_byte_length_le(v, 3);
        lemma2_to64();
        if extra >= 5 {
            lemma_pow2_monotonic(30, (8 * (extra - 1)) as nat);
        }
        lemma_le_bytes_unique(payload);
        assert(byte_length(v) == extra);
        assert(bit_length(v) > 30);
        assert(s[0] == (3 + 4 * (extra - 4)) as u8);
        assert(e =~= s.take(read as int));
    }
    assert(s =~= s.take(read as int) + s.skip(read as int));
}

/// An integer of the width is read exactly from the bytes that begin with
/// its compact encoding: from no encoding in a longer mode, and from no
/// byte count with zero bytes at the end of the value.
pub proof fn lemma_compact_decoding_exact(bits: nat, s: Seq<u8>, v: nat)
    requires
        bits < COMPACT_BITS_LIMIT,
    ensures
        compact_decoding(bits, s).0 == Ok::<nat, ScaleError>(v) <==> {
            &&& v < pow2(bits)
            &&& compact_encoding(v).len() <= s.len()
            &&& s.take(compact_encoding(v).len() as int) == compact_encoding(v)
        },
{
    let e = compact_encoding(v);
    if compact_decoding(bits, s).0 == Ok::<nat, ScaleError>(v) {
        lemma_compact_encoding_of_decoding(bits, s);
    }
    if v < pow2(bits) && e.len() <= s.len() && s.take(e.len() as int) == e {
        lemma_compact_decoding_of_encoding(bits, v, s.skip(e.len() as int));
        assert(s =~= e + s.skip(e.len() as int));
    }
}

/// The first byte of a compact encoding tells its length: an input that
/// holds as many bytes is read as those bytes alone are, to their end, and
/// a shorter one fails with `StreamExhausted`, left empty where the bytes
/// are taken one by one and behind the first byte where they are not.
pub proof fn lemma_compact_frame(bits: nat, s: Seq<u8>)
    requires
        s.len() > 0,
    ensures
        ({
            let n = 1 + compact_tail_len(s[0]);
            &&& s.len() >= n ==> {
                &&& compact_decoding(bits, s) == compact_decoding(bits, s.take(n as int))
                &&& compact_decoding(bits, s).1 == n
                &&& compact_decoding(bits, s).0 != Err::<nat, ScaleError>(
                    ScaleError::StreamExhausted,
                )
            }
            &&& s.len() < n ==> compact_decoding(bits, s) == (
                Err::<nat, ScaleError>(ScaleError::StreamExhausted),
                if compact_tail_by_bytes_spec(s[0]) {
                    s.len()
                } else {
                    1
                },
            )
        }),
{
    let n = 1 + compact_tail_len(s[0]);
    if s.len() >= n {
        let t = s.take(n as int);
        assert(t[0] == s[0]);
        if s[0] % 4 == 1 {
            assert(t.take(2) =~= s.take(2));
        } else if s[0] % 4 == 2 {
            assert(t.take(4) =~= s.take(4));
        } else if s[0] % 4 == 3 {
            assert(t.subrange(1, n as int) =~= s.subrange(1, n as int));
        }
    }
}

/// An encoding in a longer mode than its value needs is refused with
/// `OutOfRange`: two bytes of mode 1 that hold at most 63, which one byte of
/// mode 0 holds, and four bytes of mode 2 that hold at most 16383. Behind a
/// byte count, a value that ends in a zero byte is refused, with
/// `OutOfRange` where the width holds it.
pub proof fn lemma_mode_boundary(bits: nat, s: Seq<u8>)
    ensures
        s.len() >= 2 && s[0] % 4 == 1 && le_value(s.take(2)) / 4 <= 0x3f ==> compact_decoding(
            bits,
            s,
        ) == (Err::<nat, ScaleError>(ScaleError::OutOfRange), 2nat),
        s.len() >= 4 && s[0] % 4 == 2 && le_value(s.take(4)) / 4 <= 0x3fff ==> compact_decoding(
            bits,
            s,
        ) == (Err::<nat, ScaleError>(ScaleError::OutOfRange), 4nat),
        s.len() >= 1 && s[0] % 4 == 3 ==> {
            let extra = compact_tail_len(s[0]);
            let x = le_value(s.subrange(1, 1 + extra as int));
            s.len() >= 1 + extra && s[extra as int] == 0 ==> {
                &&& compact_decoding(bits, s).0 is Err
                &&& compact_decoding(bits, s).1 == 1 + extra
                &&& x < pow2(bits) ==> compact_decoding(bits, s).0 == Err::<nat, ScaleError>(
                    ScaleError::OutOfRange,
                )
            }
        },
{
    if s.len() >= 1 && s[0] % 4 == 3 {
        let extra = compact_tail_len(s[0]);
        if s.len() >= 1 + extra && s[extra as int] == 0 {
            let payload = s.subrange(1, 1 + extra as int);
            let low = payload.drop_last();
            assert(payload =~= low + seq![0u8]);
            lemma_le_value_concat(low, seq![0u8]);
            assert(seq![0u8].drop_first() =~= Seq::<u8>::empty());
            assert(le_value(seq![0u8]) == 0) by {
                reveal_with_fuel(le_value, 2);
            }
            assert(pow2(8 * low.len()) * 0 == 0);
            lemma_le_value_bound(low);
            lemma_pow2_values();
            lemma2_to64();
        }
    }
}

/// A compact encoding is read at no width as another number: where a width
/// reads `v`, a narrower one reads `v` too if it holds `v`, and else fails
/// with `OutOfRange` or `TooLarge`, behind the same bytes.
pub proof fn lemma_compact_width_enforced(narrow: nat, wide: nat, s: Seq<u8>)
    requires
        narrow <= wide,
        compact_decoding(wide, s).0 is Ok,
    ensures
        ({
            let v = compact_decoding(wide, s).0->Ok_0;
            let r = compact_decoding(narrow, s);
            &&& v < pow2(wide)
            &&& r.1 == compact_decoding(wide, s).1
            &&& v < pow2(narrow) ==> r.0 == Ok::<nat, ScaleError>(v)
            &&& v >= pow2(narrow) ==> {
                ||| r.0 == Err::<nat, ScaleError>(ScaleError::OutOfRange)
                ||| r.0 == Err::<nat, ScaleError>(ScaleError::TooLarge)
            }
        }),
{
}

/// The length in front of a byte vector is read back as it was written.
proof fn lemma_length_prefix_of_encoding(n: nat, rest: Seq<u8>)
    requires
        n <= u32::MAX,
    ensures
        length_prefix(compact_encoding(n) + rest) == (Some(n), compact_encoding(n).len()),
{
    let e = compact_encoding(n);
    let s = e + rest;
    lemma_pow2_values();
    lemma_compact_encoding_len(n);
    lemma_bit_length_le(n, 6);
    lemma_bit_length_le(n, 14);
    lemma_bit_length_le(n, 30);
    if bit_length(n) <= 6 {
        assert(s[0] == (4 * n) as u8);
    } else if bit_length(n) <= 14 {
        lemma_mode_of_word(4 * n + 1, 2);
        lemma_le_bytes_value(4 * n + 1, 2);
        assert(s[0] == e[0]);
        assert(s.take(2) =~= e);
    } else if bit_length(n) <= 30 {
        lemma_mode_of_word(4 * n + 2, 4);
        lemma_le_bytes_value(4 * n + 2, 4);
        assert(s[0] == e[0]);
        assert(s.take(4) =~= e);
    } else {
        lemma_minimal(n);
        lemma_byte_length_le(n, 4);
        assert(byte_length(n) == 4);
        assert(s[0] == 3u8);
        assert(s.subrange(1, 5) =~= le_minimal(n));
    }
}

/// Reading back a fixed encoding gives the integer again and reads off
/// exactly the bytes written, whatever follows them.
pub proof fn lemma_fixed_decoding_of_encoding(bits: nat, v: nat, rest: Seq<u8>)
    requires
        bytes_for(bits) <= u32::MAX,
        v < pow2(bits),
    ensures
        fixed_decoding(bits, fixed_encoding(bits, v) + rest) == (
            Ok::<nat, ScaleError>(v),
            fixed_encoding(bits, v).len(),
        ),
{
    let n = bytes_for(bits);
    let prefix = compact_encoding(n);
    let bytes = le_bytes(v, n);
    let s = fixed_encoding(bits, v) + rest;
    assert(s =~= prefix + (bytes + rest));
    lemma_length_prefix_of_encoding(n, bytes + rest);
    lemma_pow2_monotonic(bits, 8 * n);
    lemma_le_bytes_value(v, n);
    assert(s.subrange(prefix.len() as int, prefix.len() as int + n) =~= bytes);
}

/// A fixed encoding is read at no width as another number: where a width
/// reads `v`, a narrower one reads `v` too if it holds `v`, and else fails
/// with `TooLarge`, behind the same bytes.
pub proof fn lemma_fixed_width_enforced(narrow: nat, wide: nat, s: Seq<u8>)
    requires
        narrow <= wide,
        fixed_decoding(wide, s).0 is Ok,
    ensures
        ({
            let v = fixed_decoding(wide, s).0->Ok_0;
            let r = fixed_decoding(narrow, s);
            &&& v < pow2(wide)
            &&& r.1 == fixed_decoding(wide, s).1
            &&& v < pow2(narrow) ==> r.0 == Ok::<nat, ScaleError>(v)
            &&& v >= pow2(narrow) ==> r.0 == Err::<nat, ScaleError>(ScaleError::TooLarge)
        }),
{
}

/// The size hint of the fixed form, four bytes more than the integer has, is
/// an upper bound on the length of the fixed encoding at every width of
/// fewer than `2^30` bytes: the length in front takes at most four bytes
/// then.
pub proof fn lemma_fixed_encoding_len(bits: nat, v: nat)
    requires
        bytes_for(bits) < 0x4000_0000,
    ensures
        bytes_for(bits) < fixed_encoding(bits, v).len() <= 4 + bytes_for(bits),
{
    lemma_pow2_values();
    lemma_compact_encoding_len(bytes_for(bits));
    lemma_bit_length_le(bytes_for(bits), 30);
    lemma_le_bytes_len(v, bytes_for(bits));
}

/// An integer of up to 30 binary digits has a compact encoding shorter than
/// its fixed encoding exactly at the widths that hold more whole bytes than
/// the compact encoding has: any width but zero for up to 6 digits, above 8
/// bits for up to 14, above 24 bits for up to 30.
pub proof fn lemma_compact_shorter_than_fixed(bits: nat, v: nat)
    requires
        v < pow2(bits),
        bit_length(v) <= 30,
    ensures
        compact_encoding(v).len() < fixed_encoding(bits, v).len() <==> {
            &&& bits > 0
            &&& bit_length(v) > 6 ==> bits > 8
            &&& bit_length(v) > 14 ==> bits > 24
        },
{
    lemma_compact_encoding_len(v);
    lemma_compact_encoding_len(bytes_for(bits));
    lemma_le_bytes_len(v, bytes_for(bits));
    lemma_bit_length_le(v, bits);
    lemma_bit_length_le(bytes_for(bits), 6);
    lemma_pow2_values();
}

} // verus!
