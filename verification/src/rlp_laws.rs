//! What holds of the RLP codec: reading gives back what was written, zero
//! bytes in front of a payload do not count, a string is read at no width as
//! another number, and a list is never read.
use crate::numeral::{
    be_minimal, be_value, byte_length, lemma_be_value_bound, lemma_be_value_concat,
    lemma_byte_length_le, lemma_minimal, lemma_pow2_monotonic, lemma_trimmed_is_minimal, trimmed,
    zeros,
};
use crate::rlp::{decoding, encoding, header_decoding, string_encoding, DecodeError};
use vstd::arithmetic::power2::{lemma2_to64, pow2};
use vstd::prelude::*;

verus! {

/// Reading back what `encode` wrote gives the integer again and reads off
/// exactly the bytes written, whatever follows them.
pub proof fn lemma_decode_of_encoding(bits: usize, v: nat, rest: Seq<u8>)
    requires
        v < pow2(bits as nat),
    ensures
        decoding(bits as nat, encoding(v) + rest) == (
            Ok::<nat, DecodeError>(v),
            encoding(v).len(),
        ),
{
    let p = be_minimal(v);
    let n = p.len();
    let e = encoding(v);
    let s = e + rest;
    lemma_minimal(v);
    lemma_pow2_monotonic(bits as nat, 8 * ((bits as nat + 7) / 8));
    lemma_byte_length_le(v, (bits as nat + 7) / 8);
    if n == 0 {
        assert(s.subrange(1, 1) =~= p);
    } else if n == 1 && p[0] <= 0x7f {
        assert(s.subrange(0, 1) =~= p);
    } else if n <= 55 {
        assert(s[0] == (0x80 + n) as u8);
        assert(s[1] == p[0]);
        assert(s.subrange(1, 1 + n as int) =~= p);
    } else {
        let l = be_minimal(n);
        lemma_minimal(n);
        lemma2_to64();
        lemma_byte_length_le(n, 8);
        assert(s[0] == (0xb7 + l.len()) as u8);
        assert(s[1] == l[0]);
        assert(s.subrange(1, 1 + l.len() as int) =~= l);
        assert(s.subrange(1 + l.len() as int, 1 + l.len() as int + n) =~= p);
    }
}

/// Zero bytes in front of a big-endian byte string change neither the
/// integer that it denotes nor, therefore, the encoding: the payload is
/// the string without its leading zero bytes.
pub proof fn lemma_leading_zeros_stripped(s: Seq<u8>, k: nat)
    ensures
        encoding(be_value(s)) == string_encoding(trimmed(s)),
        encoding(be_value(zeros(k) + s)) == encoding(be_value(s)),
{
    lemma_trimmed_is_minimal(s);
    lemma_be_value_concat(zeros(k), s);
    lemma_be_value_bound(zeros(k));
    lemma_trimmed_is_minimal(zeros(k));
    lemma_zeros_trimmed(k);
    assert(be_value(zeros(k)) == 0) by {
        lemma_minimal(be_value(zeros(k)));
        if be_value(zeros(k)) > 0 {
            assert(byte_length(be_value(zeros(k))) > 0);
        }
    }
    assert(0 * pow2(8 * s.len()) == 0);
}

proof fn lemma_zeros_trimmed(k: nat)
    ensures
        trimmed(zeros(k)).len() == 0,
    decreases k,
{
    if k > 0 {
        assert(zeros(k).drop_first() =~= zeros((k - 1) as nat));
        lemma_zeros_trimmed((k - 1) as nat);
    }
}

/// An RLP string is read at no width as another number: where a width
/// reads `v`, a narrower one reads `v` too if it holds `v`, and else fails
/// with `Overflow`, behind the same bytes.
pub proof fn lemma_width_enforced(narrow: nat, wide: nat, s: Seq<u8>)
    requires
        narrow <= wide,
        decoding(wide, s).0 is Ok,
    ensures
        ({
            let v = decoding(wide, s).0->Ok_0;
            let r = decoding(narrow, s);
            &&& v < pow2(wide)
            &&& r.1 == decoding(wide, s).1
            &&& v < pow2(narrow) ==> r.0 == Ok::<nat, DecodeError>(v)
            &&& v >= pow2(narrow) ==> r.0 == Err::<nat, DecodeError>(DecodeError::Overflow)
        }),
{
}

/// An input that begins with the header of a list is refused with
/// `UnexpectedList`, whatever the width: so is every input whose first byte
/// lies in `0xc0..=0xf7` and that holds the bytes which that byte announces.
pub proof fn lemma_list_rejected(bits: nat, s: Seq<u8>)
    ensures
        header_decoding(s).0 matches Ok((true, _)) ==> decoding(bits, s).0 == Err::<
            nat,
            DecodeError,
        >(DecodeError::UnexpectedList),
        s.len() > 0 && 0xc0 <= s[0] < 0xf8 && s.len() - 1 >= s[0] - 0xc0 ==> decoding(bits, s)
            == (Err::<nat, DecodeError>(DecodeError::UnexpectedList), 1nat),
{
}

} // verus!
