//! The SCALE codec: an unsigned integer in the fixed form, a length-prefixed
//! vector of its little-endian bytes, and in the compact form, one of four
//! layouts that the two low bits of the first byte select.
//!
//! The bytes of the primitive integers, the length prefix and the byte vector
//! are those of `parity_scale_codec`, which is called for them.
use crate::numeral::{
    bit_length, byte_length, bytes_for, le_bytes, le_minimal, le_value, lemma_bit_length_le,
    lemma_byte_length_le, lemma_byte_length_of_bits, lemma_le_bytes_len, lemma_minimal,
};
use crate::scale_laws::{
    lemma_compact_decoding_of_encoding, lemma_compact_encoding_of_decoding,
    lemma_fixed_decoding_of_encoding,
};
use crate::uint::{limbs_for, Uint};
use vstd::arithmetic::power2::{lemma2_to64, pow2};
use vstd::prelude::*;

verus! {

/// The compact form holds integers below `2^536`: the widths that it
/// serves are those below this limit.
pub const COMPACT_BITS_LIMIT: usize = 536;

/// The error of `parity_scale_codec`, which says in words what went wrong:
/// it is carried as it is, and nothing is read from it.
#[verifier::external_type_specification]
#[verifier::external_body]
pub struct ExCodecError(parity_scale_codec::Error);

/// Why a byte string is no SCALE encoding of an integer of the declared
/// width.
#[derive(Clone, Copy, Debug, PartialEq, Eq, Structural)]
pub enum ScaleError {
    /// A compact encoding in a mode that is not meant for its value, or of a
    /// value that the integer cannot hold.
    OutOfRange,
    /// The bytes denote a number of more bits than the integer has.
    TooLarge,
    /// The input ends before the encoding does.
    StreamExhausted,
    /// No byte vector stands at the front of the input: its length does not
    /// parse, or the input ends before the vector does.
    ByteVector,
}

/// An integer to be read in the compact form.
#[derive(Clone, Copy, Debug, PartialEq, Eq)]
pub struct CompactUint<const BITS: usize, const LIMBS: usize>(pub Uint<BITS, LIMBS>);

/// An integer to be written in the compact form.
#[derive(Clone, Copy, Debug)]
pub struct CompactRefUint<'a, const BITS: usize, const LIMBS: usize>(pub &'a Uint<BITS, LIMBS>);

/// One more byte in front of another input: the byte that was read to tell
/// the mode, put back for the integer that begins with it.
pub struct PrefixInput<'a, 'b> {
    /// The byte that comes first, while it is pending.
    pub prefix: Option<u8>,
    /// The input that the other bytes come from.
    pub input: &'a mut &'b [u8],
}

/// The compact encoding of `v`, by the number of its binary digits: up to 6
/// in one byte, up to 14 in two, up to 30 in four, each with the mode in the
/// two low bits; more in a byte that holds the mode and the byte count less
/// four, before the bytes themselves, the least significant first.
pub open spec fn compact_encoding(v: nat) -> Seq<u8> {
    if bit_length(v) <= 6 {
        seq![(4 * v) as u8]
    } else if bit_length(v) <= 14 {
        le_bytes(4 * v + 1, 2)
    } else if bit_length(v) <= 30 {
        le_bytes(4 * v + 2, 4)
    } else {
        seq![(3 + 4 * (byte_length(v) - 4)) as u8] + le_minimal(v)
    }
}

/// `x` as an integer of `bits` bits, where it is one.
pub open spec fn fitted(bits: nat, x: nat) -> Result<nat, ScaleError> {
    if x < pow2(bits) {
        Ok(x)
    } else {
        Err(ScaleError::OutOfRange)
    }
}

/// The largest number that a word of 4, 8 or 16 bytes behind a mode byte may
/// not denote: the word's largest value shifted right by 2, 8 and 8 bits.
pub open spec fn word_floor(extra: nat) -> nat {
    if extra == 4 {
        0x3fff_ffff
    } else if extra == 8 {
        0x00ff_ffff_ffff_ffff
    } else {
        0x00ff_ffff_ffff_ffff_ffff_ffff_ffff_ffff
    }
}

/// The number of bytes of a compact encoding behind its first byte.
pub open spec fn compact_tail_len(prefix: u8) -> nat {
    if prefix % 4 == 0 {
        0
    } else if prefix % 4 == 1 {
        1
    } else if prefix % 4 == 2 {
        3
    } else {
        (prefix / 4 + 4) as nat
    }
}

/// Whether the bytes behind the first byte are taken off the input one by
/// one: behind a byte count other than 4, 8 and 16. Else they are taken
/// together or not at all.
pub open spec fn compact_tail_by_bytes_spec(prefix: u8) -> bool {
    prefix % 4 == 3 && prefix / 4 != 0 && prefix / 4 != 4 && prefix / 4 != 12
}

/// What reading a compact integer of `bits` bits off `s` gives, and the
/// number of bytes read off the input by then. Each mode holds only the
/// values that no shorter mode holds: above 63 in two bytes, above 16383 in
/// four, and behind a byte count as many bytes as the value has, so that an
/// integer is read from its compact encoding and from no other bytes.
pub open spec fn compact_decoding(bits: nat, s: Seq<u8>) -> (Result<nat, ScaleError>, nat) {
    if s.len() == 0 {
        (Err(ScaleError::StreamExhausted), 0)
    } else if s[0] % 4 == 0 {
        (fitted(bits, (s[0] / 4) as nat), 1)
    } else if s[0] % 4 == 1 {
        if s.len() < 2 {
            (Err(ScaleError::StreamExhausted), 1)
        } else {
            let x = le_value(s.take(2)) / 4;
            (
                if 0x3f < x <= 0x3fff {
                    fitted(bits, x)
                } else {
                    Err(ScaleError::OutOfRange)
                },
                2,
            )
        }
    } else if s[0] % 4 == 2 {
        if s.len() < 4 {
            (Err(ScaleError::StreamExhausted), 1)
        } else {
            let x = le_value(s.take(4)) / 4;
            (
                if 0x3fff < x <= 0x3fff_ffff {
                    fitted(bits, x)
                } else {
                    Err(ScaleError::OutOfRange)
                },
                4,
            )
        }
    } else {
        let extra = (s[0] / 4 + 4) as nat;
        if extra == 4 || extra == 8 || extra == 16 {
            if s.len() - 1 < extra {
                (Err(ScaleError::StreamExhausted), 1)
            } else {
                let x = le_value(s.subrange(1, 1 + extra as int));
                (
                    if x > word_floor(extra) {
                        fitted(bits, x)
                    } else {
                        Err(ScaleError::OutOfRange)
                    },
                    1 + extra,
                )
            }
        } else {
            if s.len() - 1 < extra {
                (Err(ScaleError::StreamExhausted), s.len())
            } else {
                let x = le_value(s.subrange(1, 1 + extra as int));
                (
                    if x >= pow2(bits) {
                        Err(ScaleError::TooLarge)
                    } else if x >= pow2((8 * (extra - 1)) as nat) {
                        Ok(x)
                    } else {
                        Err(ScaleError::OutOfRange)
                    },
                    1 + extra,
                )
            }
        }
    }
}

/// The length at the front of an encoded vector, as `parity_scale_codec`
/// reads it, and the number of bytes read off the input by then: a compact
/// `u32` in its shortest form.
pub open spec fn length_prefix(s: Seq<u8>) -> (Option<nat>, nat) {
    if s.len() == 0 {
        (None, 0)
    } else if s[0] % 4 == 0 {
        (Some((s[0] / 4) as nat), 1)
    } else if s[0] % 4 == 1 {
        if s.len() < 2 {
            (None, 1)
        } else {
            let x = le_value(s.take(2)) / 4;
            (
                if x > 0x3f {
                    Some(x)
                } else {
                    None
                },
                2,
            )
        }
    } else if s[0] % 4 == 2 {
        if s.len() < 4 {
            (None, 1)
        } else {
            let x = le_value(s.take(4)) / 4;
            (
                if x > 0x3fff {
                    Some(x)
                } else {
                    None
                },
                4,
            )
        }
    } else if s[0] / 4 != 0 || s.len() < 5 {
        (None, 1)
    } else {
        let x = le_value(s.subrange(1, 5));
        (
            if x > 0x3fff_ffff {
                Some(x)
            } else {
                None
            },
            5,
        )
    }
}

/// The byte vector at the front of `s`, as `parity_scale_codec` reads it,
/// and the number of bytes read off the input by then: the length, then as
/// many bytes.
pub open spec fn byte_vec_decoding(s: Seq<u8>) -> (Option<Seq<u8>>, nat) {
    match length_prefix(s) {
        (None, read) => (None, read),
        (Some(n), read) => if s.len() - read < n {
            (None, read)
        } else {
            (Some(s.subrange(read as int, read as int + n)), read + n)
        },
    }
}

/// The fixed encoding of `v` at a width of `bits` bits: the vector of its
/// `bytes_for(bits)` little-endian bytes.
pub open spec fn fixed_encoding(bits: nat, v: nat) -> Seq<u8> {
    compact_encoding(bytes_for(bits)) + le_bytes(v, bytes_for(bits))
}

/// What reading a fixed integer of `bits` bits off `s` gives, and the number
/// of bytes read off the input by then.
pub open spec fn fixed_decoding(bits: nat, s: Seq<u8>) -> (Result<nat, ScaleError>, nat) {
    match byte_vec_decoding(s) {
        (None, read) => (Err(ScaleError::ByteVector), read),
        (Some(b), read) => (
            if le_value(b) < pow2(bits) {
                Ok(le_value(b))
            } else {
                Err(ScaleError::TooLarge)
            },
            read,
        ),
    }
}

/// `parity_scale_codec::Input::read_byte` of `&[u8]`. Trusted: it takes the
/// first byte off the input, and fails on an empty input, which it leaves.
#[verifier::external_body]
fn slice_read_byte(input: &mut &[u8]) -> (r: Result<u8, parity_scale_codec::Error>)
    ensures
        old(input)@.len() > 0 ==> r is Ok && r->Ok_0 == old(input)@[0]
            && final(input)@ == old(input)@.skip(1),
        old(input)@.len() == 0 ==> r is Err && final(input)@ == old(input)@,
{
    parity_scale_codec::Input::read_byte(input)
}

/// `parity_scale_codec::Input::read` of `&[u8]`. Trusted: it fills `into`
/// from the front of the input and takes those bytes off; on an input
/// shorter than `into` it fails and changes neither.
#[verifier::external_body]
fn slice_read(input: &mut &[u8], into: &mut [u8]) -> (r: Result<(), parity_scale_codec::Error>)
    ensures
        old(into)@.len() <= old(input)@.len() ==> r is Ok && final(into)@ == old(input)@.take(
            old(into)@.len() as int,
        ) && final(input)@ == old(input)@.skip(old(into)@.len() as int),
        old(into)@.len() > old(input)@.len() ==> r is Err && final(into)@ == old(into)@
            && final(input)@ == old(input)@,
{
    parity_scale_codec::Input::read(input, into)
}

/// `parity_scale_codec::Input::remaining_len` of `&[u8]`. Trusted: it gives
/// the length of the input, which it leaves.
#[verifier::external_body]
fn slice_remaining_len(input: &mut &[u8]) -> (r: Result<Option<usize>, parity_scale_codec::Error>)
    ensures
        r is Ok && r->Ok_0 == Some(old(input)@.len() as usize),
        final(input)@ == old(input)@,
{
    parity_scale_codec::Input::remaining_len(input)
}

/// `<u16 as parity_scale_codec::Decode>::decode` from `&[u8]`. Trusted: it
/// takes two bytes off the input as a little-endian integer; on a shorter
/// input it fails and leaves it.
#[verifier::external_body]
fn decode_u16(input: &mut &[u8]) -> (r: Result<u16, parity_scale_codec::Error>)
    ensures
        old(input)@.len() >= 2 ==> r is Ok && r->Ok_0 == le_value(old(input)@.take(2))
            && final(input)@ == old(input)@.skip(2),
        old(input)@.len() < 2 ==> r is Err && final(input)@ == old(input)@,
{
    <u16 as parity_scale_codec::Decode>::decode(input)
}

/// `<u32 as parity_scale_codec::Decode>::decode` from `&[u8]`. Trusted: it
/// takes four bytes off the input as a little-endian integer; on a shorter
/// input it fails and leaves it.
#[verifier::external_body]
fn decode_u32(input: &mut &[u8]) -> (r: Result<u32, parity_scale_codec::Error>)
    ensures
        old(input)@.len() >= 4 ==> r is Ok && r->Ok_0 == le_value(old(input)@.take(4))
            && final(input)@ == old(input)@.skip(4),
        old(input)@.len() < 4 ==> r is Err && final(input)@ == old(input)@,
{
    <u32 as parity_scale_codec::Decode>::decode(input)
}

/// `<u64 as parity_scale_codec::Decode>::decode` from `&[u8]`. Trusted: it
/// takes eight bytes off the input as a little-endian integer; on a shorter
/// input it fails and leaves it.
#[verifier::external_body]
fn decode_u64(input: &mut &[u8]) -> (r: Result<u64, parity_scale_codec::Error>)
    ensures
        old(input)@.len() >= 8 ==> r is Ok && r->Ok_0 == le_value(old(input)@.take(8))
            && final(input)@ == old(input)@.skip(8),
        old(input)@.len() < 8 ==> r is Err && final(input)@ == old(input)@,
{
    <u64 as parity_scale_codec::Decode>::decode(input)
}

/// `<u128 as parity_scale_codec::Decode>::decode` from `&[u8]`. Trusted: it
/// takes sixteen bytes off the input as a little-endian integer; on a
/// shorter input it fails and leaves it.
#[verifier::external_body]
fn decode_u128(input: &mut &[u8]) -> (r: Result<u128, parity_scale_codec::Error>)
    ensures
        old(input)@.len() >= 16 ==> r is Ok && r->Ok_0 == le_value(old(input)@.take(16))
            && final(input)@ == old(input)@.skip(16),
        old(input)@.len() < 16 ==> r is Err && final(input)@ == old(input)@,
{
    <u128 as parity_scale_codec::Decode>::decode(input)
}

/// `<Vec<u8> as parity_scale_codec::Decode>::decode` from `&[u8]`. Trusted:
/// it reads a length prefix and as many bytes, as `byte_vec_decoding` says,
/// and leaves the input behind what it read, also where it fails.
#[verifier::external_body]
fn decode_byte_vec(input: &mut &[u8]) -> (r: Result<Vec<u8>, parity_scale_codec::Error>)
    ensures
        match byte_vec_decoding(old(input)@).0 {
            Some(b) => r is Ok && r->Ok_0@ == b,
            None => r is Err,
        },
        final(input)@ == old(input)@.skip(byte_vec_decoding(old(input)@).1 as int),
{
    <Vec<u8> as parity_scale_codec::Decode>::decode(input)
}

/// `<[u8] as parity_scale_codec::Encode>::encode`. Trusted: it gives the
/// compact encoding of the length, then the bytes. It panics on more bytes
/// than a `u32` counts.
#[verifier::external_body]
fn encode_bytes(bytes: &[u8]) -> (r: Vec<u8>)
    requires
        bytes@.len() <= u32::MAX,
    ensures
        r@ == compact_encoding(bytes@.len()) + bytes@,
{
    parity_scale_codec::Encode::encode(bytes)
}

/// `<u16 as parity_scale_codec::Encode>::encode_to` a `Vec<u8>`. Trusted: it
/// appends the two bytes of `x`, the less significant first.
#[verifier::external_body]
fn encode_u16_to(x: u16, dest: &mut Vec<u8>)
    ensures
        final(dest)@ == old(dest)@ + le_bytes(x as nat, 2),
{
    parity_scale_codec::Encode::encode_to(&x, dest)
}

/// `<u32 as parity_scale_codec::Encode>::encode_to` a `Vec<u8>`. Trusted: it
/// appends the four bytes of `x`, the least significant first.
#[verifier::external_body]
fn encode_u32_to(x: u32, dest: &mut Vec<u8>)
    ensures
        final(dest)@ == old(dest)@ + le_bytes(x as nat, 4),
{
    parity_scale_codec::Encode::encode_to(&x, dest)
}

/// `parity_scale_codec::Output::push_byte` of `Vec<u8>`. Trusted: it
/// appends the byte.
#[verifier::external_body]
fn push_byte(dest: &mut Vec<u8>, byte: u8)
    ensures
        final(dest)@ == old(dest)@.push(byte),
{
    parity_scale_codec::Output::push_byte(dest, byte)
}

/// `parity_scale_codec::Output::write` of `Vec<u8>`. Trusted: it appends
/// the bytes in their order.
#[verifier::external_body]
fn write(dest: &mut Vec<u8>, bytes: &[u8])
    ensures
        final(dest)@ == old(dest)@ + bytes@,
{
    parity_scale_codec::Output::write(dest, bytes)
}

/// The compact form serves a width of `BITS` bits: an integer of the width
/// has at most 67 bytes, the most that the mode byte can count. A width that
/// the form does not serve does not pass.
pub fn assert_compact_supported<const BITS: usize>()
    requires
        BITS < COMPACT_BITS_LIMIT,
    ensures
        bytes_for(BITS as nat) <= 67,
{
}

/// The number of bytes of a compact encoding behind its first byte: what a
/// reader that has the first byte has to fetch before it can read the
/// integer.
pub fn compact_tail(prefix: u8) -> (n: usize)
    ensures
        n == compact_tail_len(prefix),
{
    let mode = prefix % 4;
    if mode == 0 {
        0
    } else if mode == 1 {
        1
    } else if mode == 2 {
        3
    } else {
        proof {
            assert(prefix >> 2 == prefix / 4) by (bit_vector);
        }
        (prefix >> 2) as usize + 4
    }
}

/// Whether a reader that has the first byte of a compact encoding fetches
/// the bytes behind it one by one, so that an input that ends early is
/// left empty; else it fetches them together, and an input that ends
/// early keeps what it has.
pub fn compact_tail_by_bytes(prefix: u8) -> (b: bool)
    ensures
        b == compact_tail_by_bytes_spec(prefix),
{
    proof {
        assert(prefix >> 2 == prefix / 4) by (bit_vector);
    }
    let count = prefix >> 2;
    prefix % 4 == 3 && count != 0 && count != 4 && count != 12
}

impl<'a, 'b> PrefixInput<'a, 'b> {
    /// The bytes still to come: the pending byte, then the inner input.
    pub open spec fn remaining(&self) -> Seq<u8> {
        match self.prefix {
            Some(b) => seq![b] + (*self.input)@,
            None => (*self.input)@,
        }
    }

    /// The number of bytes still to come: those of the inner input, and one
    /// more while the byte is pending; `usize::MAX` where that is more.
    /// Nothing is read, and the adapter keeps its inner input.
    pub fn remaining_len(&mut self) -> (r: Result<Option<usize>, ScaleError>)
        ensures
            r == Ok::<Option<usize>, ScaleError>(
                Some(
                    if old(self).remaining().len() <= usize::MAX {
                        old(self).remaining().len() as usize
                    } else {
                        usize::MAX
                    },
                ),
            ),
            final(self).prefix == old(self).prefix,
            (*final(self).input)@ == (*old(self).input)@,
            *final(final(self).input) == *final(old(self).input),
    {
        let pending: usize = match self.prefix {
            Some(_) => 1,
            None => 0,
        };
        proof {
            vstd::slice::axiom_spec_len::<u8>(*self.input);
            assert(self.remaining().len() == (*self.input)@.len() + pending);
        }
        match slice_remaining_len(self.input) {
            Ok(Some(len)) => Ok(Some(len.saturating_add(pending))),
            Ok(None) => Ok(None),
            Err(_) => Err(ScaleError::StreamExhausted),
        }
    }

    /// Fills `buffer` with the next bytes: with a byte pending and a buffer
    /// that is not empty, the pending byte goes first and is pending no
    /// more, and the inner input fills the rest; else the inner input fills
    /// it all. Fails where the inner input has too few bytes, and leaves
    /// it then. The adapter keeps its inner input.
    pub fn read(&mut self, buffer: &mut [u8]) -> (r: Result<(), ScaleError>)
        ensures
            old(buffer)@.len() <= old(self).remaining().len() ==> {
                &&& r is Ok
                &&& final(buffer)@ == old(self).remaining().take(old(buffer)@.len() as int)
                &&& final(self).remaining() == old(self).remaining().skip(
                    old(buffer)@.len() as int,
                )
            },
            old(buffer)@.len() > old(self).remaining().len() ==> {
                &&& r == Err::<(), ScaleError>(ScaleError::StreamExhausted)
                &&& final(self).prefix is None
                &&& (*final(self).input)@ == (*old(self).input)@
                &&& final(buffer)@ == match old(self).prefix {
                    Some(b) => old(buffer)@.update(0, b),
                    None => old(buffer)@,
                }
            },
            old(buffer)@.len() > 0 ==> final(self).prefix is None,
            old(buffer)@.len() == 0 ==> final(self).prefix == old(self).prefix,
            *final(final(self).input) == *final(old(self).input),
    {
        let ghost before = self.remaining();
        let ghost n = buffer@.len() as int;
        let ghost start = buffer@;
        let read = match self.prefix {
            Some(v) => {
                if buffer.len() > 0 {
                    self.prefix = None;
                    let (head, tail) = buffer.split_at_mut(1);
                    head[0] = v;
                    let read = slice_read(self.input, tail);
                    proof {
                        if n <= before.len() {
                            assert(head@ + tail@ =~= before.take(n));
                            assert((*self.input)@ =~= before.skip(n));
                        } else {
                            assert(head@ + tail@ =~= start.update(0, v));
                        }
                    }
                    read
                } else {
                    let read = slice_read(self.input, buffer);
                    proof {
                        assert(buffer@ =~= before.take(n));
                        assert(self.remaining() =~= before.skip(n));
                    }
                    read
                }
            },
            None => {
                let read = slice_read(self.input, buffer);
                read
            },
        };
        match read {
            Ok(()) => Ok(()),
            Err(_) => Err(ScaleError::StreamExhausted),
        }
    }
}

impl<const BITS: usize, const LIMBS: usize> Uint<BITS, LIMBS> {
    /// The hint for the length of the fixed encoding: four bytes for the
    /// length in front, and the bytes of the integer.
    pub fn size_hint(&self) -> (n: usize)
        ensures
            n == 4 + bytes_for(BITS as nat),
    {
        4 + Self::bytes()
    }

    /// Calls `f` on the fixed encoding of the integer.
    pub fn using_encoded<R, F: FnOnce(&[u8]) -> R>(&self, f: F) -> (r: R)
        requires
            bytes_for(BITS as nat) <= u32::MAX,
            forall|b: &[u8]| b@ == fixed_encoding(BITS as nat, self@) ==> f.requires((b,)),
        ensures
            exists|b: &[u8]| b@ == fixed_encoding(BITS as nat, self@) && f.ensures((b,), r),
    {
        let bytes = self.to_le_bytes_vec();
        proof {
            lemma_le_bytes_len(self@, bytes_for(BITS as nat));
        }
        let encoded = encode_bytes(bytes.as_slice());
        f(encoded.as_slice())
    }

    /// Reads a fixed encoding off the front of `input` as an integer, and
    /// leaves `input` behind what was read. Fails with `ByteVector` where
    /// no byte vector parses, and with `TooLarge` where its bytes denote a
    /// number of more than `BITS` bits. The fixed encoding of an integer of
    /// the width is read as that integer, and what follows it is left.
    pub fn decode_fixed(input: &mut &[u8]) -> (r: Result<Self, ScaleError>)
        requires
            LIMBS == limbs_for(BITS as nat),
        ensures
            match fixed_decoding(BITS as nat, old(input)@).0 {
                Ok(v) => r is Ok && r->Ok_0@ == v,
                Err(e) => r == Err::<Self, ScaleError>(e),
            },
            final(input)@ == old(input)@.skip(fixed_decoding(BITS as nat, old(input)@).1 as int),
            forall|v: nat, tail: Seq<u8>|
                v < pow2(BITS as nat) && bytes_for(BITS as nat) <= u32::MAX && old(input)@
                    == #[trigger] (fixed_encoding(BITS as nat, v) + tail) ==> r is Ok
                    && r->Ok_0@ == v && final(input)@ == tail,
    {
        let ghost s = input@;
        proof {
            assert forall|v: nat, tail: Seq<u8>|
                v < pow2(BITS as nat) && bytes_for(BITS as nat) <= u32::MAX && s == #[trigger] (
                    fixed_encoding(BITS as nat, v) + tail) implies {
                &&& fixed_decoding(BITS as nat, s) == (
                    Ok::<nat, ScaleError>(v),
                    fixed_encoding(BITS as nat, v).len(),
                )
                &&& s.skip(fixed_encoding(BITS as nat, v).len() as int) == tail
            } by {
                lemma_fixed_decoding_of_encoding(BITS as nat, v, tail);
                assert(s.skip(fixed_encoding(BITS as nat, v).len() as int) =~= tail);
            }
        }
        match decode_byte_vec(input) {
            Ok(bytes) => Self::from_byte_vector(bytes.as_slice()),
            Err(_) => Err(ScaleError::ByteVector),
        }
    }

    /// The integer that the bytes of a vector denote, least significant
    /// first: the second step of reading the fixed form, for a vector of any
    /// length. Fails with `TooLarge` where they denote a number of more than
    /// `BITS` bits.
    pub fn from_byte_vector(bytes: &[u8]) -> (r: Result<Self, ScaleError>)
        requires
            LIMBS == limbs_for(BITS as nat),
        ensures
            r is Ok <==> le_value(bytes@) < pow2(BITS as nat),
            r is Ok ==> r->Ok_0@ == le_value(bytes@),
            r is Err ==> r == Err::<Self, ScaleError>(ScaleError::TooLarge),
    {
        match Self::try_from_le_slice(bytes) {
            Some(v) => Ok(v),
            None => Err(ScaleError::TooLarge),
        }
    }
}

impl<const BITS: usize, const LIMBS: usize> CompactUint<BITS, LIMBS> {
    /// The integer that is written for this one.
    pub fn encode_as(&self) -> (r: &Uint<BITS, LIMBS>)
        ensures
            *r == self.0,
    {
        &self.0
    }

    /// The compact integer for one that was read.
    pub fn decode_from(v: Uint<BITS, LIMBS>) -> (r: Result<Self, ScaleError>)
        ensures
            r is Ok && r->Ok_0.0 == v,
    {
        Ok(Self(v))
    }

    /// Reads a compact encoding off the front of `input` as an integer, and
    /// leaves `input` behind what was read. Fails with `StreamExhausted`
    /// where the input ends early, with `OutOfRange` where the value lies
    /// outside the range of its mode or does not fit the width, and with
    /// `TooLarge` where a value of a general byte count does not fit the
    /// width. The bytes of a value stand in the input least significant
    /// first, in every mode. An integer is read only from its compact
    /// encoding: bytes that hold it in a longer mode, or in more bytes than
    /// it has, fail with `OutOfRange`.
    pub fn decode(input: &mut &[u8]) -> (r: Result<Self, ScaleError>)
        requires
            BITS < COMPACT_BITS_LIMIT,
            LIMBS == limbs_for(BITS as nat),
        ensures
            match compact_decoding(BITS as nat, old(input)@).0 {
                Ok(v) => r is Ok && r->Ok_0.0@ == v,
                Err(e) => r == Err::<Self, ScaleError>(e),
            },
            final(input)@ == old(input)@.skip(compact_decoding(BITS as nat, old(input)@).1 as int),
            r is Ok ==> old(input)@ == compact_encoding(r->Ok_0.0@) + final(input)@,
            forall|v: nat, tail: Seq<u8>|
                v < pow2(BITS as nat) && old(input)@ == #[trigger] (compact_encoding(v) + tail)
                    ==> r is Ok && r->Ok_0.0@ == v && final(input)@ == tail,
    {
        assert_compact_supported::<BITS>();
        let ghost s = input@;
        proof {
            if compact_decoding(BITS as nat, s).0 is Ok {
                lemma_compact_encoding_of_decoding(BITS as nat, s);
            }
            assert forall|v: nat, tail: Seq<u8>|
                v < pow2(BITS as nat) && s == #[trigger] (compact_encoding(v) + tail) implies {
                &&& compact_decoding(BITS as nat, s) == (
                    Ok::<nat, ScaleError>(v),
                    compact_encoding(v).len(),
                )
                &&& s.skip(compact_encoding(v).len() as int) == tail
            } by {
                lemma_compact_decoding_of_encoding(BITS as nat, v, tail);
                assert(s.skip(compact_encoding(v).len() as int) =~= tail);
            }
        }
        let prefix = match slice_read_byte(input) {
            Ok(byte) => byte,
            Err(_) => {
                return Err(ScaleError::StreamExhausted);
            },
        };
        let mode = prefix % 4;
        let value: Option<Uint<BITS, LIMBS>> = if mode == 0 {
            proof {
                assert(prefix >> 2 == prefix / 4) by (bit_vector);
            }
            Uint::try_from_u128((prefix >> 2) as u128)
        } else if mode == 1 {
            let mut buffer = [0u8; 2];
            let mut prefixed = PrefixInput { prefix: Some(prefix), input };
            match prefixed.read(&mut buffer) {
                Ok(()) => {},
                Err(e) => {
                    return Err(e);
                },
            }
            proof {
                assert(buffer@ =~= s.take(2));
                assert(input@ =~= s.skip(2));
            }
            let mut word: &[u8] = buffer.as_slice();
            let w = match decode_u16(&mut word) {
                Ok(w) => w,
                Err(_) => {
                    return Err(ScaleError::StreamExhausted);
                },
            };
            let x = w >> 2;
            proof {
                assert(s.take(2).take(2) =~= s.take(2));
                assert(w >> 2 == w / 4) by (bit_vector);
            }
            if 0b0011_1111 < x && x <= 0b0011_1111_1111_1111 {
                Uint::try_from_u128(x as u128)
            } else {
                return Err(ScaleError::OutOfRange);
            }
        } else if mode == 2 {
            let mut buffer = [0u8; 4];
            let mut prefixed = PrefixInput { prefix: Some(prefix), input };
            match prefixed.read(&mut buffer) {
                Ok(()) => {},
                Err(e) => {
                    return Err(e);
                },
            }
            proof {
                assert(buffer@ =~= s.take(4));
                assert(input@ =~= s.skip(4));
            }
            let mut word: &[u8] = buffer.as_slice();
            let w = match decode_u32(&mut word) {
                Ok(w) => w,
                Err(_) => {
                    return Err(ScaleError::StreamExhausted);
                },
            };
            let x = w >> 2;
            proof {
                assert(s.take(4).take(4) =~= s.take(4));
                assert(w >> 2 == w / 4) by (bit_vector);
            }
            if 0b0011_1111_1111_1111 < x && x <= 0x3fff_ffff {
                Uint::try_from_u128(x as u128)
            } else {
                return Err(ScaleError::OutOfRange);
            }
        } else {
            proof {
                assert(prefix >> 2 == prefix / 4) by (bit_vector);
            }
            let extra: u8 = (prefix >> 2) + 4;
            let ghost rest = s.skip(1);
            if extra == 4 {
                let x = match decode_u32(input) {
                    Ok(x) => x,
                    Err(_) => {
                        return Err(ScaleError::StreamExhausted);
                    },
                };
                proof {
                    assert(rest.take(4) =~= s.subrange(1, 5));
                    assert(input@ =~= s.skip(5));
                }
                if x > 0x3fff_ffff {
                    Uint::try_from_u128(x as u128)
                } else {
                    return Err(ScaleError::OutOfRange);
                }
            } else if extra == 8 {
                let x = match decode_u64(input) {
                    Ok(x) => x,
                    Err(_) => {
                        return Err(ScaleError::StreamExhausted);
                    },
                };
                proof {
                    assert(rest.take(8) =~= s.subrange(1, 9));
                    assert(input@ =~= s.skip(9));
                }
                if x > 0x00ff_ffff_ffff_ffff {
                    Uint::try_from_u128(x as u128)
                } else {
                    return Err(ScaleError::OutOfRange);
                }
            } else if extra == 16 {
                let x = match decode_u128(input) {
                    Ok(x) => x,
                    Err(_) => {
                        return Err(ScaleError::StreamExhausted);
                    },
                };
                proof {
                    assert(rest.take(16) =~= s.subrange(1, 17));
                    assert(input@ =~= s.skip(17));
                }
                if x > 0x00ff_ffff_ffff_ffff_ffff_ffff_ffff_ffff {
                    Uint::try_from_u128(x)
                } else {
                    return Err(ScaleError::OutOfRange);
                }
            } else {
                // The bytes are taken one by one as they come, the least
                // significant first: the order in which `encode_to` writes them.
                let mut bytes: Vec<u8> = Vec::new();
                let mut i: u8 = 0;
                while i < extra
                    invariant
                        i <= extra,
                        i <= rest.len(),
                        bytes@ == rest.take(i as int),
                        input@ == rest.skip(i as int),
                        rest == s.skip(1),
                        s == old(input)@,
                        s.len() > 0,
                        compact_decoding(BITS as nat, s).0 is Ok ==> s == compact_encoding(
                            compact_decoding(BITS as nat, s).0->Ok_0,
                        ) + s.skip(compact_decoding(BITS as nat, s).1 as int),
                        forall|v: nat, tail: Seq<u8>|
                            v < pow2(BITS as nat) && s == #[trigger] (compact_encoding(v) + tail)
                                ==> {
                                &&& compact_decoding(BITS as nat, s) == (
                                    Ok::<nat, ScaleError>(v),
                                    compact_encoding(v).len(),
                                )
                                &&& s.skip(compact_encoding(v).len() as int) == tail
                            },
                        s[0] % 4 == 3,
                        extra == s[0] / 4 + 4,
                        extra != 4 && extra != 8 && extra != 16,
                    decreases extra - i,
                {
                    match slice_read_byte(input) {
                        Ok(byte) => {
                            bytes.push(byte);
                        },
                        Err(_) => {
                            proof {
                                assert(input@ =~= s.skip(s.len() as int));
                            }
                            return Err(ScaleError::StreamExhausted);
                        },
                    }
                    proof {
                        assert(bytes@ =~= rest.take(i + 1));
                        assert(input@ =~= rest.skip(i + 1));
                    }
                    i += 1;
                }
                proof {
                    assert(bytes@ =~= s.subrange(1, 1 + extra as int));
                    assert(input@ =~= s.skip(1 + extra as int));
                }
                let x = match Uint::<BITS, LIMBS>::try_from_le_slice(bytes.as_slice()) {
                    Some(x) => x,
                    None => {
                        return Err(ScaleError::TooLarge);
                    },
                };
                proof {
                    lemma_byte_length_le(x@, (extra - 1) as nat);
                }
                if x.byte_len() >= extra as usize {
                    return Ok(CompactUint(x));
                } else {
                    return Err(ScaleError::OutOfRange);
                }
            }
        };
        match value {
            Some(v) => Ok(CompactUint(v)),
            None => Err(ScaleError::OutOfRange),
        }
    }
}

impl<'a, const BITS: usize, const LIMBS: usize> CompactRefUint<'a, BITS, LIMBS> {
    /// The length of the compact encoding: 1, 2 or 4 bytes for up to 6, 14
    /// or 30 binary digits, and one byte more than the integer has above
    /// that.
    pub fn size_hint(&self) -> (n: usize)
        ensures
            n == compact_encoding(self.0@).len(),
    {
        let bits = self.0.bit_len();
        proof {
            lemma_le_bytes_len(4 * self.0@ + 1, 2);
            lemma_le_bytes_len(4 * self.0@ + 2, 4);
            lemma_minimal(self.0@);
        }
        if bits <= 6 {
            1
        } else if bits <= 14 {
            2
        } else if bits <= 30 {
            4
        } else {
            self.0.byte_len() + 1
        }
    }

    /// Appends the compact encoding of the integer to `dest`.
    pub fn encode_to(&self, dest: &mut Vec<u8>)
        requires
            BITS < COMPACT_BITS_LIMIT,
        ensures
            final(dest)@ == old(dest)@ + compact_encoding(self.0@),
    {
        assert_compact_supported::<BITS>();
        let ghost before = dest@;
        let ghost v = self.0@;
        let bits = self.0.bit_len();
        proof {
            lemma2_to64();
            lemma_bit_length_le(v, 6);
            lemma_bit_length_le(v, 14);
            lemma_bit_length_le(v, 30);
        }
        if bits <= 6 {
            let x = self.0.to_u64() as u8;
            proof {
                assert(x < 64 ==> x << 2 == 4 * x) by (bit_vector);
            }
            push_byte(dest, x << 2);
            proof {
                assert(dest@ =~= before + compact_encoding(v));
            }
        } else if bits <= 14 {
            let x = self.0.to_u64() as u16;
            proof {
                assert(x < 0x4000 ==> (x << 2) | 1 == 4 * x + 1) by (bit_vector);
            }
            encode_u16_to((x << 2) | 0b01, dest);
        } else if bits <= 30 {
            let x = self.0.to_u64() as u32;
            proof {
                assert(x < 0x4000_0000 ==> (x << 2) | 2 == 4 * x + 2) by (bit_vector);
            }
            encode_u32_to((x << 2) | 0b10, dest);
        } else {
            let bytes_needed = self.0.byte_len();
            proof {
                lemma_byte_length_of_bits(v);
                let n = (bytes_needed - 4) as usize;
                assert(n <= 63 ==> (n << 2) == 4 * n) by (bit_vector);
            }
            push_byte(dest, 0b11 + ((bytes_needed - 4) << 2) as u8);
            let bytes = self.0.to_le_bytes_trimmed_vec();
            write(dest, bytes.as_slice());
            proof {
                assert(dest@ =~= before + compact_encoding(v));
            }
        }
    }
}

} // verus!
