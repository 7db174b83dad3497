//! The RLP codec: an unsigned integer as an RLP byte string, never a list.
//!
//! An integer is written as its big-endian bytes without leading zeros,
//! behind the shortest string header. Reading parses a header with `fastrlp`
//! and takes the payload as a big-endian integer of the declared width.
use crate::numeral::{
    be_minimal, be_value, lemma_byte_length_le, lemma_minimal, lemma_trimmed_is_minimal, trimmed,
};
use crate::rlp_laws::lemma_decode_of_encoding;
use crate::uint::{limbs_for, Uint};
use fastrlp::{DecodeError as FastrlpError, Header as FastrlpHeader};
use vstd::arithmetic::power2::{lemma2_to64, pow2};
use vstd::prelude::*;
use vstd::slice::slice_subrange;

verus! {

/// The header of an RLP item: whether it is a list, and the length of its
/// payload in bytes.
#[derive(Clone, Copy, Debug, PartialEq, Eq, Structural)]
pub struct Header {
    /// Whether the item is a list; else it is a string.
    pub list: bool,
    /// The number of bytes of the payload, which follows the header.
    pub payload_length: usize,
}

/// Why a byte string is no RLP encoding of an integer of the declared width.
#[derive(Clone, Copy, Debug, PartialEq, Eq, Structural)]
pub enum DecodeError {
    /// The payload denotes a number of more bits than the integer has.
    Overflow,
    /// A length field begins with a zero byte.
    LeadingZero,
    /// The input ends before the header or the payload does.
    InputTooShort,
    /// A single byte below `0x80` stands behind a header.
    NonCanonicalSingleByte,
    /// A long header announces a payload that a short header can announce.
    NonCanonicalSize,
    /// Not given by this codec.
    UnexpectedLength,
    /// Not given by this codec.
    UnexpectedString,
    /// The item is a list, and an integer is a string.
    UnexpectedList,
    /// Not given by this codec.
    ListLengthMismatch,
    /// A length field announces more bytes than `usize` counts.
    Custom,
}

/// The outcome of reading a header and the number of bytes read off the
/// input by then.
pub type HeaderOutcome = (Result<(bool, nat), DecodeError>, nat);

/// The last step of reading a header: after `read` bytes the fields are
/// known, and the payload must lie in what is left of `s`.
pub open spec fn header_checked(list: bool, payload_length: nat, read: nat, s: Seq<u8>)
    -> HeaderOutcome {
    if s.len() - read < payload_length {
        (Err(DecodeError::InputTooShort), read)
    } else {
        (Ok((list, payload_length)), read)
    }
}

/// A header whose first byte announces `len_of_len` bytes of payload length,
/// most significant first.
pub open spec fn long_header(list: bool, len_of_len: nat, s: Seq<u8>) -> HeaderOutcome {
    if s.len() - 1 < len_of_len {
        (Err(DecodeError::InputTooShort), 1)
    } else if s[1] == 0 {
        (Err(DecodeError::LeadingZero), 1)
    } else {
        let n = be_value(s.subrange(1, 1 + len_of_len as int));
        if n > usize::MAX {
            (Err(DecodeError::Custom), 1)
        } else if n < 56 {
            (Err(DecodeError::NonCanonicalSize), 1 + len_of_len)
        } else {
            header_checked(list, n, 1 + len_of_len, s)
        }
    }
}

/// The header at the front of `s`. A first byte below `0x80` is its own
/// payload and is not read off; `0x80..=0xb7` announce a string of up to 55
/// bytes, `0xb8..=0xbf` a longer string, `0xc0..=0xf7` a list of up to 55
/// bytes, `0xf8..=0xff` a longer list.
pub open spec fn header_decoding(s: Seq<u8>) -> HeaderOutcome {
    if s.len() == 0 {
        (Err(DecodeError::InputTooShort), 0)
    } else if s[0] < 0x80 {
        header_checked(false, 1, 0, s)
    } else if s[0] < 0xb8 {
        let n = (s[0] - 0x80) as nat;
        if n == 1 && s.len() < 2 {
            (Err(DecodeError::InputTooShort), 1)
        } else if n == 1 && s[1] < 0x80 {
            (Err(DecodeError::NonCanonicalSingleByte), 1)
        } else {
            header_checked(false, n, 1, s)
        }
    } else if s[0] < 0xc0 {
        long_header(false, (s[0] - 0xb7) as nat, s)
    } else if s[0] < 0xf8 {
        header_checked(true, (s[0] - 0xc0) as nat, 1, s)
    } else {
        long_header(true, (s[0] - 0xf7) as nat, s)
    }
}

/// The RLP string with the given payload: the payload behind the shortest
/// header, or alone where it is one byte below `0x80`.
pub open spec fn string_encoding(payload: Seq<u8>) -> Seq<u8> {
    if payload.len() == 0 {
        seq![0x80u8]
    } else if payload.len() == 1 && payload[0] <= 0x7f {
        payload
    } else if payload.len() <= 55 {
        seq![(0x80 + payload.len()) as u8] + payload
    } else {
        let length = be_minimal(payload.len());
        seq![(0xb7 + length.len()) as u8] + length + payload
    }
}

/// The RLP encoding of the integer `v`.
pub open spec fn encoding(v: nat) -> Seq<u8> {
    string_encoding(be_minimal(v))
}

/// What reading an integer of `bits` bits off `s` gives, and the number of
/// bytes read off the input by then.
pub open spec fn decoding(bits: nat, s: Seq<u8>) -> (Result<nat, DecodeError>, nat) {
    match header_decoding(s) {
        (Err(e), read) => (Err(e), read),
        (Ok((list, n)), read) => if list {
            (Err(DecodeError::UnexpectedList), read)
        } else {
            let v = be_value(s.subrange(read as int, read as int + n));
            (
                if v < pow2(bits) {
                    Ok(v)
                } else {
                    Err(DecodeError::Overflow)
                },
                read + n,
            )
        },
    }
}

/// `fastrlp::Header::decode` on a byte slice: parses the header at the
/// front of `buf` and leaves `buf` behind what it read, also where it fails.
/// Trusted: the outcome and the bytes read are those of `header_decoding`;
/// an `Ok` header's payload lies within what is left of `buf`.
#[verifier::external_body]
fn decode_header(buf: &mut &[u8]) -> (r: Result<Header, DecodeError>)
    ensures
        match header_decoding(old(buf)@).0 {
            Ok((list, n)) => r == Ok::<Header, DecodeError>(
                (Header { list, payload_length: n as usize }),
            ),
            Err(e) => r == Err::<Header, DecodeError>(e),
        },
        final(buf)@ == old(buf)@.skip(header_decoding(old(buf)@).1 as int),
{
    match FastrlpHeader::decode(buf) {
        Ok(h) => Ok(Header { list: h.list, payload_length: h.payload_length }),
        Err(FastrlpError::Overflow) => Err(DecodeError::Overflow),
        Err(FastrlpError::LeadingZero) => Err(DecodeError::LeadingZero),
        Err(FastrlpError::InputTooShort { .. }) => Err(DecodeError::InputTooShort),
        Err(FastrlpError::NonCanonicalSingleByte) => Err(DecodeError::NonCanonicalSingleByte),
        Err(FastrlpError::NonCanonicalSize) => Err(DecodeError::NonCanonicalSize),
        Err(FastrlpError::UnexpectedLength) => Err(DecodeError::UnexpectedLength),
        Err(FastrlpError::UnexpectedString) => Err(DecodeError::UnexpectedString),
        Err(FastrlpError::UnexpectedList) => Err(DecodeError::UnexpectedList),
        Err(FastrlpError::ListLengthMismatch { .. }) => Err(DecodeError::ListLengthMismatch),
        Err(FastrlpError::Custom(_)) => Err(DecodeError::Custom),
    }
}

/// `fastrlp::BufMut::put_u8` on a `Vec<u8>`. Trusted: it appends the byte.
#[verifier::external_body]
fn put_u8(out: &mut Vec<u8>, byte: u8)
    ensures
        final(out)@ == old(out)@.push(byte),
{
    fastrlp::BufMut::put_u8(out, byte)
}

/// `fastrlp::BufMut::put_slice` on a `Vec<u8>`. Trusted: it appends the
/// bytes in their order.
#[verifier::external_body]
fn put_slice(out: &mut Vec<u8>, bytes: &[u8])
    ensures
        final(out)@ == old(out)@ + bytes@,
{
    fastrlp::BufMut::put_slice(out, bytes)
}

/// The slice without the zero bytes at its front.
pub fn trim_leading_zeros(bytes: &[u8]) -> (r: &[u8])
    ensures
        r@ == trimmed(bytes@),
{
    let len = bytes.len();
    let mut zeros: usize = 0;
    proof {
        assert(bytes@.skip(0) =~= bytes@);
    }
    while zeros < len && bytes[zeros] == 0
        invariant
            zeros <= len,
            len == bytes@.len(),
            trimmed(bytes@) == trimmed(bytes@.skip(zeros as int)),
        decreases len - zeros,
    {
        proof {
            assert(bytes@.skip(zeros as int).drop_first() =~= bytes@.skip(zeros + 1));
        }
        zeros += 1;
    }
    proof {
        assert(bytes@.subrange(zeros as int, len as int) =~= bytes@.skip(zeros as int));
    }
    slice_subrange(bytes, zeros, len)
}

impl<const BITS: usize, const LIMBS: usize> Uint<BITS, LIMBS> {
    /// Appends the RLP encoding of the integer to `out`.
    pub fn encode(&self, out: &mut Vec<u8>)
        ensures
            final(out)@ == old(out)@ + encoding(self@),
    {
        let ghost before = out@;
        let full = self.to_be_bytes_vec();
        let bytes = trim_leading_zeros(full.as_slice());
        proof {
            lemma_trimmed_is_minimal(full@);
        }
        let n = bytes.len();
        if n == 0 {
            put_u8(out, 0x80);
            proof {
                assert(out@ =~= before + encoding(self@));
            }
        } else if n == 1 && bytes[0] <= 0x7f {
            put_u8(out, bytes[0]);
            proof {
                assert(out@ =~= before + encoding(self@));
            }
        } else if n <= 55 {
            put_u8(out, 0x80 + n as u8);
            put_slice(out, bytes);
            proof {
                assert(out@ =~= before + encoding(self@));
            }
        } else {
            proof {
                lemma2_to64();
            }
            let length = Uint::<64, 1>::try_from_u128(n as u128).unwrap();
            let length_full = length.to_be_bytes_vec();
            let length_bytes = trim_leading_zeros(length_full.as_slice());
            proof {
                lemma_trimmed_is_minimal(length_full@);
                lemma_minimal(n as nat);
                lemma_byte_length_le(n as nat, 8);
            }
            put_u8(out, 0xb7 + length_bytes.len() as u8);
            put_slice(out, length_bytes);
            put_slice(out, bytes);
            proof {
                assert(out@ =~= before + encoding(self@));
            }
        }
    }

    /// Reads an RLP string off the front of `buf` as an integer, and leaves
    /// `buf` behind what was read. Fails where the header does not parse,
    /// where it announces a list (`UnexpectedList`), and where the payload
    /// denotes a number of more than `BITS` bits (`Overflow`). The encoding
    /// of an integer of the width is read as that integer, and what follows
    /// it is left.
    pub fn decode(buf: &mut &[u8]) -> (r: Result<Self, DecodeError>)
        requires
            LIMBS == limbs_for(BITS as nat),
        ensures
            match decoding(BITS as nat, old(buf)@).0 {
                Ok(v) => r is Ok && r->Ok_0@ == v,
                Err(e) => r == Err::<Self, DecodeError>(e),
            },
            final(buf)@ == old(buf)@.skip(decoding(BITS as nat, old(buf)@).1 as int),
            forall|v: nat, tail: Seq<u8>|
                v < pow2(BITS as nat) && old(buf)@ == #[trigger] (encoding(v) + tail) ==> r is Ok
                    && r->Ok_0@ == v && final(buf)@ == tail,
    {
        let ghost input = buf@;
        proof {
            assert forall|v: nat, tail: Seq<u8>|
                v < pow2(BITS as nat) && input == #[trigger] (encoding(v) + tail) implies {
                &&& decoding(BITS as nat, input) == (Ok::<nat, DecodeError>(v), encoding(v).len())
                &&& input.skip(encoding(v).len() as int) == tail
            } by {
                lemma_decode_of_encoding(BITS, v, tail);
                assert(input.skip(encoding(v).len() as int) =~= tail);
            }
        }
        let header = match decode_header(buf) {
            Ok(header) => header,
            Err(e) => {
                return Err(e);
            },
        };
        if header.list {
            return Err(DecodeError::UnexpectedList);
        }
        let rest: &[u8] = *buf;
        let bytes = slice_subrange(rest, 0, header.payload_length);
        *buf = slice_subrange(rest, header.payload_length, rest.len());
        proof {
            let read = header_decoding(input).1 as int;
            assert(bytes@ =~= input.subrange(read, read + header.payload_length));
            assert(buf@ =~= input.skip(read + header.payload_length));
        }
        match Self::try_from_be_slice(bytes) {
            Some(v) => Ok(v),
            None => Err(DecodeError::Overflow),
        }
    }
}

} // verus!
