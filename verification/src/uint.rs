//! An unsigned integer of a fixed number of bits, held in 64-bit limbs, with
//! the conversions to and from byte strings that the codecs build on.
use crate::numeral::{
    be_bytes, be_value, bit_length, byte_length, bytes_for, le_bytes, le_minimal, le_value,
    lemma_trailing_ones_bound, lemma_trailing_ones_split, trailing_ones,
    lemma_be_bytes_reverse, lemma_be_value_reverse, lemma_bit_length_le, lemma_bit_length_unique,
    lemma_bit_length_bounds, lemma_byte_length_of_bits, lemma_le_bytes_len, lemma_le_bytes_take,
    lemma_le_bytes_unique, lemma_le_bytes_value, lemma_le_value_bound, lemma_le_value_concat,
    lemma_le_value_nonzero, lemma_le_value_take, lemma_le_value_zeros, lemma_pow2_monotonic,
    zeros,
};
use vstd::arithmetic::power2::{
    lemma2_to64, lemma2_to64_rest, lemma_pow2_adds, lemma_pow2_pos, pow2,
};
use vstd::bits::{lemma_u64_pow2_no_overflow, lemma_u64_shl_is_mul};
use vstd::prelude::*;
use vstd::std_specs::bits::u64_leading_zeros;

verus! {

/// The number of 64-bit limbs that hold `bits` bits.
pub open spec fn limbs_for(bits: nat) -> nat {
    (bits + 63) / 64
}

/// The number that the limbs denote, the first limb least significant.
spec fn limbs_value(l: Seq<u64>) -> nat
    decreases l.len(),
{
    if l.len() == 0 {
        0
    } else {
        limbs_value(l.drop_last()) + pow2((64 * (l.len() - 1)) as nat) * l.last() as nat
    }
}

/// The up to eight bytes of `s` from `start` on: the bytes of one limb.
spec fn limb_chunk(s: Seq<u8>, start: int) -> Seq<u8> {
    let from = if start < s.len() {
        start
    } else {
        s.len() as int
    };
    let to = if start + 8 < s.len() {
        start + 8
    } else {
        s.len() as int
    };
    s.subrange(from, to)
}

proof fn lemma_pow2_step64(n: nat)
    ensures
        pow2(64 * (n + 1)) == 0x1_0000_0000_0000_0000 * pow2(64 * n),
        pow2(64 * n) > 0,
{
    lemma_pow2_adds(64, 64 * n);
    lemma2_to64();
    lemma_pow2_pos(64 * n);
}

proof fn lemma_limbs_value_bound(l: Seq<u64>)
    ensures
        limbs_value(l) < pow2(64 * l.len()),
    decreases l.len(),
{
    if l.len() == 0 {
        lemma2_to64();
    } else {
        lemma_limbs_value_bound(l.drop_last());
        lemma_pow2_step64((l.len() - 1) as nat);
        let p = pow2((64 * (l.len() - 1)) as nat) as int;
        let x = l.last() as int;
        assert(p * x <= p * 0xffff_ffff_ffff_ffff) by (nonlinear_arith)
            requires
                p > 0,
                x <= 0xffff_ffff_ffff_ffff,
        ;
    }
}

proof fn lemma_limbs_value_front(l: Seq<u64>)
    requires
        l.len() > 0,
    ensures
        limbs_value(l) == l[0] as nat + 0x1_0000_0000_0000_0000 * limbs_value(l.drop_first()),
    decreases l.len(),
{
    lemma2_to64();
    if l.len() == 1 {
        assert(l.drop_last().len() == 0);
        assert(l.drop_first().len() == 0);
        assert(limbs_value(l.drop_last()) == 0);
        assert(limbs_value(l.drop_first()) == 0);
        assert(pow2(0) * l.last() as nat == l[0] as nat) by (nonlinear_arith)
            requires
                pow2(0) == 1,
                l.last() == l[0],
        ;
    } else {
        let init = l.drop_last();
        lemma_limbs_value_front(init);
        assert(l.drop_first().drop_last() =~= init.drop_first());
        lemma_pow2_step64((l.len() - 2) as nat);
        let p = pow2((64 * (l.len() - 2)) as nat) as int;
        let x = l.last() as int;
        assert(0x1_0000_0000_0000_0000 * (p * x) == (0x1_0000_0000_0000_0000 * p) * x)
            by (nonlinear_arith);
    }
}

proof fn lemma_limbs_value_split(l: Seq<u64>, k: int)
    requires
        0 <= k <= l.len(),
    ensures
        limbs_value(l) == limbs_value(l.take(k)) + pow2((64 * k) as nat) * limbs_value(l.skip(k)),
    decreases l.len() - k,
{
    let p = pow2((64 * k) as nat) as int;
    if k == l.len() {
        assert(l.take(k) =~= l);
        assert(l.skip(k).len() == 0);
        assert(p * 0 == 0);
    } else {
        let init = l.drop_last();
        lemma_limbs_value_split(init, k);
        assert(init.take(k) =~= l.take(k));
        assert(l.skip(k).drop_last() =~= init.skip(k));
        let m = (64 * (l.len() - 1 - k)) as nat;
        lemma_pow2_adds((64 * k) as nat, m);
        let q = pow2(m) as int;
        let x = l.last() as int;
        let low = limbs_value(init.skip(k)) as int;
        assert(p * (low + q * x) == p * low + (p * q) * x) by (nonlinear_arith);
    }
}

proof fn lemma_limbs_value_zero_top(l: Seq<u64>, k: int)
    requires
        0 < k <= l.len(),
        l[k - 1] == 0,
    ensures
        limbs_value(l.take(k)) == limbs_value(l.take(k - 1)),
{
    assert(l.take(k).drop_last() =~= l.take(k - 1));
    assert(pow2((64 * (k - 1)) as nat) * 0 == 0);
}

proof fn lemma_leading_zeros(x: u64)
    ensures
        u64_leading_zeros(x) == 64 - bit_length(x as nat),
    decreases x,
{
    reveal(u64_leading_zeros);
    if x != 0 {
        lemma_leading_zeros(x / 2);
    }
}

/// A number whose top limb is `top`, above `n` bits that hold `low`.
proof fn lemma_bit_length_top(low: nat, n: nat, top: nat)
    requires
        low < pow2(n),
        top > 0,
    ensures
        bit_length(low + pow2(n) * top) == n + bit_length(top),
{
    let m = bit_length(top);
    lemma_bit_length_bounds(top);
    lemma_pow2_adds(n, m);
    lemma_pow2_adds(n, (m - 1) as nat);
    let p = pow2(n) as int;
    let t = top as int;
    let hi = pow2(m) as int;
    let lo = pow2((m - 1) as nat) as int;
    assert(p * t + p <= p * hi) by (nonlinear_arith)
        requires
            p > 0,
            t + 1 <= hi,
    ;
    assert(p * lo <= p * t) by (nonlinear_arith)
        requires
            p > 0,
            lo <= t,
    ;
    lemma_bit_length_unique(low + pow2(n) * top, n + m);
}

/// With `r` bits in the top limb, the whole is below `2^(n + r)` exactly when
/// the top limb is below `2^r`.
proof fn lemma_top_limb_fits(low: nat, n: nat, top: nat, r: nat)
    requires
        low < pow2(n),
    ensures
        low + pow2(n) * top < pow2(n + r) <==> top < pow2(r),
{
    lemma_pow2_adds(n, r);
    let p = pow2(n) as int;
    let t = top as int;
    let q = pow2(r) as int;
    if t < q {
        assert(p * t + p <= p * q) by (nonlinear_arith)
            requires
                p > 0,
                t + 1 <= q,
        ;
    } else {
        assert(p * q <= p * t) by (nonlinear_arith)
            requires
                p > 0,
                q <= t,
        ;
    }
}

proof fn lemma_limbs_value_unique(a: Seq<u64>, b: Seq<u64>)
    requires
        a.len() == b.len(),
        limbs_value(a) == limbs_value(b),
    ensures
        a == b,
    decreases a.len(),
{
    if a.len() == 0 {
        assert(a =~= b);
    } else {
        let n = (64 * (a.len() - 1)) as nat;
        let p = pow2(n) as int;
        lemma_pow2_pos(n);
        lemma_limbs_value_bound(a.drop_last());
        lemma_limbs_value_bound(b.drop_last());
        let x = a.last() as int;
        let y = b.last() as int;
        let low_a = limbs_value(a.drop_last()) as int;
        let low_b = limbs_value(b.drop_last()) as int;
        assert(x == y) by (nonlinear_arith)
            requires
                low_a + p * x == low_b + p * y,
                0 <= low_a < p,
                0 <= low_b < p,
        ;
        lemma_limbs_value_unique(a.drop_last(), b.drop_last());
        assert(a =~= a.drop_last().push(a.last()));
        assert(b =~= b.drop_last().push(b.last()));
    }
}

proof fn lemma_all_zero(s: Seq<u8>)
    requires
        forall|i: int| 0 <= i < s.len() ==> s[i] == 0,
    ensures
        le_value(s) == 0,
{
    assert(s =~= zeros(s.len()));
    lemma_le_value_zeros(s.len());
}

/// An unsigned integer below `2^BITS`, in `LIMBS` limbs of 64 bits.
#[derive(Clone, Copy, Debug, PartialEq, Eq)]
pub struct Uint<const BITS: usize, const LIMBS: usize> {
    limbs: [u64; LIMBS],
}

impl<const BITS: usize, const LIMBS: usize> View for Uint<BITS, LIMBS> {
    type V = nat;

    closed spec fn view(&self) -> nat {
        limbs_value(self.limbs@)
    }
}

/// Integers of one width that denote the same number are the same.
pub proof fn lemma_equal_values<const BITS: usize, const LIMBS: usize>(
    a: Uint<BITS, LIMBS>,
    b: Uint<BITS, LIMBS>,
)
    requires
        a@ == b@,
    ensures
        a == b,
{
    lemma_limbs_value_unique(a.limbs@, b.limbs@);
    assert(a.limbs =~= b.limbs);
}

/// Appends the eight bytes of a limb, least significant first.
fn push_limb(out: &mut Vec<u8>, limb: u64)
    ensures
        final(out)@ == old(out)@ + le_bytes(limb as nat, 8),
{
    let ghost start = out@;
    let mut rest = limb;
    let mut j: usize = 0;
    while j < 8
        invariant
            j <= 8,
            out@ + le_bytes(rest as nat, (8 - j) as nat) == start + le_bytes(limb as nat, 8),
        decreases 8 - j,
    {
        let b = (rest % 256) as u8;
        proof {
            assert(out@.push(b) + le_bytes((rest / 256) as nat, (8 - j - 1) as nat) =~= out@
                + le_bytes(rest as nat, (8 - j) as nat));
        }
        out.push(b);
        rest = rest / 256;
        j += 1;
    }
    proof {
        assert(out@ + le_bytes(rest as nat, 0) =~= out@);
    }
}

/// The limb that the bytes from `start` on denote, up to eight of them.
fn read_limb(bytes: &[u8], start: usize) -> (r: u64)
    ensures
        r == le_value(limb_chunk(bytes@, start as int)),
{
    let len = bytes.len();
    if start >= len {
        return 0;
    }
    let end = if len - start >= 8 {
        start + 8
    } else {
        len
    };
    let mut x: u64 = 0;
    let mut j = end;
    while j > start
        invariant
            start <= j <= end <= len,
            end - start <= 8,
            len == bytes@.len(),
            x == le_value(bytes@.subrange(j as int, end as int)),
        decreases j,
    {
        proof {
            lemma_le_value_bound(bytes@.subrange(j as int, end as int));
            lemma_pow2_monotonic((8 * (end - j)) as nat, 56);
            lemma2_to64_rest();
            assert(bytes@.subrange(j - 1, end as int).drop_first() =~= bytes@.subrange(
                j as int,
                end as int,
            ));
        }
        j -= 1;
        x = x * 256 + bytes[j] as u64;
    }
    x
}

impl<const BITS: usize, const LIMBS: usize> Uint<BITS, LIMBS> {
    #[verifier::type_invariant]
    spec fn inv(self) -> bool {
        &&& LIMBS == limbs_for(BITS as nat)
        &&& limbs_value(self.limbs@) < pow2(BITS as nat)
    }

    /// The number of bytes of the fixed-width forms: `BITS` bits, rounded up.
    pub fn bytes() -> (n: usize)
        ensures
            n == bytes_for(BITS as nat),
    {
        if BITS % 8 == 0 {
            BITS / 8
        } else {
            BITS / 8 + 1
        }
    }

    /// The integer that `bytes` denotes, least significant byte first, where
    /// it is below `2^BITS`. The slice may have any length.
    pub fn try_from_le_slice(bytes: &[u8]) -> (r: Option<Self>)
        requires
            LIMBS == limbs_for(BITS as nat),
        ensures
            r is Some <==> le_value(bytes@) < pow2(BITS as nat),
            r is Some ==> r->Some_0@ == le_value(bytes@),
    {
        let len = bytes.len();
        let mut limbs = [0u64; LIMBS];
        let mut k: usize = 0;
        while k < LIMBS
            invariant
                k <= LIMBS,
                LIMBS == limbs_for(BITS as nat),
                len == bytes@.len(),
                limbs_value(limbs@.take(k as int)) == le_value(
                    bytes@.take(
                        if 8 * k < len {
                            8 * k
                        } else {
                            len as int
                        },
                    ),
                ),
            decreases LIMBS - k,
        {
            let limb = read_limb(bytes, 8 * k);
            let ghost prev = limbs@;
            limbs[k] = limb;
            proof {
                let s = bytes@;
                assert(limbs@.take(k as int) =~= prev.take(k as int));
                assert(limbs@.take(k + 1).last() == limb);
                let from = if 8 * k < len {
                    8 * k
                } else {
                    len as int
                };
                let to = if 8 * (k + 1) < len {
                    8 * (k + 1)
                } else {
                    len as int
                };
                assert(s.take(to) =~= s.take(from) + limb_chunk(s, 8 * k));
                lemma_le_value_concat(s.take(from), limb_chunk(s, 8 * k));
                assert(limbs@.take(k + 1).drop_last() =~= limbs@.take(k as int));
                if 8 * k >= len {
                    assert(limb == 0);
                    assert(pow2((64 * k) as nat) * 0 == 0);
                    assert(pow2((8 * len) as nat) * 0 == 0);
                }
            }
            k += 1;
        }
        let ghost low = if 8 * LIMBS < len {
            8 * LIMBS
        } else {
            len as int
        };
        proof {
            assert(limbs@.take(LIMBS as int) =~= limbs@);
        }
        if len / 8 >= LIMBS {
            let mut i = 8 * LIMBS;
            while i < len
                invariant
                    8 * LIMBS <= i <= len,
                    len == bytes@.len(),
                    LIMBS == limbs_for(BITS as nat),
                    forall|j: int| 8 * LIMBS <= j < i ==> bytes@[j] == 0,
                decreases len - i,
            {
                if bytes[i] != 0 {
                    proof {
                        lemma_le_value_nonzero(bytes@, i as int);
                        lemma_pow2_monotonic(BITS as nat, (8 * i) as nat);
                    }
                    return None;
                }
                i += 1;
            }
        }
        proof {
            let s = bytes@;
            assert(s =~= s.take(low) + s.skip(low));
            lemma_le_value_concat(s.take(low), s.skip(low));
            lemma_all_zero(s.skip(low));
            assert(pow2((8 * low) as nat) * 0 == 0);
            assert(le_value(s) == limbs_value(limbs@));
            lemma_limbs_value_bound(limbs@);
        }
        if BITS % 64 != 0 {
            let r = BITS % 64;
            let top = limbs[LIMBS - 1];
            proof {
                let n = (64 * (LIMBS - 1)) as nat;
                lemma_limbs_value_bound(limbs@.drop_last());
                lemma_top_limb_fits(limbs_value(limbs@.drop_last()), n, top as nat, r as nat);
                assert(n + r == BITS);
                lemma_u64_pow2_no_overflow(r as nat);
                assert(1 * pow2(r as nat) == pow2(r as nat));
                lemma_u64_shl_is_mul(1, r as u64);
            }
            if top >= (1u64 << r) {
                return None;
            }
        }
        Some(Uint { limbs })
    }

    /// The integer that `bytes` denotes, most significant byte first, where it
    /// is below `2^BITS`. The slice may have any length.
    pub fn try_from_be_slice(bytes: &[u8]) -> (r: Option<Self>)
        requires
            LIMBS == limbs_for(BITS as nat),
        ensures
            r is Some <==> be_value(bytes@) < pow2(BITS as nat),
            r is Some ==> r->Some_0@ == be_value(bytes@),
    {
        let len = bytes.len();
        let mut rev: Vec<u8> = Vec::new();
        let mut i = len;
        while i > 0
            invariant
                i <= len,
                len == bytes@.len(),
                rev@ == bytes@.subrange(i as int, len as int).reverse(),
            decreases i,
        {
            i -= 1;
            rev.push(bytes[i]);
            proof {
                assert(rev@ =~= bytes@.subrange(i as int, len as int).reverse());
            }
        }
        proof {
            assert(bytes@.subrange(0, len as int) =~= bytes@);
            lemma_be_value_reverse(bytes@);
        }
        Self::try_from_le_slice(rev.as_slice())
    }

    /// The integer `x`, where it is below `2^BITS`.
    pub fn try_from_u128(x: u128) -> (r: Option<Self>)
        requires
            LIMBS == limbs_for(BITS as nat),
        ensures
            r is Some <==> x < pow2(BITS as nat),
            r is Some ==> r->Some_0@ == x,
    {
        let mut bytes: Vec<u8> = Vec::new();
        let mut rest = x;
        let mut j: usize = 0;
        while j < 16
            invariant
                j <= 16,
                bytes@ + le_bytes(rest as nat, (16 - j) as nat) == le_bytes(x as nat, 16),
            decreases 16 - j,
        {
            let b = (rest % 256) as u8;
            proof {
                assert(bytes@.push(b) + le_bytes((rest / 256) as nat, (16 - j - 1) as nat)
                    =~= bytes@ + le_bytes(rest as nat, (16 - j) as nat));
            }
            bytes.push(b);
            rest = rest / 256;
            j += 1;
        }
        proof {
            assert(bytes@ + le_bytes(rest as nat, 0) =~= bytes@);
            lemma_pow2_adds(64, 64);
            lemma2_to64();
            lemma_le_bytes_value(x as nat, 16);
        }
        Self::try_from_le_slice(bytes.as_slice())
    }

    /// The `bytes_for(BITS)` bytes of the integer, least significant first.
    pub fn to_le_bytes_vec(&self) -> (r: Vec<u8>)
        ensures
            r@ == le_bytes(self@, bytes_for(BITS as nat)),
            le_value(r@) == self@,
            self@ < pow2(BITS as nat),
    {
        proof {
            use_type_invariant(self);
        }
        let mut out: Vec<u8> = Vec::new();
        let mut k: usize = 0;
        while k < LIMBS
            invariant
                k <= LIMBS,
                out@.len() == 8 * k,
                le_value(out@) == limbs_value(self.limbs@.take(k as int)),
            decreases LIMBS - k,
        {
            let limb = self.limbs[k];
            proof {
                lemma2_to64();
                lemma_le_bytes_value(limb as nat, 8);
                lemma_le_value_concat(out@, le_bytes(limb as nat, 8));
                assert(self.limbs@.take(k + 1).drop_last() =~= self.limbs@.take(k as int));
            }
            push_limb(&mut out, limb);
            k += 1;
        }
        let n = Self::bytes();
        proof {
            assert(self.limbs@.take(LIMBS as int) =~= self.limbs@);
            lemma_pow2_monotonic(BITS as nat, 8 * bytes_for(BITS as nat));
            lemma_le_value_take(out@, n as int);
            lemma_le_bytes_unique(out@.take(n as int));
        }
        out.truncate(n);
        out
    }

    /// The `bytes_for(BITS)` bytes of the integer, most significant first.
    pub fn to_be_bytes_vec(&self) -> (r: Vec<u8>)
        ensures
            r@ == be_bytes(self@, bytes_for(BITS as nat)),
            be_value(r@) == self@,
            self@ < pow2(BITS as nat),
    {
        let le = self.to_le_bytes_vec();
        let len = le.len();
        let mut out: Vec<u8> = Vec::new();
        let mut i = len;
        while i > 0
            invariant
                i <= len,
                len == le@.len(),
                out@ == le@.subrange(i as int, len as int).reverse(),
            decreases i,
        {
            i -= 1;
            out.push(le[i]);
            proof {
                assert(out@ =~= le@.subrange(i as int, len as int).reverse());
            }
        }
        proof {
            assert(le@.subrange(0, len as int) =~= le@);
            lemma_be_bytes_reverse(self@, bytes_for(BITS as nat));
            lemma_be_value_reverse(out@);
            assert(out@.reverse() =~= le@);
        }
        out
    }

    /// The bytes of the integer, least significant first, without the zero
    /// bytes at the end: zero has none.
    pub fn to_le_bytes_trimmed_vec(&self) -> (r: Vec<u8>)
        ensures
            r@ == le_minimal(self@),
    {
        let mut out = self.to_le_bytes_vec();
        let n = self.byte_len();
        proof {
            lemma_bit_length_le(self@, BITS as nat);
            lemma_byte_length_of_bits(self@);
            lemma_le_bytes_len(self@, bytes_for(BITS as nat));
            lemma_le_bytes_take(self@, bytes_for(BITS as nat), n as nat);
        }
        out.truncate(n);
        out
    }

    /// The integer as a `u64`.
    pub fn to_u64(&self) -> (r: u64)
        requires
            self@ <= u64::MAX,
        ensures
            r == self@,
    {
        if LIMBS == 0 {
            proof {
                assert(self.limbs@.len() == 0);
            }
            0
        } else {
            proof {
                lemma_limbs_value_front(self.limbs@);
            }
            self.limbs[0]
        }
    }

    /// The number of binary digits of the integer: the position of its
    /// highest set bit, counted from one; zero has none.
    pub fn bit_len(&self) -> (r: usize)
        ensures
            r == bit_length(self@),
            r <= BITS,
    {
        proof {
            use_type_invariant(self);
            assert(self.limbs@.take(LIMBS as int) =~= self.limbs@);
            lemma_bit_length_le(self@, BITS as nat);
        }
        let mut k = LIMBS;
        while k > 0 && self.limbs[k - 1] == 0
            invariant
                k <= LIMBS,
                limbs_value(self.limbs@.take(k as int)) == self@,
            decreases k,
        {
            proof {
                lemma_limbs_value_zero_top(self.limbs@, k as int);
            }
            k -= 1;
        }
        if k == 0 {
            proof {
                assert(self.limbs@.take(0).len() == 0);
            }
            0
        } else {
            let top = self.limbs[k - 1];
            let lz = top.leading_zeros();
            proof {
                let low = self.limbs@.take(k - 1);
                assert(self.limbs@.take(k as int).drop_last() =~= low);
                lemma_limbs_value_bound(low);
                lemma_leading_zeros(top);
                lemma_bit_length_top(limbs_value(low), (64 * (k - 1)) as nat, top as nat);
            }
            64 * (k - 1) + (64 - lz as usize)
        }
    }

    /// The number of one bits at the low end of the integer, below its
    /// lowest zero bit.
    pub fn trailing_ones(&self) -> (r: usize)
        ensures
            r == trailing_ones(self@),
            r <= BITS,
    {
        proof {
            use_type_invariant(self);
            lemma_trailing_ones_bound(self@);
            lemma_bit_length_le(self@, BITS as nat);
            assert(self.limbs@.take(0).len() == 0);
            lemma2_to64();
        }
        let mut k: usize = 0;
        while k < LIMBS && self.limbs[k] == u64::MAX
            invariant
                k <= LIMBS,
                limbs_value(self.limbs@.take(k as int)) + 1 == pow2((64 * k) as nat),
            decreases LIMBS - k,
        {
            proof {
                assert(self.limbs@.take(k + 1).drop_last() =~= self.limbs@.take(k as int));
                lemma_pow2_step64(k as nat);
                let p = pow2((64 * k) as nat) as int;
                assert(p * 0xffff_ffff_ffff_ffff == 0x1_0000_0000_0000_0000 * p - p)
                    by (nonlinear_arith);
            }
            k += 1;
        }
        proof {
            lemma_limbs_value_split(self.limbs@, k as int);
            lemma_limbs_value_bound(self.limbs@.take(k as int));
            lemma_trailing_ones_split(
                limbs_value(self.limbs@.take(k as int)),
                (64 * k) as nat,
                limbs_value(self.limbs@.skip(k as int)),
            );
        }
        if k == LIMBS {
            proof {
                assert(self.limbs@.skip(k as int).len() == 0);
                assert(trailing_ones(0) == 0);
            }
            64 * k
        } else {
            let limb = self.limbs[k];
            proof {
                let rest = self.limbs@.skip(k as int);
                lemma_limbs_value_front(rest);
                lemma_trailing_ones_split(limb as nat, 64, limbs_value(rest.drop_first()));
            }
            let mut x = limb;
            let mut ones: usize = 0;
            while x % 2 == 1
                invariant
                    ones + trailing_ones(x as nat) == trailing_ones(limb as nat),
                    64 * k + trailing_ones(limb as nat) <= BITS,
                decreases x,
            {
                x = x / 2;
                ones += 1;
            }
            64 * k + ones
        }
    }

    /// The number of bytes of the integer without leading zero bytes.
    pub fn byte_len(&self) -> (r: usize)
        ensures
            r == byte_length(self@),
            r <= bytes_for(BITS as nat),
    {
        let bits = self.bit_len();
        proof {
            lemma_byte_length_of_bits(self@);
        }
        if bits % 8 == 0 {
            bits / 8
        } else {
            bits / 8 + 1
        }
    }

    /// The number of zero bits above the highest set bit.
    pub fn leading_zeros(&self) -> (r: usize)
        ensures
            r == BITS - bit_length(self@),
    {
        BITS - self.bit_len()
    }
}

} // verus!
