//! Positional notation in base 256: the value of a byte string read
//! little-endian or big-endian, the byte strings of a given width that denote
//! a number, and the lengths in bits and bytes of a number.
use vstd::arithmetic::power2::{lemma2_to64, lemma_pow2_adds, lemma_pow2_pos, pow2};
use vstd::prelude::*;

verus! {

/// The number that `s` denotes with its first byte least significant.
pub open spec fn le_value(s: Seq<u8>) -> nat
    decreases s.len(),
{
    if s.len() == 0 {
        0
    } else {
        s[0] as nat + 256 * le_value(s.drop_first())
    }
}

/// The number that `s` denotes with its last byte least significant.
pub open spec fn be_value(s: Seq<u8>) -> nat
    decreases s.len(),
{
    if s.len() == 0 {
        0
    } else {
        256 * be_value(s.drop_last()) + s.last() as nat
    }
}

/// The `n` low-order bytes of `v`, least significant first.
pub open spec fn le_bytes(v: nat, n: nat) -> Seq<u8>
    decreases n,
{
    if n == 0 {
        Seq::empty()
    } else {
        seq![(v % 256) as u8] + le_bytes(v / 256, (n - 1) as nat)
    }
}

/// The `n` low-order bytes of `v`, most significant first.
pub open spec fn be_bytes(v: nat, n: nat) -> Seq<u8>
    decreases n,
{
    if n == 0 {
        Seq::empty()
    } else {
        be_bytes(v / 256, (n - 1) as nat).push((v % 256) as u8)
    }
}

/// The number of binary digits of `v`; zero has none.
pub open spec fn bit_length(v: nat) -> nat
    decreases v,
{
    if v == 0 {
        0
    } else {
        1 + bit_length(v / 2)
    }
}

/// The number of one bits at the low end of `v`, below its lowest zero bit.
pub open spec fn trailing_ones(v: nat) -> nat
    decreases v,
{
    if v % 2 == 1 {
        1 + trailing_ones(v / 2)
    } else {
        0
    }
}

/// The number of base-256 digits of `v`; zero has none.
pub open spec fn byte_length(v: nat) -> nat
    decreases v,
{
    if v == 0 {
        0
    } else {
        1 + byte_length(v / 256)
    }
}

/// The shortest little-endian byte string that denotes `v`.
pub open spec fn le_minimal(v: nat) -> Seq<u8> {
    le_bytes(v, byte_length(v))
}

/// The shortest big-endian byte string that denotes `v`.
pub open spec fn be_minimal(v: nat) -> Seq<u8> {
    be_bytes(v, byte_length(v))
}

/// The number of bytes that hold `bits` bits.
pub open spec fn bytes_for(bits: nat) -> nat {
    (bits + 7) / 8
}

/// `s` without the zero bytes at its front.
pub open spec fn trimmed(s: Seq<u8>) -> Seq<u8>
    decreases s.len(),
{
    if s.len() == 0 || s[0] != 0 {
        s
    } else {
        trimmed(s.drop_first())
    }
}

/// `n` zero bytes.
pub open spec fn zeros(n: nat) -> Seq<u8> {
    Seq::new(n, |i: int| 0u8)
}

/// One more byte multiplies the range by 256.
pub proof fn lemma_pow2_step8(n: nat)
    ensures
        pow2(8 * (n + 1)) == 256 * pow2(8 * n),
        pow2(8 * n) > 0,
{
    lemma_pow2_adds(8, 8 * n);
    lemma2_to64();
    lemma_pow2_pos(8 * n);
}

/// Powers of two grow with the exponent, and none is zero.
pub proof fn lemma_pow2_monotonic(a: nat, b: nat)
    requires
        a <= b,
    ensures
        pow2(a) <= pow2(b),
        pow2(a) > 0,
{
    lemma_pow2_adds(a, (b - a) as nat);
    lemma_pow2_pos(a);
    lemma_pow2_pos((b - a) as nat);
    let x = pow2(a) as int;
    let y = pow2((b - a) as nat) as int;
    assert(x <= x * y) by (nonlinear_arith)
        requires
            x > 0,
            y > 0,
    ;
}

/// A string of `n` bytes denotes a number below `256^n`.
pub proof fn lemma_le_value_bound(s: Seq<u8>)
    ensures
        le_value(s) < pow2(8 * s.len()),
    decreases s.len(),
{
    if s.len() == 0 {
        lemma2_to64();
    } else {
        lemma_le_value_bound(s.drop_first());
        lemma_pow2_step8((s.len() - 1) as nat);
    }
}

/// The value of a concatenation, little-endian.
pub proof fn lemma_le_value_concat(a: Seq<u8>, b: Seq<u8>)
    ensures
        le_value(a + b) == le_value(a) + pow2(8 * a.len()) * le_value(b),
    decreases a.len(),
{
    if a.len() == 0 {
        assert(a + b =~= b);
        lemma2_to64();
    } else {
        let rest = a.drop_first();
        assert((a + b).drop_first() =~= rest + b);
        lemma_le_value_concat(rest, b);
        lemma_pow2_step8(rest.len());
        let p = pow2(8 * rest.len()) as int;
        let x = le_value(b) as int;
        assert(256 * (p * x) == (256 * p) * x) by (nonlinear_arith);
    }
}

/// Zero bytes denote zero.
pub proof fn lemma_le_value_zeros(n: nat)
    ensures
        le_value(zeros(n)) == 0,
    decreases n,
{
    if n > 0 {
        assert(zeros(n).drop_first() =~= zeros((n - 1) as nat));
        lemma_le_value_zeros((n - 1) as nat);
    }
}

/// A byte string with a nonzero byte at `i` denotes at least `256^i`.
pub proof fn lemma_le_value_nonzero(s: Seq<u8>, i: int)
    requires
        0 <= i < s.len(),
        s[i] != 0,
    ensures
        le_value(s) >= pow2(8 * (i as nat)),
{
    let a = s.take(i);
    let b = s.skip(i);
    assert(s =~= a + b);
    lemma_le_value_concat(a, b);
    lemma_pow2_pos(8 * (i as nat));
    let p = pow2(8 * (i as nat)) as int;
    let x = le_value(b) as int;
    assert(x >= 1);
    assert(p * x >= p) by (nonlinear_arith)
        requires
            p > 0,
            x >= 1,
    ;
}

/// A byte string whose value is below `256^m` has that value in its first
/// `m` bytes, and none in the others.
pub proof fn lemma_le_value_take(s: Seq<u8>, m: int)
    requires
        0 <= m <= s.len(),
        le_value(s) < pow2(8 * (m as nat)),
    ensures
        le_value(s.take(m)) == le_value(s),
        le_value(s.skip(m)) == 0,
{
    let a = s.take(m);
    let b = s.skip(m);
    assert(s =~= a + b);
    lemma_le_value_concat(a, b);
    let p = pow2(8 * (m as nat)) as int;
    let x = le_value(b) as int;
    if x >= 1 {
        assert(p * x >= p) by (nonlinear_arith)
            requires
                p >= 0,
                x >= 1,
        ;
    } else {
        assert(p * x == 0) by (nonlinear_arith)
            requires
                x == 0,
        ;
    }
}

/// `le_bytes` has the length asked for.
pub proof fn lemma_le_bytes_len(v: nat, n: nat)
    ensures
        le_bytes(v, n).len() == n,
    decreases n,
{
    if n > 0 {
        lemma_le_bytes_len(v / 256, (n - 1) as nat);
    }
}

/// A number below `256^n` is the value of its `n` bytes.
pub proof fn lemma_le_bytes_value(v: nat, n: nat)
    requires
        v < pow2(8 * n),
    ensures
        le_value(le_bytes(v, n)) == v,
        le_bytes(v, n).len() == n,
    decreases n,
{
    lemma_le_bytes_len(v, n);
    if n == 0 {
        lemma2_to64();
    } else {
        let m = (n - 1) as nat;
        lemma_pow2_step8(m);
        lemma_le_bytes_value(v / 256, m);
        let s = le_bytes(v, n);
        assert(s.drop_first() =~= le_bytes(v / 256, m));
    }
}

/// A byte string is the bytes of its value at its own length.
pub proof fn lemma_le_bytes_unique(s: Seq<u8>)
    ensures
        le_bytes(le_value(s), s.len()) == s,
    decreases s.len(),
{
    if s.len() == 0 {
        assert(le_bytes(le_value(s), 0) =~= s);
    } else {
        let rest = s.drop_first();
        lemma_le_bytes_unique(rest);
        let v = le_value(s);
        assert(v % 256 == s[0] as nat);
        assert(v / 256 == le_value(rest));
        assert(le_bytes(v, s.len()) =~= s);
    }
}

/// The first `m` of the `n` bytes of `v` are the `m` bytes of `v`.
pub proof fn lemma_le_bytes_take(v: nat, n: nat, m: nat)
    requires
        m <= n,
    ensures
        le_bytes(v, n).take(m as int) == le_bytes(v, m),
    decreases m,
{
    lemma_le_bytes_len(v, n);
    if m == 0 {
        assert(le_bytes(v, n).take(0) =~= le_bytes(v, 0));
    } else {
        lemma_le_bytes_take(v / 256, (n - 1) as nat, (m - 1) as nat);
        lemma_le_bytes_len(v / 256, (n - 1) as nat);
        lemma_le_bytes_len(v / 256, (m - 1) as nat);
        let a = le_bytes(v / 256, (n - 1) as nat);
        assert(le_bytes(v, n).take(m as int) =~= seq![(v % 256) as u8] + a.take(m - 1));
    }
}

/// A string of `n` bytes denotes a number below `256^n`, big-endian.
pub proof fn lemma_be_value_bound(s: Seq<u8>)
    ensures
        be_value(s) < pow2(8 * s.len()),
    decreases s.len(),
{
    if s.len() == 0 {
        lemma2_to64();
    } else {
        lemma_be_value_bound(s.drop_last());
        lemma_pow2_step8((s.len() - 1) as nat);
    }
}

/// Reading a string big-endian is reading its reverse little-endian.
pub proof fn lemma_be_value_reverse(s: Seq<u8>)
    ensures
        be_value(s) == le_value(s.reverse()),
    decreases s.len(),
{
    if s.len() > 0 {
        lemma_be_value_reverse(s.drop_last());
        assert(s.reverse().drop_first() =~= s.drop_last().reverse());
    }
}

/// The big-endian bytes of a number are its little-endian bytes reversed.
pub proof fn lemma_be_bytes_reverse(v: nat, n: nat)
    ensures
        be_bytes(v, n) == le_bytes(v, n).reverse(),
        be_bytes(v, n).len() == n,
    decreases n,
{
    lemma_le_bytes_len(v, n);
    if n == 0 {
        assert(be_bytes(v, n) =~= le_bytes(v, n).reverse());
    } else {
        lemma_be_bytes_reverse(v / 256, (n - 1) as nat);
        lemma_le_bytes_len(v / 256, (n - 1) as nat);
        assert(be_bytes(v, n) =~= le_bytes(v, n).reverse());
    }
}

/// A number below `256^n` is the value of its `n` big-endian bytes.
pub proof fn lemma_be_bytes_value(v: nat, n: nat)
    requires
        v < pow2(8 * n),
    ensures
        be_value(be_bytes(v, n)) == v,
        be_bytes(v, n).len() == n,
{
    lemma_be_bytes_reverse(v, n);
    lemma_le_bytes_value(v, n);
    lemma_be_value_reverse(be_bytes(v, n));
    assert(le_bytes(v, n).reverse().reverse() =~= le_bytes(v, n));
}

/// A byte string is the big-endian bytes of its value at its own length.
pub proof fn lemma_be_bytes_unique(s: Seq<u8>)
    ensures
        be_bytes(be_value(s), s.len()) == s,
{
    lemma_be_value_reverse(s);
    lemma_le_bytes_unique(s.reverse());
    lemma_be_bytes_reverse(be_value(s), s.len());
    assert(s.reverse().reverse() =~= s);
}

/// The value of a concatenation, big-endian.
pub proof fn lemma_be_value_concat(a: Seq<u8>, b: Seq<u8>)
    ensures
        be_value(a + b) == be_value(a) * pow2(8 * b.len()) + be_value(b),
{
    lemma_be_value_reverse(a + b);
    lemma_be_value_reverse(a);
    lemma_be_value_reverse(b);
    assert((a + b).reverse() =~= b.reverse() + a.reverse());
    lemma_le_value_concat(b.reverse(), a.reverse());
    let p = pow2(8 * b.len()) as int;
    let x = be_value(a) as int;
    assert(p * x == x * p) by (nonlinear_arith);
}

/// The numbers of `n` binary digits are those from `2^(n-1)` up to `2^n`.
pub proof fn lemma_bit_length_bounds(v: nat)
    ensures
        v < pow2(bit_length(v)),
        v > 0 ==> v >= pow2((bit_length(v) - 1) as nat),
    decreases v,
{
    lemma2_to64();
    if v > 0 {
        lemma_bit_length_bounds(v / 2);
        let n = bit_length(v / 2);
        lemma_pow2_adds(1, n);
        if v / 2 > 0 {
            lemma_pow2_adds(1, (n - 1) as nat);
        }
    }
}

/// A number between `2^(n-1)` and `2^n` has `n` binary digits.
pub proof fn lemma_bit_length_unique(v: nat, n: nat)
    requires
        v < pow2(n),
        n > 0 ==> v >= pow2((n - 1) as nat),
    ensures
        bit_length(v) == n,
{
    lemma_bit_length_bounds(v);
    lemma_pow2_pos((n - 1) as nat);
    let m = bit_length(v);
    if m < n {
        lemma_pow2_monotonic(m, (n - 1) as nat);
    } else if m > n {
        lemma_pow2_monotonic(n, (m - 1) as nat);
    }
}

/// A number has at most `n` binary digits exactly when it is below `2^n`.
pub proof fn lemma_bit_length_le(v: nat, n: nat)
    ensures
        bit_length(v) <= n <==> v < pow2(n),
{
    lemma_bit_length_bounds(v);
    let m = bit_length(v);
    if m <= n {
        lemma_pow2_monotonic(m, n);
    } else {
        lemma_pow2_monotonic(n, (m - 1) as nat);
    }
}

/// The one bits at the low end are among the binary digits.
pub proof fn lemma_trailing_ones_bound(v: nat)
    ensures
        trailing_ones(v) <= bit_length(v),
    decreases v,
{
    if v % 2 == 1 {
        lemma_trailing_ones_bound(v / 2);
    }
}

/// The one bits at the low end of a number whose `n` low bits hold `low`:
/// all `n` and those of the rest where `low` is all ones, else those of
/// `low`.
pub proof fn lemma_trailing_ones_split(low: nat, n: nat, high: nat)
    requires
        low < pow2(n),
    ensures
        trailing_ones(low + pow2(n) * high) == if low + 1 == pow2(n) {
            n + trailing_ones(high)
        } else {
            trailing_ones(low)
        },
    decreases n,
{
    lemma2_to64();
    if n == 0 {
        assert(pow2(0) * high == high) by (nonlinear_arith)
            requires
                pow2(0) == 1,
        ;
    } else {
        let m = (n - 1) as nat;
        lemma_pow2_adds(1, m);
        let q = pow2(m) as int;
        let h = high as int;
        let rest = q * h;
        let p = pow2(n) as int;
        assert(p * h == 2 * rest) by (nonlinear_arith)
            requires
                p == 2 * q,
                rest == q * h,
        ;
        assert(rest >= 0) by (nonlinear_arith)
            requires
                rest == q * h,
                q >= 0,
                h >= 0,
        ;
        if low % 2 == 1 {
            lemma_trailing_ones_split(low / 2, m, high);
        }
    }
}

/// The numbers of `n` bytes are those from `256^(n-1)` up to `256^n`.
pub proof fn lemma_byte_length_bounds(v: nat)
    ensures
        v < pow2(8 * byte_length(v)),
        v > 0 ==> v >= pow2((8 * (byte_length(v) - 1)) as nat),
    decreases v,
{
    lemma2_to64();
    if v > 0 {
        lemma_byte_length_bounds(v / 256);
        let n = byte_length(v / 256);
        lemma_pow2_step8(n);
        if v / 256 > 0 {
            lemma_pow2_step8((n - 1) as nat);
        }
    }
}

/// A number has at most `n` bytes exactly when it is below `256^n`.
pub proof fn lemma_byte_length_le(v: nat, n: nat)
    ensures
        byte_length(v) <= n <==> v < pow2(8 * n),
{
    lemma_byte_length_bounds(v);
    let m = byte_length(v);
    if m <= n {
        lemma_pow2_monotonic(8 * m, 8 * n);
    } else {
        lemma_pow2_monotonic(8 * n, (8 * (m - 1)) as nat);
    }
}

/// The length in bytes is the length in bits, rounded up to whole bytes.
pub proof fn lemma_byte_length_of_bits(v: nat)
    ensures
        byte_length(v) == (bit_length(v) + 7) / 8,
{
    lemma_bit_length_bounds(v);
    lemma_byte_length_bounds(v);
    let k = bit_length(v);
    let n = byte_length(v);
    if v > 0 {
        if 8 * n < k {
            lemma_pow2_monotonic(8 * n, (k - 1) as nat);
        }
        if k <= 8 * (n - 1) {
            lemma_pow2_monotonic(k, (8 * (n - 1)) as nat);
        }
    }
}

/// The shortest byte strings of a number denote it, and end in a nonzero byte
/// (little-endian) or begin with one (big-endian).
pub proof fn lemma_minimal(v: nat)
    ensures
        le_minimal(v).len() == byte_length(v),
        be_minimal(v).len() == byte_length(v),
        le_value(le_minimal(v)) == v,
        be_value(be_minimal(v)) == v,
        v > 0 ==> le_minimal(v).last() != 0 && be_minimal(v)[0] != 0,
{
    let n = byte_length(v);
    lemma_byte_length_bounds(v);
    lemma_le_bytes_value(v, n);
    lemma_be_bytes_value(v, n);
    lemma_be_bytes_reverse(v, n);
    if v > 0 {
        let s = le_minimal(v);
        if s.last() == 0 {
            let a = s.drop_last();
            assert(s =~= a + seq![0u8]);
            lemma_le_value_concat(a, seq![0u8]);
            assert(seq![0u8].drop_first() =~= Seq::<u8>::empty());
            assert(le_value(seq![0u8]) == 0) by {
                reveal_with_fuel(le_value, 2);
            }
            lemma_le_value_bound(a);
            assert(pow2(8 * a.len()) * 0 == 0);
        }
    }
}

/// Stripping the leading zero bytes of a string leaves the shortest
/// big-endian string of its value.
pub proof fn lemma_trimmed_is_minimal(s: Seq<u8>)
    ensures
        trimmed(s) == be_minimal(be_value(s)),
    decreases s.len(),
{
    let v = be_value(s);
    if s.len() == 0 {
        assert(be_minimal(0) =~= s);
    } else if s[0] != 0 {
        lemma_be_value_reverse(s);
        lemma_le_value_nonzero(s.reverse(), s.len() - 1);
        lemma_be_value_bound(s);
        lemma_byte_length_le(v, s.len());
        lemma_byte_length_le(v, (s.len() - 1) as nat);
        lemma_be_bytes_unique(s);
    } else {
        let rest = s.drop_first();
        assert(s =~= seq![0u8] + rest);
        lemma_be_value_concat(seq![0u8], rest);
        assert(seq![0u8].drop_last() =~= Seq::<u8>::empty());
        assert(be_value(seq![0u8]) == 0) by {
            reveal_with_fuel(be_value, 2);
        }
        assert(0 * pow2(8 * rest.len()) == 0);
        lemma_trimmed_is_minimal(rest);
    }
}

} // verus!
