//! Laws that tie reading and writing together.
use vstd::prelude::*;
use vstd::arithmetic::power2::{lemma_pow2_unfold, lemma_pow2_pos};
use vstd::arithmetic::div_mod::{lemma_basic_div, lemma_fundamental_div_mod, lemma_mod_breakdown};
use crate::decode::Leb128Error;
use crate::model::{
    complement, continues, decode, decode_consumed, decode_from, encoded_len, encoding, fits,
    group, group_of, groups_value, lemma_decode_fits, lemma_groups_bound, lemma_groups_step,
    lemma_pow128, lemma_signed_len, lemma_signed_len_pos, lemma_unsigned_len,
    lemma_unsigned_len_pos, min_len, overflow, pow128, prefix_value,
};

verus! {

/// `x % m` is at most `x`, and below `m`.
proof fn lemma_mod_small(x: nat, m: nat)
    requires
        m >= 1,
    ensures
        x % m <= x,
        x % m < m,
        x < m ==> x % m == x && x / m == 0,
{
    lemma_fundamental_div_mod(x as int, m as int);
    vstd::arithmetic::div_mod::lemma_div_pos_is_pos(x as int, m as int);
    assert((m * (x / m)) >= 0) by (nonlinear_arith)
        requires
            m >= 1,
            x / m >= 0,
    ;
    if x < m {
        lemma_basic_div(x as int, m as int);
    }
}

/// The groups of an encoding: its first `j` groups are `v` modulo `128^j`
/// in two's complement.
proof fn lemma_encoding_groups(v: int, n: nat, tail: Seq<u8>, j: nat)
    requires
        j <= n,
    ensures
        groups_value(encoding(v, n) + tail, j) == if v >= 0 {
            complement(v) % pow128(j)
        } else {
            (pow128(j) - 1 - complement(v) % pow128(j)) as nat
        },
    decreases j,
{
    let e = encoding(v, n) + tail;
    let c = complement(v);
    lemma_pow128(j);
    lemma_mod_small(c, pow128(j));
    if j > 0 {
        let m = (j - 1) as nat;
        let p = pow128(m);
        lemma_encoding_groups(v, n, tail, m);
        lemma_groups_step(e, m);
        lemma_pow128(m);
        lemma_mod_small(c, p);
        lemma_mod_breakdown(c as int, p as int, 128);
        assert(group(e[m as int]) == group_of(v, m));
        assert(p * 128 == pow128(j));
        let q = (c / p) % 128;
        assert(0 <= q < 128);
        if v < 0 {
            assert(((127 - q) * p) == 127 * p - q * p) by (nonlinear_arith);
            assert(group_of(v, m) * p == 127 * p - q * p);
        } else {
            assert(group_of(v, m) == q);
        }
        assert(q * p == p * q) by (nonlinear_arith);
    }
}

/// Each byte of an encoding but the last has its continuation flag set.
proof fn lemma_encoding_flags(v: int, n: nat, tail: Seq<u8>, i: nat)
    requires
        i < n,
    ensures
        continues((encoding(v, n) + tail)[i as int]) <==> i + 1 < n,
        group((encoding(v, n) + tail)[i as int]) == group_of(v, i),
{
}

/// The first `j` groups of an encoding of a value that fits `bits` bits fit
/// too, and all `n` of them give back the value when `n` is long enough.
proof fn lemma_encoding_prefix(v: int, n: nat, tail: Seq<u8>, j: nat, bits: u32, signed: bool)
    requires
        1 <= bits <= 64,
        1 <= j <= n,
        fits(v, bits, signed),
        signed || v >= 0,
    ensures
        fits(prefix_value(encoding(v, n) + tail, j, signed), bits, signed),
        min_len(v, signed) <= j ==> prefix_value(encoding(v, n) + tail, j, signed) == v,
{
    let e = encoding(v, n) + tail;
    let c = complement(v);
    let p = pow128(j);
    lemma_encoding_groups(v, n, tail, j);
    lemma_pow128(j);
    lemma_mod_small(c, p);
    lemma_pow2_unfold(bits as nat);
    lemma_pow2_pos((bits - 1) as nat);
    if signed {
        lemma_signed_len(c, j);
    } else {
        lemma_unsigned_len(c, j);
    }
}

/// Reading an encoding of `v` from byte `i` on gives `v` and its length.
proof fn lemma_decode_encoding(v: int, n: nat, tail: Seq<u8>, i: nat, bits: u32, signed: bool)
    requires
        1 <= bits <= 64,
        i < n,
        fits(v, bits, signed),
        signed || v >= 0,
        min_len(v, signed) <= n,
    ensures
        decode_from(encoding(v, n) + tail, i, bits, signed) == (Ok::<(int, nat), Leb128Error>((v, n)), n),
    decreases n - i,
{
    lemma_encoding_prefix(v, n, tail, i + 1, bits, signed);
    lemma_encoding_flags(v, n, tail, i);
    if i + 1 < n {
        lemma_decode_encoding(v, n, tail, i + 1, bits, signed);
    }
}

/// Round trip: reading what was written for `v` with at least `byte_count`
/// bytes gives back `v` and the number of bytes written, whatever follows it;
/// when `byte_count` is at least the shortest length, that number is
/// `byte_count` itself.
pub proof fn lemma_round_trip(v: int, byte_count: nat, tail: Seq<u8>, bits: u32, signed: bool)
    requires
        1 <= bits <= 64,
        fits(v, bits, signed),
    ensures
        decode(encoding(v, encoded_len(v, byte_count, signed)) + tail, bits, signed) == Ok::<
            (int, nat),
            Leb128Error,
        >((v, encoded_len(v, byte_count, signed))),
        decode_consumed(encoding(v, encoded_len(v, byte_count, signed)) + tail, bits, signed)
            == encoded_len(v, byte_count, signed),
        byte_count >= min_len(v, signed) ==> encoded_len(v, byte_count, signed) == byte_count,
{
    lemma_unsigned_len_pos(complement(v));
    lemma_signed_len_pos(complement(v));
    lemma_decode_encoding(v, encoded_len(v, byte_count, signed), tail, 0, bits, signed);
}

/// Minimality: with a byte count of 0 or 1 the encoding of `v` is its
/// shortest one, and no byte sequence that reads as `v` is shorter.
pub proof fn lemma_shortest(v: int, byte_count: nat, s: Seq<u8>, bits: u32, signed: bool)
    requires
        byte_count <= 1,
        decode(s, bits, signed) is Ok,
        decode(s, bits, signed)->Ok_0.0 == v,
    ensures
        encoded_len(v, byte_count, signed) == min_len(v, signed),
        encoded_len(v, byte_count, signed) <= decode(s, bits, signed)->Ok_0.1,
{
    let k = decode(s, bits, signed)->Ok_0.1;
    let c = complement(v);
    lemma_unsigned_len_pos(c);
    lemma_signed_len_pos(c);
    lemma_decode_fits(s, 0, bits, signed);
    lemma_groups_bound(s, k);
    lemma_pow128(k);
    if signed {
        lemma_signed_len(c, k);
    } else {
        lemma_unsigned_len(c, k);
    }
}

/// Padding: two encodings of `v` at lengths `n1 <= n2`, both at least the
/// shortest, read back as `v` with their own lengths, and differ only in that
/// the longer one sets the flag of the shorter one's last byte and goes on
/// with filler groups: all zero bits for a non-negative `v`, all one bits for
/// a negative one.
pub proof fn lemma_padding(v: int, n1: nat, n2: nat, bits: u32, signed: bool)
    requires
        1 <= bits <= 64,
        fits(v, bits, signed),
        min_len(v, signed) <= n1 <= n2,
    ensures
        decode(encoding(v, n1), bits, signed) == Ok::<(int, nat), Leb128Error>((v, n1)),
        decode(encoding(v, n2), bits, signed) == Ok::<(int, nat), Leb128Error>((v, n2)),
        forall|i: int| 0 <= i < n1 - 1 ==> encoding(v, n2)[i] == encoding(v, n1)[i],
        n1 < n2 ==> encoding(v, n2)[n1 - 1] == encoding(v, n1)[n1 - 1] + 128,
        forall|i: int|
            n1 <= i < n2 ==> group(#[trigger] encoding(v, n2)[i]) == if v < 0 {
                127nat
            } else {
                0nat
            },
{
    let c = complement(v);
    lemma_round_trip(v, n1, Seq::empty(), bits, signed);
    lemma_round_trip(v, n2, Seq::empty(), bits, signed);
    assert(encoding(v, n1) + Seq::<u8>::empty() =~= encoding(v, n1));
    assert(encoding(v, n2) + Seq::<u8>::empty() =~= encoding(v, n2));
    assert forall|i: int| n1 <= i < n2 implies group(#[trigger] encoding(v, n2)[i]) == if v < 0 {
        127nat
    } else {
        0nat
    } by {
        lemma_pow128(i as nat);
        if signed {
            lemma_signed_len(c, i as nat);
        } else {
            lemma_unsigned_len(c, i as nat);
        }
        lemma_mod_small(c, pow128(i as nat));
        vstd::arithmetic::div_mod::lemma_small_mod(0, 128);
    }
}

/// Overflow detection: bytes that end properly but whose value does not fit
/// the target type never read as a value: the read fails with an overflow.
pub proof fn lemma_overflow_detected(s: Seq<u8>, k: nat, bits: u32, signed: bool)
    requires
        1 <= k <= s.len(),
        forall|i: int| 0 <= i < k - 1 ==> continues(s[i]),
        !continues(s[k - 1]),
        !fits(prefix_value(s, k, signed), bits, signed),
    ensures
        decode(s, bits, signed) == Err::<(int, nat), Leb128Error>(overflow(bits, signed)),
{
    lemma_overflow_from(s, k, 0, bits, signed);
}

proof fn lemma_overflow_from(s: Seq<u8>, k: nat, i: nat, bits: u32, signed: bool)
    requires
        i < k <= s.len(),
        forall|j: int| 0 <= j < k - 1 ==> continues(s[j]),
        !fits(prefix_value(s, k, signed), bits, signed),
    ensures
        decode_from(s, i, bits, signed).0 == Err::<(int, nat), Leb128Error>(overflow(bits, signed)),
    decreases k - i,
{
    if i + 1 < k && fits(prefix_value(s, i + 1, signed), bits, signed) {
        lemma_overflow_from(s, k, i + 1, bits, signed);
    }
}


/// Two byte sequences whose first `k` groups have the same value have the
/// same groups.
proof fn lemma_groups_injective(a: Seq<u8>, b: Seq<u8>, k: nat)
    requires
        groups_value(a, k) == groups_value(b, k),
    ensures
        forall|i: int| 0 <= i < k ==> group(#[trigger] a[i]) == group(b[i]),
    decreases k,
{
    if k > 0 {
        let m = (k - 1) as nat;
        let p = pow128(m);
        lemma_groups_step(a, m);
        lemma_groups_step(b, m);
        lemma_groups_bound(a, m);
        lemma_groups_bound(b, m);
        lemma_pow128(m);
        let x = groups_value(a, k) as int;
        vstd::arithmetic::div_mod::lemma_fundamental_div_mod_converse(
            x,
            p as int,
            group(a[m as int]) as int,
            groups_value(a, m) as int,
        );
        vstd::arithmetic::div_mod::lemma_fundamental_div_mod_converse(
            x,
            p as int,
            group(b[m as int]) as int,
            groups_value(b, m) as int,
        );
        lemma_groups_injective(a, b, m);
    }
}

/// A successful read from byte `i` on ends at the first byte from `i` whose
/// continuation flag is clear.
proof fn lemma_decode_flags(s: Seq<u8>, i: nat, bits: u32, signed: bool)
    requires
        decode_from(s, i, bits, signed).0 is Ok,
    ensures
        i < decode_from(s, i, bits, signed).0->Ok_0.1 <= s.len(),
        forall|j: int|
            i <= j < decode_from(s, i, bits, signed).0->Ok_0.1 - 1 ==> continues(#[trigger] s[j]),
        !continues(s[decode_from(s, i, bits, signed).0->Ok_0.1 - 1]),
    decreases s.len() - i,
{
    if i < s.len() && fits(prefix_value(s, i + 1, signed), bits, signed) && continues(s[i as int]) {
        lemma_decode_flags(s, i + 1, bits, signed);
    }
}

/// Re-encoding: the bytes that read as `v` in `k` bytes are exactly the
/// encoding of `v` at length `k`, so writing a read value with its byte count
/// gives back the bytes it was read from.
pub proof fn lemma_reencode(s: Seq<u8>, bits: u32, signed: bool)
    requires
        1 <= bits <= 64,
        decode(s, bits, signed) is Ok,
    ensures
        s.take(decode(s, bits, signed)->Ok_0.1 as int) == encoding(
            decode(s, bits, signed)->Ok_0.0,
            decode(s, bits, signed)->Ok_0.1,
        ),
{
    let v = decode(s, bits, signed)->Ok_0.0;
    let k = decode(s, bits, signed)->Ok_0.1;
    let e = encoding(v, k) + Seq::<u8>::empty();
    lemma_decode_fits(s, 0, bits, signed);
    lemma_decode_flags(s, 0, bits, signed);
    lemma_groups_bound(s, k);
    lemma_pow128(k);
    lemma_encoding_groups(v, k, Seq::empty(), k);
    lemma_mod_small(complement(v), pow128(k));
    assert(groups_value(s, k) == groups_value(e, k));
    lemma_groups_injective(s, e, k);
    assert(e =~= encoding(v, k));
    assert forall|i: int| 0 <= i < k implies s[i] == encoding(v, k)[i] by {
        lemma_encoding_flags(v, k, Seq::empty(), i as nat);
        assert(group(s[i]) == group(e[i]));
    }
    assert(s.take(k as int) =~= encoding(v, k));
}

} // verus!
