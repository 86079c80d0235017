//! The mathematical model of the wire format: what a byte sequence decodes
//! to, and which bytes encode a value.
use vstd::prelude::*;
use vstd::arithmetic::power2::{pow2, lemma_pow2_unfold, lemma_pow2_pos};
use crate::decode::Leb128Error;
use crate::value::Leb128;

verus! {

/// `128` to the power `n`: the weight of group `n`.
pub open spec fn pow128(n: nat) -> nat
    decreases n,
{
    if n == 0 {
        1
    } else {
        128 * pow128((n - 1) as nat)
    }
}

/// The seven value bits of a byte.
pub open spec fn group(b: u8) -> nat {
    (b % 128) as nat
}

/// Whether the continuation flag (bit 7) of a byte is set.
pub open spec fn continues(b: u8) -> bool {
    b >= 128
}

/// The first `n` groups of `s`, least significant first, zero-extended.
pub open spec fn groups_value(s: Seq<u8>, n: nat) -> nat
    decreases n,
{
    if n == 0 {
        0
    } else {
        groups_value(s, (n - 1) as nat) + group(s[n - 1]) * pow128((n - 1) as nat)
    }
}

/// The first `n` groups of `s` read as a two's complement number of `7 * n`
/// bits: the top bit of the last group is the sign.
pub open spec fn signed_groups_value(s: Seq<u8>, n: nat) -> int {
    let u = groups_value(s, n);
    if 2 * u >= pow128(n) {
        u - pow128(n)
    } else {
        u as int
    }
}

/// The first `n` groups of `s`, read for the signed or the unsigned family.
pub open spec fn prefix_value(s: Seq<u8>, n: nat, signed: bool) -> int {
    if signed {
        signed_groups_value(s, n)
    } else {
        groups_value(s, n) as int
    }
}

/// Whether `x` is representable in an integer type of `bits` bits.
pub open spec fn fits(x: int, bits: u32, signed: bool) -> bool {
    if signed {
        -pow2((bits - 1) as nat) <= x < pow2((bits - 1) as nat)
    } else {
        0 <= x < pow2(bits as nat)
    }
}

/// The failure reported when a value does not fit its target type.
pub open spec fn overflow(bits: u32, signed: bool) -> Leb128Error {
    Leb128Error::WidthOverflow { bits, signed }
}

/// The outcome of reading `s` once its first `i` bytes have been taken, each
/// with its continuation flag set and with the value read so far in range:
/// the result (a value and its byte count, or the failure), and how many
/// bytes of `s` have been consumed when it is known.
///
/// The next byte fails the read if the value up to it no longer fits the
/// target type; otherwise it ends the read if its continuation flag is clear.
/// A source that runs out first fails the read as exhausted.
pub open spec fn decode_from(s: Seq<u8>, i: nat, bits: u32, signed: bool) -> (
    Result<(int, nat), Leb128Error>,
    nat,
)
    decreases s.len() - i,
{
    if i >= s.len() {
        (Err(Leb128Error::SourceExhausted), s.len())
    } else if !fits(prefix_value(s, i + 1, signed), bits, signed) {
        (Err(overflow(bits, signed)), i + 1)
    } else if !continues(s[i as int]) {
        (Ok((prefix_value(s, i + 1, signed), i + 1)), i + 1)
    } else {
        decode_from(s, i + 1, bits, signed)
    }
}

/// The outcome of reading one integer from the start of `s`.
pub open spec fn decode(s: Seq<u8>, bits: u32, signed: bool) -> Result<(int, nat), Leb128Error> {
    decode_from(s, 0, bits, signed).0
}

/// How many bytes of `s` one read consumes, whether it succeeds or fails.
pub open spec fn decode_consumed(s: Seq<u8>, bits: u32, signed: bool) -> nat {
    decode_from(s, 0, bits, signed).1
}

/// A read result of a `u64`, with its value taken to `int`.
pub open spec fn lifted_u64(r: Result<Leb128<u64>, Leb128Error>) -> Result<(int, nat), Leb128Error> {
    match r {
        Ok(l) => Ok((l.value as int, l.byte_count as nat)),
        Err(e) => Err(e),
    }
}

/// A read result of an `i64`, with its value taken to `int`.
pub open spec fn lifted_i64(r: Result<Leb128<i64>, Leb128Error>) -> Result<(int, nat), Leb128Error> {
    match r {
        Ok(l) => Ok((l.value as int, l.byte_count as nat)),
        Err(e) => Err(e),
    }
}

/// A read result of a `u32`, with its value taken to `int`.
pub open spec fn lifted_u32(r: Result<Leb128<u32>, Leb128Error>) -> Result<(int, nat), Leb128Error> {
    match r {
        Ok(l) => Ok((l.value as int, l.byte_count as nat)),
        Err(e) => Err(e),
    }
}

/// A read result of an `i32`, with its value taken to `int`.
pub open spec fn lifted_i32(r: Result<Leb128<i32>, Leb128Error>) -> Result<(int, nat), Leb128Error> {
    match r {
        Ok(l) => Ok((l.value as int, l.byte_count as nat)),
        Err(e) => Err(e),
    }
}

/// The non-negative number whose groups carry the information of `v`:
/// `v` itself, or for a negative `v` its bitwise complement `-v - 1`.
pub open spec fn complement(v: int) -> nat {
    if v >= 0 {
        v as nat
    } else {
        (-v - 1) as nat
    }
}

/// Fewest groups that hold `w` zero-extended.
pub open spec fn unsigned_len(w: nat) -> nat
    decreases w,
{
    if w < 128 {
        1
    } else {
        1 + unsigned_len(w / 128)
    }
}

/// Fewest groups that hold `w` with a clear bit above it, so that a sign
/// extension from the last group restores it.
pub open spec fn signed_len(w: nat) -> nat
    decreases w,
{
    if w < 64 {
        1
    } else {
        1 + signed_len(w / 128)
    }
}

/// Length of the shortest encoding of `v`.
pub open spec fn min_len(v: int, signed: bool) -> nat {
    if signed {
        signed_len(complement(v))
    } else {
        unsigned_len(complement(v))
    }
}

/// Group `i` of `v` in two's complement: above the top bit of `v` every group
/// is filled with its sign (all zero or all one bits).
pub open spec fn group_of(v: int, i: nat) -> nat {
    if v >= 0 {
        ((v / pow128(i) as int) % 128) as nat
    } else {
        (127 - (complement(v) / pow128(i)) % 128) as nat
    }
}

/// Number of bytes written for `v` when at least `byte_count` are asked for.
pub open spec fn encoded_len(v: int, byte_count: nat, signed: bool) -> nat {
    if byte_count > min_len(v, signed) {
        byte_count
    } else {
        min_len(v, signed)
    }
}

/// The `n` bytes encoding `v`: its low `n` groups, each but the last with the
/// continuation flag set.
pub open spec fn encoding(v: int, n: nat) -> Seq<u8> {
    Seq::new(n, |i: int| (group_of(v, i as nat) + if i + 1 < n { 128nat } else { 0nat }) as u8)
}


/// Every weight is positive, and `128^n * 128 == 128^(n+1)`.
pub proof fn lemma_pow128(n: nat)
    ensures
        pow128(n) >= 1,
        pow128(n + 1) == 128 * pow128(n),
    decreases n,
{
    if n > 0 {
        lemma_pow128((n - 1) as nat);
    }
}

/// Weights grow with the exponent.
pub proof fn lemma_pow128_mono(a: nat, b: nat)
    requires
        a <= b,
    ensures
        pow128(a) <= pow128(b),
    decreases b - a,
{
    if a < b {
        lemma_pow128_mono(a, (b - 1) as nat);
        lemma_pow128((b - 1) as nat);
    }
}

/// Dividing by the weight of group `c`, then by 128, is dividing by the
/// weight of group `c + 1`.
pub proof fn lemma_shift_group(x: nat, c: nat)
    ensures
        (x / pow128(c)) / 128 == x / pow128(c + 1),
{
    lemma_pow128(c);
    vstd::arithmetic::div_mod::lemma_div_denominator(x as int, pow128(c) as int, 128);
}

/// `w` fits in `c` groups exactly when its shortest unsigned encoding is at
/// most `c` bytes long.
pub proof fn lemma_unsigned_len(w: nat, c: nat)
    requires
        c >= 1,
    ensures
        (w < pow128(c)) <==> (unsigned_len(w) <= c),
    decreases c,
{
    lemma_pow128(c);
    lemma_pow128_mono(1, c);
    if c > 1 && w >= 128 {
        let cm = (c - 1) as nat;
        lemma_unsigned_len(w / 128, cm);
        lemma_pow128(cm);
        assert(w == 128 * (w / 128) + w % 128);
    } else if c == 1 {
        assert(pow128(1) == 128) by {
            lemma_pow128(0);
        }
        if w >= 128 {
            lemma_unsigned_len_pos(w / 128);
        }
    }
}

/// Every encoding has at least one byte.
pub proof fn lemma_unsigned_len_pos(w: nat)
    ensures
        unsigned_len(w) >= 1,
    decreases w,
{
    if w >= 128 {
        lemma_unsigned_len_pos(w / 128);
    }
}

/// Every signed encoding has at least one byte.
pub proof fn lemma_signed_len_pos(w: nat)
    ensures
        signed_len(w) >= 1,
    decreases w,
{
    if w >= 64 {
        lemma_signed_len_pos(w / 128);
    }
}

/// `w` with a clear bit above it fits in `c` groups exactly when its shortest
/// signed encoding is at most `c` bytes long.
pub proof fn lemma_signed_len(w: nat, c: nat)
    requires
        c >= 1,
    ensures
        (2 * w < pow128(c)) <==> (signed_len(w) <= c),
    decreases c,
{
    lemma_pow128(c);
    lemma_pow128_mono(1, c);
    assert(pow128(1) == 128) by {
        lemma_pow128(0);
    }
    if c > 1 && w >= 64 {
        let cm = (c - 1) as nat;
        lemma_signed_len(w / 128, cm);
        lemma_pow128(cm);
        lemma_pow128((cm - 1) as nat);
        assert(w == 128 * (w / 128) + w % 128);
    } else if c == 1 {
        if w >= 64 {
            lemma_signed_len_pos(w / 128);
        }
    }
}

/// `x / p < 64` exactly when `x < 64 * p`.
pub proof fn lemma_div_lt_64(x: nat, p: nat)
    requires
        p >= 1,
    ensures
        (x / p < 64) <==> (x < 64 * p),
{
    let q = x / p;
    let r = x % p;
    assert(x == p * q + r && 0 <= r < p) by {
        vstd::arithmetic::div_mod::lemma_fundamental_div_mod(x as int, p as int);
    }
    if q < 64 {
        assert(p * q <= 63 * p) by (nonlinear_arith)
            requires
                q <= 63,
                p >= 1,
        ;
    } else {
        assert(p * q >= 64 * p) by (nonlinear_arith)
            requires
                q >= 64,
                p >= 1,
        ;
    }
}


/// The first `n` groups are below the weight of group `n`.
pub proof fn lemma_groups_bound(s: Seq<u8>, n: nat)
    ensures
        groups_value(s, n) < pow128(n),
    decreases n,
{
    lemma_pow128(n);
    if n > 0 {
        let m = (n - 1) as nat;
        lemma_groups_bound(s, m);
        lemma_pow128(m);
        let g = group(s[m as int]);
        let p = pow128(m);
        assert(g * p <= 127 * p) by (nonlinear_arith)
            requires
                g <= 127,
        ;
    }
}

/// One more group: its weight times its bits are added.
pub proof fn lemma_groups_step(s: Seq<u8>, n: nat)
    ensures
        groups_value(s, n + 1) == groups_value(s, n) + group(s[n as int]) * pow128(n),
        pow128(n + 1) == 128 * pow128(n),
{
    lemma_pow128(n);
}

/// Once the groups read weigh at least `2^bits`, a value that fits stays in
/// range only if every further group is zero, and then it is unchanged.
pub proof fn lemma_unsigned_padding(s: Seq<u8>, n: nat, bits: u32)
    requires
        pow128(n) >= pow2(bits as nat),
        fits(groups_value(s, n) as int, bits, false),
    ensures
        fits(groups_value(s, n + 1) as int, bits, false) <==> group(s[n as int]) == 0,
        groups_value(s, n + 1) == groups_value(s, n) <==> group(s[n as int]) == 0,
{
    lemma_groups_step(s, n);
    let g = group(s[n as int]);
    let p = pow128(n);
    if g >= 1 {
        assert(g * p >= p) by (nonlinear_arith)
            requires
                g >= 1,
                p >= 1,
        ;
    } else {
        assert(g * p == 0) by (nonlinear_arith)
            requires
                g == 0,
        ;
    }
}

/// Once the groups read weigh at least `2^bits`, a signed value that fits
/// stays in range only if every further group repeats its sign (all one bits
/// for a negative value, all zero bits otherwise), and then it is unchanged.
pub proof fn lemma_signed_padding(s: Seq<u8>, n: nat, bits: u32)
    requires
        1 <= bits,
        pow128(n) >= pow2(bits as nat),
        fits(signed_groups_value(s, n), bits, true),
    ensures
        fits(signed_groups_value(s, n + 1), bits, true) <==> group(s[n as int]) == (if signed_groups_value(
            s,
            n,
        ) < 0 {
            127nat
        } else {
            0nat
        }),
        fits(signed_groups_value(s, n + 1), bits, true) ==> signed_groups_value(s, n + 1)
            == signed_groups_value(s, n),
{
    lemma_groups_step(s, n);
    lemma_groups_bound(s, n);
    lemma_pow2_unfold(bits as nat);
    lemma_pow2_pos((bits - 1) as nat);
    let g = group(s[n as int]);
    let p = pow128(n);
    let gp = g * p;
    if g == 0 {
        assert(gp == 0) by (nonlinear_arith)
            requires
                g == 0,
                gp == g * p,
        ;
    } else if g <= 63 {
        assert(p <= gp <= 63 * p) by (nonlinear_arith)
            requires
                1 <= g <= 63,
                p >= 1,
                gp == g * p,
        ;
    } else if g <= 126 {
        assert(64 * p <= gp <= 126 * p) by (nonlinear_arith)
            requires
                64 <= g <= 126,
                p >= 1,
                gp == g * p,
        ;
    } else {
        assert(gp == 127 * p) by (nonlinear_arith)
            requires
                g == 127,
                gp == g * p,
        ;
    }
}


/// A successful read yields a value of the target type, from at least one
/// byte and no more than the source holds.
pub proof fn lemma_decode_fits(s: Seq<u8>, i: nat, bits: u32, signed: bool)
    ensures
        decode_from(s, i, bits, signed).0 is Ok ==> {
            let (v, k) = decode_from(s, i, bits, signed).0->Ok_0;
            &&& fits(v, bits, signed)
            &&& 1 <= k <= s.len()
            &&& v == prefix_value(s, k, signed)
        },
    decreases s.len() - i,
{
    if i < s.len() && fits(prefix_value(s, i + 1, signed), bits, signed) && continues(s[i as int]) {
        lemma_decode_fits(s, i + 1, bits, signed);
    }
}

} // verus!
