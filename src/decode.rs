//! Reading values from an in-memory byte source.
use vstd::prelude::*;
use vstd::arithmetic::power2::{pow2, lemma_pow2_unfold, lemma2_to64};
use crate::value::Leb128;
use crate::model::{
    decode, decode_consumed, decode_from, fits, groups_value, lemma_decode_fits,
    lemma_groups_bound, lemma_groups_step, lemma_pow128, lemma_signed_padding,
    lemma_unsigned_padding, lifted_i32, lifted_i64, lifted_u32, lifted_u64, pow128,
    signed_groups_value,
};

verus! {

/// Why a read failed.
#[derive(Debug, Clone, Copy, PartialEq, Eq, Structural)]
pub enum Leb128Error {
    /// The source ended before a byte with a clear continuation flag.
    SourceExhausted,
    /// The bytes are well formed but the value does not fit the target type.
    WidthOverflow { bits: u32, signed: bool },
}


/// A sequential byte source over bytes held in memory: reads start at `pos`
/// and advance it.
#[derive(Debug)]
pub struct ByteSource {
    pub bytes: Vec<u8>,
    pub pos: usize,
}

/// Holds when one read from `pre` of an integer of `bits` bits (signed or not)
/// has the outcome `out` and leaves `post`: the bytes are kept and the
/// position moves past every byte consumed, also on failure.
pub open spec fn source_reads(
    pre: ByteSource,
    post: ByteSource,
    out: Result<(int, nat), Leb128Error>,
    bits: u32,
    signed: bool,
) -> bool {
    let s = pre.remaining();
    &&& out == decode(s, bits, signed)
    &&& post.bytes@ == pre.bytes@
    &&& post.pos == if pre.pos <= pre.bytes.len() {
        pre.pos + decode_consumed(s, bits, signed)
    } else {
        pre.pos as int
    }
}

impl ByteSource {
    /// The bytes not read yet.
    pub open spec fn remaining(&self) -> Seq<u8> {
        if self.pos <= self.bytes.len() {
            self.bytes@.subrange(self.pos as int, self.bytes.len() as int)
        } else {
            Seq::empty()
        }
    }

    /// A source positioned at the first of `bytes`.
    pub fn new(bytes: Vec<u8>) -> (r: ByteSource)
        ensures
            r.bytes@ == bytes@,
            r.pos == 0,
            r.remaining() == bytes@,
    {
        let r = ByteSource { bytes, pos: 0 };
        assert(r.remaining() =~= r.bytes@);
        r
    }

    /// Reads an integer of the unsigned family with `bits` bits.
    pub fn read_unsigned(&mut self, bits: u32) -> (r: Result<Leb128<u64>, Leb128Error>)
        requires
            1 <= bits <= 64,
        ensures
            source_reads(*old(self), *final(self), lifted_u64(r), bits, false),
    {
        let ghost s = self.remaining();
        let ghost pre = *self;
        let len = self.bytes.len();
        if self.pos > len {
            return Err(Leb128Error::SourceExhausted);
        }
        let start = self.pos;
        let limit = pow2_u128(bits);
        let mut i: usize = 0;
        let mut acc: u128 = 0;
        let mut pow: u128 = 1;
        let mut big = false;
        proof {
            lemma2_to64();
            vstd::arithmetic::power2::lemma_pow2_strictly_increases(0, bits as nat);
            if bits < 64 {
                vstd::arithmetic::power2::lemma_pow2_strictly_increases(bits as nat, 64);
            }
            assert(pow128(0) == 1);
            assert(groups_value(s, 0) == 0);
        }
        loop
            invariant
                pre == *old(self),
                self.bytes@ == pre.bytes@,
                self.pos == start,
                pre.pos == start,
                len == self.bytes.len(),
                start <= len,
                s == self.bytes@.subrange(start as int, len as int),
                1 <= bits <= 64,
                limit == pow2(bits as nat),
                limit <= 0x10000000000000000,
                start + i <= len,
                decode_from(s, 0, bits, false) == decode_from(s, i as nat, bits, false),
                acc == groups_value(s, i as nat),
                acc < limit,
                big <==> pow128(i as nat) >= limit,
                !big ==> pow == pow128(i as nat),
            decreases len - start - i,
        {
            let ghost n = i as nat;
            if start + i >= len {
                assert(n == s.len());
                self.pos = len;
                return Err(Leb128Error::SourceExhausted);
            }
            let b = self.bytes[start + i];
            let g = (b % 128) as u128;
            proof {
                lemma_groups_step(s, n);
                lemma_pow128(n);
                assert(s[n as int] == b);
            }
            if big {
                proof {
                    lemma_unsigned_padding(s, n, bits);
                }
                if g != 0 {
                    self.pos = start + i + 1;
                    return Err(Leb128Error::WidthOverflow { bits, signed: false });
                }
            } else {
                assert(g * pow <= 127 * pow) by (nonlinear_arith)
                    requires
                        g <= 127,
                ;
                let next = acc + g * pow;
                assert(next == groups_value(s, n + 1));
                if next >= limit {
                    self.pos = start + i + 1;
                    return Err(Leb128Error::WidthOverflow { bits, signed: false });
                }
                acc = next;
                pow = pow * 128;
                big = pow >= limit;
            }
            i = i + 1;
            if b < 128 {
                self.pos = start + i;
                return Ok(Leb128 { value: acc as u64, byte_count: i });
            }
        }
    }

    /// Reads an integer of the signed family with `bits` bits.
    pub fn read_signed(&mut self, bits: u32) -> (r: Result<Leb128<i64>, Leb128Error>)
        requires
            1 <= bits <= 64,
        ensures
            source_reads(*old(self), *final(self), lifted_i64(r), bits, true),
    {
        let ghost s = self.remaining();
        let ghost pre = *self;
        let len = self.bytes.len();
        if self.pos > len {
            return Err(Leb128Error::SourceExhausted);
        }
        let start = self.pos;
        let limit = pow2_u128(bits);
        let half = pow2_u128(bits - 1) as i128;
        let mut i: usize = 0;
        let mut acc: u128 = 0;
        let mut pow: u128 = 1;
        let mut value: i128 = 0;
        let mut big = false;
        proof {
            lemma2_to64();
            lemma_pow2_unfold(bits as nat);
            vstd::arithmetic::power2::lemma_pow2_strictly_increases(0, bits as nat);
            if bits < 64 {
                vstd::arithmetic::power2::lemma_pow2_strictly_increases(bits as nat, 64);
            }
            assert(pow128(0) == 1);
            assert(groups_value(s, 0) == 0);
            assert(signed_groups_value(s, 0) == 0);
        }
        loop
            invariant
                pre == *old(self),
                self.bytes@ == pre.bytes@,
                self.pos == start,
                pre.pos == start,
                len == self.bytes.len(),
                start <= len,
                s == self.bytes@.subrange(start as int, len as int),
                1 <= bits <= 64,
                limit == pow2(bits as nat),
                limit == 2 * half,
                half == pow2((bits - 1) as nat),
                half <= 0x8000000000000000,
                limit <= 0x10000000000000000,
                start + i <= len,
                decode_from(s, 0, bits, true) == decode_from(s, i as nat, bits, true),
                value == signed_groups_value(s, i as nat),
                fits(value as int, bits, true),
                big <==> pow128(i as nat) >= limit,
                !big ==> pow == pow128(i as nat) && acc == groups_value(s, i as nat),
            decreases len - start - i,
        {
            let ghost n = i as nat;
            if start + i >= len {
                assert(n == s.len());
                self.pos = len;
                return Err(Leb128Error::SourceExhausted);
            }
            let b = self.bytes[start + i];
            let g = b % 128;
            proof {
                lemma_groups_step(s, n);
                lemma_groups_bound(s, n);
                lemma_pow128(n);
                assert(s[n as int] == b);
            }
            if big {
                proof {
                    lemma_signed_padding(s, n, bits);
                }
                let fill: u8 = if value < 0 { 127 } else { 0 };
                if g != fill {
                    self.pos = start + i + 1;
                    return Err(Leb128Error::WidthOverflow { bits, signed: true });
                }
            } else {
                assert(g as u128 * pow <= 127 * pow) by (nonlinear_arith)
                    requires
                        g <= 127,
                ;
                let next = acc + g as u128 * pow;
                let next_pow = pow * 128;
                let next_value: i128 = if 2 * next >= next_pow {
                    next as i128 - next_pow as i128
                } else {
                    next as i128
                };
                assert(next_value == signed_groups_value(s, n + 1));
                if next_value < -half || next_value >= half {
                    self.pos = start + i + 1;
                    return Err(Leb128Error::WidthOverflow { bits, signed: true });
                }
                acc = next;
                pow = next_pow;
                value = next_value;
                big = pow >= limit;
            }
            i = i + 1;
            if b < 128 {
                self.pos = start + i;
                return Ok(Leb128 { value: value as i64, byte_count: i });
            }
        }
    }
}

/// A byte source that integers of type `T` can be read from.
pub trait ReadLeb128<T>: Sized {
    /// Holds when one read from `pre` gives `r` and leaves `post`.
    spec fn reads(pre: Self, post: Self, r: Result<Leb128<T>, Leb128Error>) -> bool;

    /// Reads one integer, with the number of bytes it took.
    fn read_leb128(&mut self) -> (r: Result<Leb128<T>, Leb128Error>)
        ensures
            Self::reads(*old(self), *final(self), r),
    ;
}

impl ReadLeb128<u32> for ByteSource {
    open spec fn reads(pre: Self, post: Self, r: Result<Leb128<u32>, Leb128Error>) -> bool {
        source_reads(pre, post, lifted_u32(r), 32, false)
    }

    fn read_leb128(&mut self) -> (r: Result<Leb128<u32>, Leb128Error>) {
        proof {
            lemma2_to64();
            lemma_decode_fits(self.remaining(), 0, 32, false);
        }
        match self.read_unsigned(32) {
            Ok(l) => Ok(Leb128 { value: l.value as u32, byte_count: l.byte_count }),
            Err(e) => Err(e),
        }
    }
}

impl ReadLeb128<i32> for ByteSource {
    open spec fn reads(pre: Self, post: Self, r: Result<Leb128<i32>, Leb128Error>) -> bool {
        source_reads(pre, post, lifted_i32(r), 32, true)
    }

    fn read_leb128(&mut self) -> (r: Result<Leb128<i32>, Leb128Error>) {
        proof {
            lemma2_to64();
            lemma_decode_fits(self.remaining(), 0, 32, true);
        }
        match self.read_signed(32) {
            Ok(l) => Ok(Leb128 { value: l.value as i32, byte_count: l.byte_count }),
            Err(e) => Err(e),
        }
    }
}

impl ReadLeb128<i64> for ByteSource {
    open spec fn reads(pre: Self, post: Self, r: Result<Leb128<i64>, Leb128Error>) -> bool {
        source_reads(pre, post, lifted_i64(r), 64, true)
    }

    fn read_leb128(&mut self) -> (r: Result<Leb128<i64>, Leb128Error>) {
        self.read_signed(64)
    }
}

/// `2` to the power `e`.
fn pow2_u128(e: u32) -> (r: u128)
    requires
        e <= 64,
    ensures
        r == pow2(e as nat),
{
    let mut r: u128 = 1;
    let mut k: u32 = 0;
    proof {
        lemma2_to64();
    }
    while k < e
        invariant
            k <= e <= 64,
            r == pow2(k as nat),
        decreases e - k,
    {
        proof {
            lemma_pow2_unfold((k + 1) as nat);
            vstd::arithmetic::power2::lemma_pow2_strictly_increases(k as nat, 64);
            lemma2_to64();
        }
        r = r * 2;
        k = k + 1;
    }
    r
}

} // verus!
