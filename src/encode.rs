//! Writing values: the shortest encoding, or one padded to a minimum length.
use vstd::prelude::*;
use crate::value::Leb128;
use crate::model::{
    complement, encoded_len, encoding, lemma_div_lt_64, lemma_pow128, lemma_shift_group,
    lemma_signed_len, lemma_signed_len_pos, lemma_unsigned_len, lemma_unsigned_len_pos, pow128,
    signed_len, unsigned_len,
};

verus! {

/// Holds when writing `v` with at least `byte_count` bytes appended the `n`
/// bytes that encode it to `pre`, giving `post`.
pub open spec fn appends_encoding(
    pre: Seq<u8>,
    post: Seq<u8>,
    v: int,
    byte_count: usize,
    signed: bool,
    n: usize,
) -> bool {
    &&& n == encoded_len(v, byte_count as nat, signed)
    &&& post == pre + encoding(v, n as nat)
}

/// A byte sink that integers of type `T` can be written to.
pub trait WriteLeb128<T>: Sized {
    /// Holds when writing `value` to `pre` leaves `post` and reports `n` bytes.
    spec fn writes(pre: Self, post: Self, value: Leb128<T>, n: usize) -> bool;

    /// Writes `value.value`, using at least `value.byte_count` bytes, and
    /// returns the number of bytes written.
    fn write_leb128(&mut self, value: &Leb128<T>) -> (n: usize)
        ensures
            Self::writes(*old(self), *final(self), *value, n),
    ;
}

/// Appends the encoding of `v` (unsigned family), padded to `byte_count`.
pub fn write_unsigned(sink: &mut Vec<u8>, v: u64, byte_count: usize) -> (n: usize)
    ensures
        appends_encoding(old(sink)@, final(sink)@, v as int, byte_count, false, n),
{
    let ghost n = encoded_len(v as int, byte_count as nat, false);
    let ghost start = sink@;
    proof {
        lemma_unsigned_len_pos(v as nat);
        lemma_unsigned_len(v as nat, 10);
        reveal_with_fuel(pow128, 11);
        assert(unsigned_len(v as nat) <= 10);
        assert(pow128(0) == 1);
        vstd::arithmetic::div_mod::lemma_div_basics(v as int);
    }
    let mut w: u64 = v;
    let mut count: usize = 0;
    let mut more = true;
    while more
        invariant
            1 <= n <= usize::MAX,
            n == encoded_len(v as int, byte_count as nat, false),
            more ==> count < n,
            !more ==> count == n,
            w as nat == v as nat / pow128(count as nat),
            sink@ == start + encoding(v as int, n).take(count as int),
        decreases n - count,
    {
        let ghost c = count as nat;
        let r: u64 = w % 128;
        w = w / 128;
        count = count + 1;
        more = w != 0 || count < byte_count;
        let b: u8 = if more { r as u8 + 128 } else { r as u8 };
        proof {
            lemma_shift_group(v as nat, c);
            lemma_unsigned_len(v as nat, c + 1);
            lemma_pow128(c + 1);
            assert(w == 0 <==> v < pow128(c + 1)) by {
                vstd::arithmetic::div_mod::lemma_div_pos_is_pos(v as int, pow128(c + 1) as int);
                if v >= pow128(c + 1) {
                    vstd::arithmetic::div_mod::lemma_div_non_zero(v as int, pow128(c + 1) as int);
                } else {
                    vstd::arithmetic::div_mod::lemma_basic_div(v as int, pow128(c + 1) as int);
                }
            }
        }
        sink.push(b);
        proof {
            assert(b == encoding(v as int, n)[c as int]);
            assert(sink@ =~= start + encoding(v as int, n).take(count as int));
        }
    }
    proof {
        assert(encoding(v as int, n).take(n as int) =~= encoding(v as int, n));
    }
    count
}


/// Appends the encoding of `v` (signed family), padded to `byte_count`.
///
/// Groups are taken from `v`'s complement when `v` is negative, which is the
/// same as shifting `v` right with sign extension: the groups above its top
/// bit are all one bits, as they are all zero bits for a non-negative `v`.
pub fn write_signed(sink: &mut Vec<u8>, v: i64, byte_count: usize) -> (n: usize)
    ensures
        appends_encoding(old(sink)@, final(sink)@, v as int, byte_count, true, n),
{
    let ghost n = encoded_len(v as int, byte_count as nat, true);
    let ghost start = sink@;
    let ghost x = complement(v as int);
    let neg = v < 0;
    let mut w: u64 = if neg { (-(v + 1)) as u64 } else { v as u64 };
    proof {
        lemma_signed_len_pos(x);
        lemma_signed_len(x, 10);
        reveal_with_fuel(pow128, 11);
        assert(signed_len(x) <= 10);
        assert(pow128(0) == 1);
        vstd::arithmetic::div_mod::lemma_div_basics(x as int);
    }
    let mut count: usize = 0;
    let mut more = true;
    while more
        invariant
            1 <= n <= usize::MAX,
            n == encoded_len(v as int, byte_count as nat, true),
            x == complement(v as int),
            neg == (v < 0),
            more ==> count < n,
            !more ==> count == n,
            w as nat == x / pow128(count as nat),
            sink@ == start + encoding(v as int, n).take(count as int),
        decreases n - count,
    {
        let ghost c = count as nat;
        let r: u64 = w % 128;
        w = w / 128;
        count = count + 1;
        more = w != 0 || r >= 64 || count < byte_count;
        let g: u8 = if neg { (127 - r) as u8 } else { r as u8 };
        let b: u8 = if more { g + 128 } else { g };
        proof {
            lemma_shift_group(x, c);
            lemma_signed_len(x, c + 1);
            lemma_pow128(c);
            lemma_div_lt_64(x, pow128(c));
        }
        sink.push(b);
        proof {
            assert(b == encoding(v as int, n)[c as int]);
            assert(sink@ =~= start + encoding(v as int, n).take(count as int));
        }
    }
    proof {
        assert(encoding(v as int, n).take(n as int) =~= encoding(v as int, n));
    }
    count
}


impl WriteLeb128<u32> for Vec<u8> {
    open spec fn writes(pre: Self, post: Self, value: Leb128<u32>, n: usize) -> bool {
        appends_encoding(pre@, post@, value.value as int, value.byte_count, false, n)
    }

    fn write_leb128(&mut self, value: &Leb128<u32>) -> (n: usize) {
        write_unsigned(self, value.value as u64, value.byte_count)
    }
}

impl WriteLeb128<i32> for Vec<u8> {
    open spec fn writes(pre: Self, post: Self, value: Leb128<i32>, n: usize) -> bool {
        appends_encoding(pre@, post@, value.value as int, value.byte_count, true, n)
    }

    fn write_leb128(&mut self, value: &Leb128<i32>) -> (n: usize) {
        write_signed(self, value.value as i64, value.byte_count)
    }
}

impl WriteLeb128<i64> for Vec<u8> {
    open spec fn writes(pre: Self, post: Self, value: Leb128<i64>, n: usize) -> bool {
        appends_encoding(pre@, post@, value.value as int, value.byte_count, true, n)
    }

    fn write_leb128(&mut self, value: &Leb128<i64>) -> (n: usize) {
        write_signed(self, value.value, value.byte_count)
    }
}

} // verus!
