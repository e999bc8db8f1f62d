//! The self-delimiting integer that record fields are packed with.
//!
//! The leading one-bits of the first byte count the bytes that follow it.
//! Those bytes spell a number, most significant byte first. Where one to four
//! bytes follow, the bits of the first byte below its prefix are placed above
//! them; where more follow, the first byte adds nothing.

use crate::store::cursor::Cursor;
use crate::store::error::Error;
use vstd::prelude::*;
use vstd::std_specs::bits::u8_leading_zeros;

verus! {

/// The number of one-bits at the top of `b`, before its first zero-bit.
pub open spec fn leading_ones(b: u8) -> nat {
    if b < 0x80 {
        0
    } else if b < 0xc0 {
        1
    } else if b < 0xe0 {
        2
    } else if b < 0xf0 {
        3
    } else if b < 0xf8 {
        4
    } else if b < 0xfc {
        5
    } else if b < 0xfe {
        6
    } else if b < 0xff {
        7
    } else {
        8
    }
}

/// `256` to the power `n`: the weight of the byte that `n` bytes follow.
pub open spec fn pow256(n: nat) -> nat
    decreases n,
{
    if n == 0 {
        1
    } else {
        256 * pow256((n - 1) as nat)
    }
}

/// The number that `bytes` spell, most significant byte first: byte `i` of
/// `n` weighs `pow256(n - 1 - i)`.
pub open spec fn be_value(bytes: Seq<u8>) -> nat
    decreases bytes.len(),
{
    if bytes.len() == 0 {
        0
    } else {
        be_value(bytes.drop_last()) * 256 + bytes.last() as nat
    }
}

/// What the first byte adds above the `extra` bytes that follow it: its bits
/// below the prefix where `extra` is one to four, nothing otherwise.
pub open spec fn residual(first: u8, extra: nat) -> nat {
    if extra == 1 {
        (first % 0x80) as nat
    } else if extra == 2 {
        (first % 0x40) as nat
    } else if extra == 3 {
        (first % 0x20) as nat
    } else if extra == 4 {
        (first % 0x10) as nat
    } else {
        0
    }
}

/// What the first byte adds to the value, at its place above the bytes that
/// follow it.
pub open spec fn prefix_value(first: u8) -> nat {
    residual(first, leading_ones(first)) * pow256(leading_ones(first))
}

/// The number of bytes of the encoding that starts with `first`.
pub open spec fn var_int_len(first: u8) -> nat {
    1 + leading_ones(first)
}

/// The value of the encoding made of `first` and the bytes `tail` after it.
pub open spec fn var_int_value(first: u8, tail: Seq<u8>) -> nat
    recommends
        tail.len() == leading_ones(first),
{
    let extra = leading_ones(first);
    if extra == 0 {
        first as nat
    } else {
        be_value(tail) + prefix_value(first)
    }
}

/// The integer at the front of `bytes` with the length of its encoding, or
/// `None` where `bytes` end before the encoding does.
pub open spec fn decode_var_int(bytes: Seq<u8>) -> Option<(u64, usize)> {
    if bytes.len() == 0 || bytes.len() < var_int_len(bytes[0]) {
        None
    } else {
        let len = var_int_len(bytes[0]);
        Some((var_int_value(bytes[0], bytes.subrange(1, len as int)) as u64, len as usize))
    }
}

/// Bytes spell a number below the weight of one more byte.
pub proof fn lemma_be_value_bound(bytes: Seq<u8>)
    ensures
        be_value(bytes) < pow256(bytes.len()),
    decreases bytes.len(),
{
    if bytes.len() > 0 {
        lemma_be_value_bound(bytes.drop_last());
    }
}

/// What the first byte adds, for each number of bytes that follow it:
/// nothing where more than four do.
pub proof fn lemma_prefix_value(first: u8)
    ensures
        leading_ones(first) == 1 ==> prefix_value(first) == (first % 0x80) * 0x100,
        leading_ones(first) == 2 ==> prefix_value(first) == (first % 0x40) * 0x1_0000,
        leading_ones(first) == 3 ==> prefix_value(first) == (first % 0x20) * 0x100_0000,
        leading_ones(first) == 4 ==> prefix_value(first) == (first % 0x10) * 0x1_0000_0000,
        leading_ones(first) > 4 ==> prefix_value(first) == 0,
{
    reveal_with_fuel(pow256, 5);
    let extra = leading_ones(first);
    if extra == 1 {
        assert(residual(first, extra) * pow256(extra) == (first % 0x80) * 0x100);
    } else if extra == 2 {
        assert(residual(first, extra) * pow256(extra) == (first % 0x40) * 0x1_0000);
    } else if extra == 3 {
        assert(residual(first, extra) * pow256(extra) == (first % 0x20) * 0x100_0000);
    } else if extra == 4 {
        assert(residual(first, extra) * pow256(extra) == (first % 0x10) * 0x1_0000_0000);
    } else {
        assert(residual(first, extra) == 0);
        assert(residual(first, extra) * pow256(extra) == 0);
    }
}

/// An encoding is one to nine bytes long and its value fits in 64 bits.
pub proof fn lemma_var_int_bounds(first: u8, tail: Seq<u8>)
    requires
        tail.len() == leading_ones(first),
    ensures
        1 <= var_int_len(first) <= 9,
        var_int_value(first, tail) <= u64::MAX,
{
    lemma_be_value_bound(tail);
    lemma_prefix_value(first);
    reveal_with_fuel(pow256, 9);
}

/// The leading zero-bits of the complement are the leading one-bits.
proof fn lemma_complement_leading_zeros(b: u8)
    ensures
        u8_leading_zeros(!b) == leading_ones(b),
{
    let x: u8 = !b;
    let k: u32 = u8_leading_zeros(x);
    if k == 0 {
        assert(b < 0x80) by (bit_vector)
            requires
                x == !b,
                (x >> 7u8) & 1u8 != 0u8,
        ;
    } else if k == 1 {
        assert(0x80 <= b < 0xc0) by (bit_vector)
            requires
                x == !b,
                (x >> 6u8) & 1u8 != 0u8,
                x >> 7u8 == 0u8,
        ;
    } else if k == 2 {
        assert(0xc0 <= b < 0xe0) by (bit_vector)
            requires
                x == !b,
                (x >> 5u8) & 1u8 != 0u8,
                x >> 6u8 == 0u8,
        ;
    } else if k == 3 {
        assert(0xe0 <= b < 0xf0) by (bit_vector)
            requires
                x == !b,
                (x >> 4u8) & 1u8 != 0u8,
                x >> 5u8 == 0u8,
        ;
    } else if k == 4 {
        assert(0xf0 <= b < 0xf8) by (bit_vector)
            requires
                x == !b,
                (x >> 3u8) & 1u8 != 0u8,
                x >> 4u8 == 0u8,
        ;
    } else if k == 5 {
        assert(0xf8 <= b < 0xfc) by (bit_vector)
            requires
                x == !b,
                (x >> 2u8) & 1u8 != 0u8,
                x >> 3u8 == 0u8,
        ;
    } else if k == 6 {
        assert(0xfc <= b < 0xfe) by (bit_vector)
            requires
                x == !b,
                (x >> 1u8) & 1u8 != 0u8,
                x >> 2u8 == 0u8,
        ;
    } else if k == 7 {
        assert(b == 0xfe) by (bit_vector)
            requires
                x == !b,
                (x >> 0u8) & 1u8 != 0u8,
                x >> 1u8 == 0u8,
        ;
    } else {
        assert(b == 0xff) by (bit_vector)
            requires
                x == !b,
                x == 0u8,
        ;
    }
}

/// Shifting the prefix out at the top and back in, then up by the bytes
/// that follow, puts the first byte's share in its place.
proof fn lemma_fold_prefix(first: u8, extra: u32)
    requires
        extra == leading_ones(first),
        1 <= extra <= 4,
    ensures
        (((first << extra) >> extra) as u64) << ((extra * 8) as u32) == prefix_value(first),
{
    lemma_prefix_value(first);
    let shift: u32 = (extra * 8) as u32;
    assert(extra == 1 && shift == 8 ==> (((first << extra) >> extra) as u64) << shift == (first
        % 0x80) * 0x100) by (bit_vector);
    assert(extra == 2 && shift == 16 ==> (((first << extra) >> extra) as u64) << shift == (first
        % 0x40) * 0x1_0000) by (bit_vector);
    assert(extra == 3 && shift == 24 ==> (((first << extra) >> extra) as u64) << shift == (first
        % 0x20) * 0x100_0000) by (bit_vector);
    assert(extra == 4 && shift == 32 ==> (((first << extra) >> extra) as u64) << shift == (first
        % 0x10) * 0x1_0000_0000) by (bit_vector);
}

/// Reads one integer at the cursor and returns it with the number of bytes
/// it took: one more than the first byte has leading one-bits. Where the
/// data end before the encoding does, the read fails with `TruncatedVarInt`
/// and leaves nothing to read.
pub fn read_var_int(cursor: &mut Cursor) -> (r: Result<(u64, usize), Error>)
    ensures
        match decode_var_int(old(cursor)@.remaining()) {
            Some(decoded) => r == Ok::<(u64, usize), Error>(decoded) && final(cursor)@ == old(
                cursor,
            )@.advance(decoded.1 as nat),
            None => r == Err::<(u64, usize), Error>(Error::TruncatedVarInt) && final(cursor)@
                == old(cursor)@.exhausted(),
        },
        r matches Ok((value, len)) ==> {
            let first = old(cursor)@.remaining()[0];
            &&& len == 1 + leading_ones(first)
            &&& 1 <= len <= 9
            &&& leading_ones(first) == 0 ==> value == first
        },
        r is Err <==> old(cursor)@.remaining().len() == 0 || old(cursor)@.remaining().len() < 1
            + leading_ones(old(cursor)@.remaining()[0]),
{
    let ghost start = cursor@;
    let ghost input = start.remaining();
    let num: u8 = match cursor.read_u8() {
        Ok(b) => b,
        Err(_) => {
            return Err(Error::TruncatedVarInt);
        },
    };
    let mut read: usize = 1;

    // The leading ones of the byte are the leading zeros of its complement.
    let extra: u32 = (!num).leading_zeros();
    proof {
        lemma_complement_leading_zeros(num);
    }

    if extra == 0 {
        assert(input.subrange(1, 1) =~= Seq::<u8>::empty());
        return Ok((num as u64, read));
    }
    let mut result: u64 = 0;
    let mut i: u32 = 0;
    while i < extra
        invariant
            i <= extra <= 8,
            read == 1 + i,
            input == start.remaining(),
            input.len() >= 1 + i,
            cursor@ == start.advance((1 + i) as nat),
            result == be_value(input.subrange(1, 1 + i)),
            start == old(cursor)@,
            extra == leading_ones(input[0]),
        decreases extra - i,
    {
        let b: u8 = match cursor.read_u8() {
            Ok(b) => b,
            Err(_) => {
                return Err(Error::TruncatedVarInt);
            },
        };
        proof {
            let next = input.subrange(1, 2 + i);
            assert(next.drop_last() =~= input.subrange(1, 1 + i));
            assert(next.last() == b);
            lemma_be_value_bound(input.subrange(1, 1 + i));
            reveal_with_fuel(pow256, 9);
        }
        result = result * 256 + b as u64;
        read = read + 1;
        i = i + 1;
    }

    let ghost tail = input.subrange(1, 1 + extra);
    proof {
        lemma_var_int_bounds(num, tail);
        lemma_prefix_value(num);
    }
    // Fold the bits of the first byte below its prefix in above the others.
    if extra <= 4 {
        let additional: u8 = (num << extra) >> extra;
        proof {
            lemma_fold_prefix(num, extra);
        }
        result = result + ((additional as u64) << (extra * 8));
    }
    assert(result == var_int_value(num, tail));
    Ok((result, read))
}

} // verus!
