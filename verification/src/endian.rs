//! Reassembling multi-byte integers in either byte order.

use vstd::prelude::*;

verus! {

/// 256 to the power `n`.
pub open spec fn pow256(n: nat) -> nat
    decreases n,
{
    if n == 0 {
        1
    } else {
        256 * pow256((n - 1) as nat)
    }
}

/// The number that `bytes` spell with the least significant byte first.
pub open spec fn le_value(bytes: Seq<u8>) -> nat
    decreases bytes.len(),
{
    if bytes.len() == 0 {
        0
    } else {
        bytes[0] as nat + 256 * le_value(bytes.drop_first())
    }
}

/// The number that `bytes` spell with the most significant byte first.
pub open spec fn be_value(bytes: Seq<u8>) -> nat
    decreases bytes.len(),
{
    if bytes.len() == 0 {
        0
    } else {
        256 * be_value(bytes.drop_last()) + bytes.last() as nat
    }
}

/// The unsigned number that `bytes` spell in the given byte order.
pub open spec fn unsigned_value(bytes: Seq<u8>, big_endian: bool) -> nat {
    if big_endian {
        be_value(bytes)
    } else {
        le_value(bytes)
    }
}

/// Reads an unsigned number of `width` bytes as a two's complement number.
pub open spec fn twos_complement(raw: nat, width: nat) -> int {
    if 2 * raw >= pow256(width) {
        raw - pow256(width)
    } else {
        raw as int
    }
}

/// The small powers of 256, as numbers.
pub proof fn lemma_pow256_values()
    ensures
        pow256(0) == 1,
        pow256(1) == 0x100,
        pow256(2) == 0x1_0000,
        pow256(3) == 0x100_0000,
        pow256(4) == 0x1_0000_0000,
        pow256(5) == 0x100_0000_0000,
        pow256(6) == 0x1_0000_0000_0000,
        pow256(7) == 0x100_0000_0000_0000,
        pow256(8) == 0x1_0000_0000_0000_0000,
{
    reveal_with_fuel(pow256, 10);
}

/// A big-endian number of `n` bytes is below 256 to the `n`.
pub proof fn lemma_be_bound(bytes: Seq<u8>)
    ensures
        be_value(bytes) < pow256(bytes.len()),
    decreases bytes.len(),
{
    if bytes.len() > 0 {
        lemma_be_bound(bytes.drop_last());
    }
}

/// A little-endian number of `n` bytes is below 256 to the `n`.
pub proof fn lemma_le_bound(bytes: Seq<u8>)
    ensures
        le_value(bytes) < pow256(bytes.len()),
    decreases bytes.len(),
{
    if bytes.len() > 0 {
        lemma_le_bound(bytes.drop_first());
    }
}

/// Reading bytes least significant first is reading their reversal most
/// significant first.
pub proof fn lemma_le_is_be_reversed(bytes: Seq<u8>)
    ensures
        le_value(bytes) == be_value(bytes.reverse()),
    decreases bytes.len(),
{
    if bytes.len() > 0 {
        let rev = bytes.reverse();
        assert(rev.last() == bytes[0]);
        assert(rev.drop_last() =~= bytes.drop_first().reverse());
        lemma_le_is_be_reversed(bytes.drop_first());
    }
}

/// Two byte strings of one length that spell the same big-endian number are equal.
pub proof fn lemma_be_injective(a: Seq<u8>, b: Seq<u8>)
    requires
        a.len() == b.len(),
        be_value(a) == be_value(b),
    ensures
        a == b,
    decreases a.len(),
{
    if a.len() > 0 {
        let x = be_value(a.drop_last());
        let y = be_value(b.drop_last());
        assert(256 * x + a.last() as nat == 256 * y + b.last() as nat);
        assert(x == y && a.last() == b.last());
        lemma_be_injective(a.drop_last(), b.drop_last());
        assert(a =~= a.drop_last().push(a.last()));
        assert(b =~= b.drop_last().push(b.last()));
    } else {
        assert(a =~= b);
    }
}

/// The two byte orders agree on `bytes` exactly when `bytes` reads the same
/// in both directions.
pub proof fn lemma_orders_agree_iff_palindrome(bytes: Seq<u8>)
    ensures
        le_value(bytes) == be_value(bytes) <==> bytes == bytes.reverse(),
{
    lemma_le_is_be_reversed(bytes);
    if le_value(bytes) == be_value(bytes) {
        lemma_be_injective(bytes.reverse(), bytes);
    }
}

/// Reads `width` bytes at `start` as an unsigned number in the given byte order.
pub fn read_unsigned(bytes: &[u8], start: usize, width: usize, big_endian: bool) -> (raw: u64)
    requires
        width <= 8,
        start + width <= bytes@.len(),
    ensures
        raw == unsigned_value(bytes@.subrange(start as int, start + width), big_endian),
        raw < pow256(width as nat),
{
    let ghost field = bytes@.subrange(start as int, start + width);
    let mut acc: u64 = 0;
    let mut i: usize = 0;
    proof {
        lemma_pow256_values();
        assert(bytes@.len() == bytes.len());
    }
    if big_endian {
        while i < width
            invariant
                i <= width <= 8,
                start + width <= bytes@.len() <= usize::MAX,
                field == bytes@.subrange(start as int, start + width),
                acc == be_value(field.take(i as int)),
                acc < pow256(i as nat),
            decreases width - i,
        {
            proof {
                lemma_pow256_values();
                assert(field.take(i + 1).drop_last() =~= field.take(i as int));
                assert(field.take(i + 1).last() == bytes@[start + i]);
                assert(pow256((i + 1) as nat) == 256 * pow256(i as nat));
            }
            acc = acc * 256 + bytes[start + i] as u64;
            i = i + 1;
        }
        proof {
            assert(field.take(width as int) =~= field);
        }
    } else {
        while i < width
            invariant
                i <= width <= 8,
                start + width <= bytes@.len() <= usize::MAX,
                field == bytes@.subrange(start as int, start + width),
                acc == le_value(field.skip(width - i)),
                acc < pow256(i as nat),
            decreases width - i,
        {
            proof {
                lemma_pow256_values();
                assert(field.skip(width - i - 1).drop_first() =~= field.skip(width - i));
                assert(field.skip(width - i - 1)[0] == bytes@[start + width - i - 1]);
                assert(pow256((i + 1) as nat) == 256 * pow256(i as nat));
            }
            acc = acc * 256 + bytes[start + width - i - 1] as u64;
            i = i + 1;
        }
        proof {
            assert(field.skip(0) =~= field);
        }
    }
    acc
}

} // verus!
