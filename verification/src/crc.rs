//! The 16-bit checksum that covers a FIT header and a FIT file.
//!
//! The checksum is folded over the input one byte at a time, each byte as two
//! nibbles, through a table of sixteen entries.

use vstd::prelude::*;

verus! {

/// The entry of the nibble table at index `i` (only the low four bits of `i`
/// are ever used as an index).
pub open spec fn table_entry(i: u16) -> u16 {
    if i == 0 {
        0x0000
    } else if i == 1 {
        0xCC01
    } else if i == 2 {
        0xD801
    } else if i == 3 {
        0x1400
    } else if i == 4 {
        0xF001
    } else if i == 5 {
        0x3C00
    } else if i == 6 {
        0x2800
    } else if i == 7 {
        0xE401
    } else if i == 8 {
        0xA001
    } else if i == 9 {
        0x6C00
    } else if i == 10 {
        0x7800
    } else if i == 11 {
        0xB401
    } else if i == 12 {
        0x5000
    } else if i == 13 {
        0x9C01
    } else if i == 14 {
        0x8801
    } else {
        0x4400
    }
}

/// Folds one nibble into the running checksum.
pub open spec fn fold_nibble(crc: u16, nibble: u16) -> u16 {
    ((crc >> 4) & 0x0FFF) ^ table_entry(crc & 0xF) ^ table_entry(nibble)
}

/// Folds one byte into the running checksum: low nibble first, then the high one.
pub open spec fn crc_step(crc: u16, byte: u8) -> u16 {
    fold_nibble(fold_nibble(crc, (byte & 0xF) as u16), ((byte >> 4) & 0xF) as u16)
}

/// The running checksum `crc` after `bytes` have been fed to it in order.
pub open spec fn crc_fold(crc: u16, bytes: Seq<u8>) -> u16
    decreases bytes.len(),
{
    if bytes.len() == 0 {
        crc
    } else {
        crc_step(crc_fold(crc, bytes.drop_last()), bytes.last())
    }
}

/// The checksum of a whole byte sequence, starting from zero.
pub open spec fn checksum(bytes: Seq<u8>) -> u16 {
    crc_fold(0, bytes)
}

/// Feeding `a` and then `b` gives the same checksum as feeding `a + b` at once.
pub proof fn lemma_crc_fold_concat(crc: u16, a: Seq<u8>, b: Seq<u8>)
    ensures
        crc_fold(crc, a + b) == crc_fold(crc_fold(crc, a), b),
    decreases b.len(),
{
    if b.len() == 0 {
        assert(a + b =~= a);
    } else {
        assert((a + b).drop_last() =~= a + b.drop_last());
        assert((a + b).last() == b.last());
        lemma_crc_fold_concat(crc, a, b.drop_last());
    }
}

/// Feeding one more byte extends the checksum of a prefix by one step.
pub proof fn lemma_crc_fold_push(crc: u16, bytes: Seq<u8>, byte: u8)
    ensures
        crc_fold(crc, bytes.push(byte)) == crc_step(crc_fold(crc, bytes), byte),
{
    assert(bytes.push(byte).drop_last() =~= bytes);
}

fn table_lookup(i: u16) -> (entry: u16)
    requires
        i < 16,
    ensures
        entry == table_entry(i),
{
    if i == 0 {
        0x0000
    } else if i == 1 {
        0xCC01
    } else if i == 2 {
        0xD801
    } else if i == 3 {
        0x1400
    } else if i == 4 {
        0xF001
    } else if i == 5 {
        0x3C00
    } else if i == 6 {
        0x2800
    } else if i == 7 {
        0xE401
    } else if i == 8 {
        0xA001
    } else if i == 9 {
        0x6C00
    } else if i == 10 {
        0x7800
    } else if i == 11 {
        0xB401
    } else if i == 12 {
        0x5000
    } else if i == 13 {
        0x9C01
    } else if i == 14 {
        0x8801
    } else {
        0x4400
    }
}

fn fold_nibble_exec(crc: u16, nibble: u16) -> (next: u16)
    requires
        nibble < 16,
    ensures
        next == fold_nibble(crc, nibble),
{
    let low: u16 = crc & 0xF;
    assert(low < 16) by (bit_vector)
        requires
            low == crc & 0xF,
    ;
    ((crc >> 4) & 0x0FFF) ^ table_lookup(low) ^ table_lookup(nibble)
}

/// Folds one byte into a running checksum.
pub fn update_crc(crc: u16, byte: u8) -> (next: u16)
    ensures
        next == crc_step(crc, byte),
{
    let low: u8 = byte & 0xF;
    let high: u8 = (byte >> 4) & 0xF;
    assert(low < 16 && high < 16) by (bit_vector)
        requires
            low == byte & 0xF,
            high == (byte >> 4) & 0xF,
    ;
    let first = fold_nibble_exec(crc, low as u16);
    fold_nibble_exec(first, high as u16)
}

/// Folds `bytes[from..to]` into a running checksum.
pub fn update_crc_range(crc: u16, bytes: &[u8], from: usize, to: usize) -> (next: u16)
    requires
        from <= to <= bytes@.len(),
    ensures
        next == crc_fold(crc, bytes@.subrange(from as int, to as int)),
{
    let mut current: u16 = crc;
    let mut i: usize = from;
    while i < to
        invariant
            from <= i <= to <= bytes@.len(),
            current == crc_fold(crc, bytes@.subrange(from as int, i as int)),
        decreases to - i,
    {
        proof {
            lemma_crc_fold_push(crc, bytes@.subrange(from as int, i as int), bytes@[i as int]);
            assert(bytes@.subrange(from as int, i as int).push(bytes@[i as int])
                =~= bytes@.subrange(from as int, i + 1));
        }
        current = update_crc(current, bytes[i]);
        i = i + 1;
    }
    current
}

/// The checksum of a whole buffer.
pub fn calculate_crc(bytes: &[u8]) -> (crc: u16)
    ensures
        crc == checksum(bytes@),
{
    proof {
        assert(bytes@.subrange(0, bytes@.len() as int) =~= bytes@);
    }
    update_crc_range(0, bytes, 0, bytes.len())
}

} // verus!
