//! CRC-32 over byte sequences: the reflected, table-driven variant with
//! polynomial 0xEDB88320 and initial/final XOR 0xFFFFFFFF.

use vstd::prelude::*;

verus! {

/// One shift-and-conditionally-XOR round of the table construction.
pub open spec fn crc_round(c: u32) -> u32 {
    if c & 1 != 0 {
        0xedb88320u32 ^ (c >> 1)
    } else {
        c >> 1
    }
}

/// `n` rounds of `crc_round` applied to `c`.
pub open spec fn crc_rounds(c: u32, n: nat) -> u32
    decreases n,
{
    if n == 0 {
        c
    } else {
        crc_round(crc_rounds(c, (n - 1) as nat))
    }
}

/// The table entry for index `n`: 8 rounds applied to `n`.
pub open spec fn crc_table_entry(n: u8) -> u32 {
    crc_rounds(n as u32, 8)
}

/// Folds one byte into the running register.
pub open spec fn crc_update(crc: u32, byte: u8) -> u32 {
    crc_table_entry(((crc ^ (byte as u32)) & 0xff) as u8) ^ (crc >> 8)
}

/// Folds a whole byte sequence into the running register, first byte first.
pub open spec fn crc_fold(acc: u32, bytes: Seq<u8>) -> u32
    decreases bytes.len(),
{
    if bytes.len() == 0 {
        acc
    } else {
        crc_fold(crc_update(acc, bytes[0]), bytes.drop_first())
    }
}

/// The CRC-32 of a byte sequence: register starts at 0xFFFFFFFF, every byte
/// is folded in, and the result is XORed with 0xFFFFFFFF.
pub open spec fn spec_crc32(bytes: Seq<u8>) -> u32 {
    crc_fold(0xffffffffu32, bytes) ^ 0xffffffffu32
}

/// Builds the 256-entry lookup table.
fn build_crc_table() -> (table: Vec<u32>)
    ensures
        table@.len() == 256,
        forall|k: int| 0 <= k < 256 ==> table@[k] == crc_table_entry(k as u8),
{
    let mut table: Vec<u32> = Vec::new();
    let mut n: usize = 0;
    while n < 256
        invariant
            n <= 256,
            table@.len() == n,
            forall|k: int| 0 <= k < n ==> table@[k] == crc_table_entry(k as u8),
        decreases 256 - n,
    {
        let mut c: u32 = n as u32;
        let mut j: usize = 0;
        while j < 8
            invariant
                j <= 8,
                c == crc_rounds(n as u32, j as nat),
            decreases 8 - j,
        {
            if c & 1 != 0 {
                c = 0xedb88320 ^ (c >> 1);
            } else {
                c = c >> 1;
            }
            j += 1;
        }
        table.push(c);
        n += 1;
    }
    table
}

/// Computes the CRC-32 of the given bytes.
pub fn compute_crc(bytes: &[u8]) -> (r: u32)
    ensures
        r == spec_crc32(bytes@),
{
    let table = build_crc_table();
    let mut crc: u32 = 0xffffffff;
    let mut i: usize = 0;
    proof {
        assert(bytes@.skip(0) =~= bytes@);
    }
    while i < bytes.len()
        invariant
            i <= bytes@.len(),
            table@.len() == 256,
            forall|k: int| 0 <= k < 256 ==> table@[k] == crc_table_entry(k as u8),
            crc_fold(crc, bytes@.skip(i as int)) == crc_fold(0xffffffffu32, bytes@),
        decreases bytes@.len() - i,
    {
        let byte = bytes[i];
        let idx: usize = ((crc ^ (byte as u32)) & 0xff) as usize;
        proof {
            assert((crc ^ (byte as u32)) & 0xff <= 0xff) by (bit_vector);
            assert(bytes@.skip(i as int)[0] == bytes@[i as int]);
            assert(bytes@.skip(i as int).drop_first() =~= bytes@.skip(i as int + 1));
        }
        crc = table[idx] ^ (crc >> 8);
        i += 1;
    }
    proof {
        assert(bytes@.skip(bytes@.len() as int) =~= Seq::<u8>::empty());
    }
    crc ^ 0xffffffff
}

} // verus!
