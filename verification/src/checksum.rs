//! CRC-32 (reflected, polynomial 0xEDB88320) over byte strings, used to
//! frame write-ahead-log records.

use vstd::prelude::*;

verus! {

pub open spec fn crc_bit(c: u32) -> u32 {
    if c & 1 == 1 {
        (c >> 1) ^ 0xEDB88320u32
    } else {
        c >> 1
    }
}

pub open spec fn crc_bits(c: u32, n: nat) -> u32
    decreases n,
{
    if n == 0 {
        c
    } else {
        crc_bits(crc_bit(c), (n - 1) as nat)
    }
}

pub open spec fn crc_byte(c: u32, b: u8) -> u32 {
    crc_bits(c ^ (b as u32), 8)
}

pub open spec fn crc_fold(c: u32, s: Seq<u8>) -> u32
    decreases s.len(),
{
    if s.len() == 0 {
        c
    } else {
        crc_fold(crc_byte(c, s[0]), s.drop_first())
    }
}

/// CRC-32 of a byte string.
pub open spec fn crc32_spec(s: Seq<u8>) -> u32 {
    crc_fold(0xFFFFFFFFu32, s) ^ 0xFFFFFFFFu32
}

proof fn lemma_crc_fold_step(c: u32, s: Seq<u8>, i: int)
    requires
        0 <= i < s.len(),
    ensures
        crc_fold(c, s.skip(i)) == crc_fold(crc_byte(c, s[i]), s.skip(i + 1)),
{
    assert(s.skip(i).len() > 0);
    assert(s.skip(i)[0] == s[i]);
    assert(s.skip(i).drop_first() =~= s.skip(i + 1));
}

/// Compute the CRC-32 of a byte string.
pub fn crc32(s: &Vec<u8>) -> (r: u32)
    ensures
        r == crc32_spec(s@),
{
    let mut c: u32 = 0xFFFFFFFF;
    let mut i: usize = 0;
    proof {
        assert(s@.skip(0) =~= s@);
    }
    while i < s.len()
        invariant
            0 <= i <= s@.len(),
            crc_fold(c, s@.skip(i as int)) == crc_fold(0xFFFFFFFFu32, s@),
        decreases s@.len() - i,
    {
        proof {
            lemma_crc_fold_step(c, s@, i as int);
        }
        let mut x: u32 = c ^ (s[i] as u32);
        let mut k: usize = 0;
        while k < 8
            invariant
                0 <= k <= 8,
                crc_bits(x, (8 - k) as nat) == crc_byte(c, s@[i as int]),
            decreases 8 - k,
        {
            if x & 1 == 1 {
                x = (x >> 1) ^ 0xEDB88320;
            } else {
                x = x >> 1;
            }
            k = k + 1;
        }
        c = x;
        i = i + 1;
    }
    proof {
        assert(s@.skip(s@.len() as int) =~= Seq::<u8>::empty());
    }
    c ^ 0xFFFFFFFF
}

} // verus!
