//! CRC-32 and CRC-64 checksums over byte sequences, computed through
//! 256-entry lookup tables built by the reflected shift-and-xor rule.
//! The checksum runs over an inverted accumulator: the initial value is
//! bit-inverted on the way in and the result on the way out, so a CRC
//! can be continued incrementally by passing it back as `init`.

use vstd::prelude::*;

verus! {

/// Reflected CRC-32 polynomial.
pub const POLY32: u32 = 0xEDB88320;

/// Reflected CRC-64 polynomial.
pub const POLY64: u64 = 0xC96C5795D7870F42;

/// One shift-and-xor round of the reflected CRC-32 table construction.
pub open spec fn crc32_round(x: u32) -> u32 {
    if x & 1 == 1 {
        (x >> 1) ^ POLY32
    } else {
        x >> 1
    }
}

pub open spec fn crc32_rounds(x: u32, n: nat) -> u32
    decreases n,
{
    if n == 0 {
        x
    } else {
        crc32_round(crc32_rounds(x, (n - 1) as nat))
    }
}

/// Entry `i` of the CRC-32 table: eight rounds applied to the index.
pub open spec fn crc32_table_entry(i: int) -> u32 {
    crc32_rounds(i as u32, 8)
}

/// Folds one byte into a running (inverted) CRC-32.
pub open spec fn crc32_update(crc: u32, b: u8) -> u32 {
    crc32_table_entry((b ^ (crc & 0xFF) as u8) as int) ^ (crc >> 8)
}

pub open spec fn crc32_fold(bytes: Seq<u8>, crc: u32) -> u32
    decreases bytes.len(),
{
    if bytes.len() == 0 {
        crc
    } else {
        crc32_fold(bytes.skip(1), crc32_update(crc, bytes[0]))
    }
}

/// The CRC-32 of `bytes`, continued from a previous running value
/// `init` (`0` to start a fresh checksum).
pub open spec fn crc32_spec(bytes: Seq<u8>, init: u32) -> u32 {
    !crc32_fold(bytes, !init)
}

/// One shift-and-xor round of the reflected CRC-64 table construction.
pub open spec fn crc64_round(x: u64) -> u64 {
    if x & 1 == 1 {
        (x >> 1) ^ POLY64
    } else {
        x >> 1
    }
}

pub open spec fn crc64_rounds(x: u64, n: nat) -> u64
    decreases n,
{
    if n == 0 {
        x
    } else {
        crc64_round(crc64_rounds(x, (n - 1) as nat))
    }
}

/// Entry `i` of the CRC-64 table: eight rounds applied to the index.
pub open spec fn crc64_table_entry(i: int) -> u64 {
    crc64_rounds(i as u64, 8)
}

/// Folds one byte into a running (inverted) CRC-64.
pub open spec fn crc64_update(crc: u64, b: u8) -> u64 {
    crc64_table_entry((b ^ (crc & 0xFF) as u8) as int) ^ (crc >> 8)
}

pub open spec fn crc64_fold(bytes: Seq<u8>, crc: u64) -> u64
    decreases bytes.len(),
{
    if bytes.len() == 0 {
        crc
    } else {
        crc64_fold(bytes.skip(1), crc64_update(crc, bytes[0]))
    }
}

/// The CRC-64 of `bytes`, continued from a previous running value
/// `init` (`0` to start a fresh checksum).
pub open spec fn crc64_spec(bytes: Seq<u8>, init: u64) -> u64 {
    !crc64_fold(bytes, !init)
}

/// The 256-entry CRC-32 table, built by eight rounds per index.
#[verifier::loop_isolation(false)]
fn build_crc32_table() -> (t: Vec<u32>)
    ensures
        t@.len() == 256,
        forall|i: int| 0 <= i < 256 ==> t@[i] == crc32_table_entry(i),
{
    let mut t: Vec<u32> = Vec::new();
    let mut i: usize = 0;
    while i < 256
        invariant
            i <= 256,
            t@.len() == i,
            forall|k: int| 0 <= k < i ==> t@[k] == crc32_table_entry(k),
        decreases 256 - i,
    {
        let mut x: u32 = i as u32;
        let mut j: usize = 0;
        while j < 8
            invariant
                j <= 8,
                x == crc32_rounds(i as u32, j as nat),
            decreases 8 - j,
        {
            x = if x & 1 == 1 {
                (x >> 1u32) ^ POLY32
            } else {
                x >> 1u32
            };
            j = j + 1;
        }
        t.push(x);
        i = i + 1;
    }
    t
}

/// The 256-entry CRC-64 table, built by eight rounds per index.
#[verifier::loop_isolation(false)]
fn build_crc64_table() -> (t: Vec<u64>)
    ensures
        t@.len() == 256,
        forall|i: int| 0 <= i < 256 ==> t@[i] == crc64_table_entry(i),
{
    let mut t: Vec<u64> = Vec::new();
    let mut i: usize = 0;
    while i < 256
        invariant
            i <= 256,
            t@.len() == i,
            forall|k: int| 0 <= k < i ==> t@[k] == crc64_table_entry(k),
        decreases 256 - i,
    {
        let mut x: u64 = i as u64;
        let mut j: usize = 0;
        while j < 8
            invariant
                j <= 8,
                x == crc64_rounds(i as u64, j as nat),
            decreases 8 - j,
        {
            x = if x & 1 == 1 {
                (x >> 1u64) ^ POLY64
            } else {
                x >> 1u64
            };
            j = j + 1;
        }
        t.push(x);
        i = i + 1;
    }
    t
}

/// CRC-32 of `bytes`, continued from the running value `init`.
#[verifier::loop_isolation(false)]
pub fn crc32(bytes: &Vec<u8>, init: u32) -> (r: u32)
    ensures
        r == crc32_spec(bytes@, init),
{
    let table = build_crc32_table();
    let mut crc: u32 = !init;
    let mut k: usize = 0;
    proof {
        assert(bytes@.skip(0) =~= bytes@);
    }
    while k < bytes.len()
        invariant
            k <= bytes@.len(),
            crc32_fold(bytes@, !init) == crc32_fold(bytes@.skip(k as int), crc),
        decreases bytes@.len() - k,
    {
        let b = bytes[k];
        let idx = b ^ (crc & 0xFF) as u8;
        crc = table[idx as usize] ^ (crc >> 8u32);
        k = k + 1;
        proof {
            assert(bytes@.skip(k - 1)[0] == b);
            assert(bytes@.skip(k - 1).skip(1) =~= bytes@.skip(k as int));
        }
    }
    proof {
        assert(bytes@.skip(k as int) =~= Seq::<u8>::empty());
    }
    !crc
}

/// CRC-64 of `bytes`, continued from the running value `init`.
#[verifier::loop_isolation(false)]
pub fn crc64(bytes: &Vec<u8>, init: u64) -> (r: u64)
    ensures
        r == crc64_spec(bytes@, init),
{
    let table = build_crc64_table();
    let mut crc: u64 = !init;
    let mut k: usize = 0;
    proof {
        assert(bytes@.skip(0) =~= bytes@);
    }
    while k < bytes.len()
        invariant
            k <= bytes@.len(),
            crc64_fold(bytes@, !init) == crc64_fold(bytes@.skip(k as int), crc),
        decreases bytes@.len() - k,
    {
        let b = bytes[k];
        let idx = b ^ (crc & 0xFF) as u8;
        crc = table[idx as usize] ^ (crc >> 8u64);
        k = k + 1;
        proof {
            assert(bytes@.skip(k - 1)[0] == b);
            assert(bytes@.skip(k - 1).skip(1) =~= bytes@.skip(k as int));
        }
    }
    proof {
        assert(bytes@.skip(k as int) =~= Seq::<u8>::empty());
    }
    !crc
}

} // verus!
