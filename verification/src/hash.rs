//! FNV-1a with 64 bits: fast, and enough to notice a torn or damaged record.

use vstd::prelude::*;

verus! {

pub const FNV_OFFSET: u64 = 0xcbf29ce484222325;

pub const FNV_PRIME: u64 = 0x100000001b3;

/// One more byte taken into the hash.
pub open spec fn fnv_step(hash: u64, byte: u64) -> u64 {
    (hash ^ byte).wrapping_mul(FNV_PRIME)
}

/// The FNV-1a hash of `bytes`.
pub open spec fn fnv(bytes: Seq<u8>) -> u64
    decreases bytes.len(),
{
    if bytes.len() == 0 {
        FNV_OFFSET
    } else {
        fnv_step(fnv(bytes.drop_last()), bytes.last() as u64)
    }
}

/// FNV-1a starts with a fixed number; each byte is mixed into the lowest bits and
/// the result multiplied by a fixed prime, with 64 bits kept.
pub proof fn law_fnv_takes_bytes_in_turn(bytes: Seq<u8>, byte: u8)
    ensures
        fnv(Seq::<u8>::empty()) == 0xcbf29ce484222325,
        fnv(bytes.push(byte)) == ((fnv(bytes) ^ (byte as u64)) as int * 0x100000001b3)
            % 0x1_0000_0000_0000_0000,
{
    assert(bytes.push(byte).drop_last() =~= bytes);
    let x = fnv(bytes) ^ (byte as u64);
    assert(x.wrapping_mul(FNV_PRIME) == (x as int * 0x100000001b3) % 0x1_0000_0000_0000_0000);
}

/// The FNV-1a hash of the bytes of `buf` from `from` up to `to`.
pub fn fnv1a_range(buf: &[u8], from: usize, to: usize) -> (hash: u64)
    requires
        from <= to <= buf@.len(),
    ensures
        hash == fnv(buf@.subrange(from as int, to as int)),
{
    let mut hash: u64 = FNV_OFFSET;
    let mut i: usize = from;
    while i < to
        invariant
            from <= i <= to <= buf@.len(),
            hash == fnv(buf@.subrange(from as int, i as int)),
        decreases to - i,
    {
        proof {
            let next = buf@.subrange(from as int, i + 1);
            assert(next.drop_last() =~= buf@.subrange(from as int, i as int));
            assert(next.last() == buf@[i as int]);
        }
        hash = (hash ^ (buf[i] as u64)).wrapping_mul(FNV_PRIME);
        i = i + 1;
    }
    hash
}

/// The FNV-1a hash of `bytes`.
pub fn fnv1a(bytes: &[u8]) -> (hash: u64)
    ensures
        hash == fnv(bytes@),
{
    assert(bytes@.subrange(0, bytes@.len() as int) =~= bytes@);
    fnv1a_range(bytes, 0, bytes.len())
}

} // verus!
