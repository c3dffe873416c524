//! A Bloom filter over byte keys: it may say that a key is there when it is
//! not, and never says that a key is missing when it was added.

use vstd::prelude::*;
use crate::hash::{fnv, fnv1a, fnv_step, FNV_PRIME};

verus! {

pub const BITS_PER_KEY: usize = 10;

/// Ten bits a key times the natural logarithm of two, rounded: the number of
/// probes with the fewest false positives at that density.
pub const PROBES: u32 = 7;

/// A filter of at least `num_bits` bits that sets `num_hashes` of them for a
/// key.
pub struct BloomFilter {
    pub bits: Vec<u8>,
    pub num_bits: u64,
    pub num_hashes: u32,
}

/// The bit that a key's probe `i` falls on.
#[verifier::opaque]
pub open spec fn probe(key: Seq<u8>, i: int, num_bits: u64) -> u64 {
    fnv(key).wrapping_add((i as u64).wrapping_mul(fnv_step(fnv(key), 1))) % num_bits
}

/// The bit of probe `i` of the key whose two hashes are `h1` and `h2`.
fn probe_bit(h1: u64, h2: u64, i: u32, num_bits: u64, Ghost(key): Ghost<Seq<u8>>) -> (bit: u64)
    requires
        h1 == fnv(key),
        h2 == fnv_step(fnv(key), 1),
        num_bits > 0,
    ensures
        bit == probe(key, i as int, num_bits),
        bit < num_bits,
{
    reveal(probe);
    h1.wrapping_add((i as u64).wrapping_mul(h2)) % num_bits
}

pub proof fn lemma_probe_bound(key: Seq<u8>, i: int, num_bits: u64)
    requires
        num_bits > 0,
    ensures
        probe(key, i, num_bits) < num_bits,
{
    reveal(probe);
}

/// The byte of `bits` that holds the bit `bit`, and the bit's place in it.
fn place_of(bits: &Vec<u8>, bit: u64) -> (r: (usize, u8))
    requires
        has_bit(bits@, bit),
    ensures
        r.0 == bit / 8,
        r.0 < bits@.len(),
        r.1 == bit % 8,
{
    assert(bits.len() == bits@.len());
    ((bit / 8) as usize, (bit % 8) as u8)
}

/// Whether `bits` reach as far as the bit `b`.
pub open spec fn has_bit(bits: Seq<u8>, b: u64) -> bool {
    b / 8 < bits.len()
}

pub open spec fn bit_set(bits: Seq<u8>, b: u64) -> bool {
    bits[(b / 8) as int] & (1u8 << ((b % 8) as u8)) != 0
}

pub open spec fn with_bit(bits: Seq<u8>, b: u64) -> Seq<u8> {
    Seq::new(
        bits.len(),
        |i: int| if i == b / 8 { bits[i] | (1u8 << ((b % 8) as u8)) } else { bits[i] },
    )
}

/// `bits` after the first `n` probes of `key` were set.
pub open spec fn with_probes(bits: Seq<u8>, num_bits: u64, key: Seq<u8>, n: nat) -> Seq<u8>
    decreases n,
{
    if n == 0 {
        bits
    } else {
        with_bit(with_probes(bits, num_bits, key, (n - 1) as nat), probe(key, n - 1, num_bits))
    }
}

/// Whether the first `n` probes of `key` are all set.
pub open spec fn probes_set(bits: Seq<u8>, num_bits: u64, key: Seq<u8>, n: nat) -> bool {
    forall|i: int| 0 <= i < n ==> bit_set(bits, #[trigger] probe(key, i, num_bits))
}

/// The number of bits of a filter for `expected` keys.
pub open spec fn capacity_bits(expected: nat) -> nat {
    let keys = if expected < 1 { 1 } else { expected };
    if keys * (BITS_PER_KEY as nat) < 64 {
        64
    } else {
        keys * (BITS_PER_KEY as nat)
    }
}

/// A filter's bits before any key was added.
pub open spec fn no_bits(expected: nat) -> Seq<u8> {
    Seq::new(((capacity_bits(expected) + 7) / 8) as nat, |i: int| 0u8)
}

/// A filter's bits after the `keys` were added to one for `expected` keys.
pub open spec fn filter_bits(keys: Seq<Seq<u8>>, expected: nat) -> Seq<u8>
    decreases keys.len(),
{
    if keys.len() == 0 {
        no_bits(expected)
    } else {
        with_probes(
            filter_bits(keys.drop_last(), expected),
            capacity_bits(expected) as u64,
            keys.last(),
            PROBES as nat,
        )
    }
}

/// Whether a filter of these bits holds the bit of probe `i` of `key`.
pub open spec fn probe_reaches(bits: Seq<u8>, num_bits: u64, key: Seq<u8>, i: int) -> bool {
    num_bits > 0 && has_bit(bits, probe(key, i, num_bits))
}

/// Whether a filter of these bits answers for `key`: it holds the bit of each
/// probe that comes before or at the first unset one.
pub open spec fn filter_answers(
    bits: Seq<u8>,
    num_bits: u64,
    num_hashes: u32,
    key: Seq<u8>,
) -> bool {
    forall|i: int|
        0 <= i < num_hashes && probes_set(bits, num_bits, key, i as nat)
            ==> #[trigger] probe_reaches(bits, num_bits, key, i)
}

impl BloomFilter {
    /// Whether the filter answers for `key`.
    pub open spec fn answers(&self, key: Seq<u8>) -> bool {
        filter_answers(self.bits@, self.num_bits, self.num_hashes, key)
    }

    /// Whether the filter takes any key: each probe falls on a bit that it
    /// holds.
    pub open spec fn sound(&self) -> bool {
        0 < self.num_bits <= 8 * self.bits@.len()
    }

    /// Whether the filter says that `key` may be there.
    pub open spec fn admits(&self, key: Seq<u8>) -> bool {
        probes_set(self.bits@, self.num_bits, key, self.num_hashes as nat)
    }

    /// An empty filter sized for `expected_entries` keys.
    pub fn with_capacity(expected_entries: usize) -> (r: Self)
        requires
            expected_entries * BITS_PER_KEY <= usize::MAX,
        ensures
            r.bits@ == no_bits(expected_entries as nat),
            r.num_bits == capacity_bits(expected_entries as nat),
            r.num_hashes == PROBES,
            r.sound(),
    {
        let keys: usize = if expected_entries < 1 {
            1
        } else {
            expected_entries
        };
        let wanted: usize = keys * BITS_PER_KEY;
        let num_bits: usize = if wanted < 64 {
            64
        } else {
            wanted
        };
        let num_bytes: usize = if num_bits % 8 == 0 {
            num_bits / 8
        } else {
            num_bits / 8 + 1
        };
        let bits: Vec<u8> = vec![0u8; num_bytes];
        assert(bits@ =~= no_bits(expected_entries as nat));
        BloomFilter { bits, num_bits: num_bits as u64, num_hashes: PROBES }
    }

    /// The two hashes that a key's probes are made of. The second takes one
    /// more byte into the first, so that no copy of the key is needed.
    pub fn hashes(&self, key: &[u8]) -> (r: (u64, u64))
        ensures
            r == (fnv(key@), fnv_step(fnv(key@), 1)),
    {
        let h1: u64 = fnv1a(key);
        let h2: u64 = (h1 ^ 1u64).wrapping_mul(FNV_PRIME);
        (h1, h2)
    }

    /// Sets the bits of `key`.
    pub fn add(&mut self, key: &[u8])
        requires
            forall|i: int|
                0 <= i < old(self).num_hashes ==> #[trigger] probe_reaches(
                    old(self).bits@,
                    old(self).num_bits,
                    key@,
                    i,
                ),
        ensures
            final(self).bits@ == with_probes(
                old(self).bits@,
                old(self).num_bits,
                key@,
                old(self).num_hashes as nat,
            ),
            final(self).num_bits == old(self).num_bits,
            final(self).num_hashes == old(self).num_hashes,
            final(self).admits(key@),
    {
        let (h1, h2) = self.hashes(key);
        let mut i: u32 = 0;
        while i < self.num_hashes
            invariant
                h1 == fnv(key@),
                h2 == fnv_step(fnv(key@), 1),
                i <= self.num_hashes,
                self.num_bits == old(self).num_bits,
                self.num_hashes == old(self).num_hashes,
                self.bits@.len() == old(self).bits@.len(),
                self.bits@ == with_probes(old(self).bits@, self.num_bits, key@, i as nat),
                forall|j: int|
                    0 <= j < self.num_hashes ==> #[trigger] probe_reaches(
                        old(self).bits@,
                        old(self).num_bits,
                        key@,
                        j,
                    ),
            decreases self.num_hashes - i,
        {
            assert(probe_reaches(old(self).bits@, old(self).num_bits, key@, i as int));
            let bit: u64 = probe_bit(h1, h2, i, self.num_bits, Ghost(key@));
            let (byte, shift) = place_of(&self.bits, bit);
            let value: u8 = self.bits[byte] | (1u8 << shift);
            let ghost before = self.bits@;
            self.bits.set(byte, value);
            assert(self.bits@ =~= with_bit(before, bit));
            i = i + 1;
        }
        proof {
            if self.num_hashes > 0 {
                assert(probe_reaches(old(self).bits@, old(self).num_bits, key@, 0));
            }
            assert forall|j: int| 0 <= j < self.num_hashes implies has_bit(
                old(self).bits@,
                #[trigger] probe(key@, j, self.num_bits),
            ) by {
                assert(probe_reaches(old(self).bits@, old(self).num_bits, key@, j));
            }
            lemma_with_probes_sets(old(self).bits@, self.num_bits, key@, self.num_hashes as nat);
        }
    }

    /// Whether `key` may have been added: `false` only if it was not.
    pub fn might_contain(&self, key: &[u8]) -> (r: bool)
        requires
            self.answers(key@),
        ensures
            r == self.admits(key@),
    {
        let (h1, h2) = self.hashes(key);
        let mut i: u32 = 0;
        while i < self.num_hashes
            invariant
                self.answers(key@),
                h1 == fnv(key@),
                h2 == fnv_step(fnv(key@), 1),
                i <= self.num_hashes,
                probes_set(self.bits@, self.num_bits, key@, i as nat),
            decreases self.num_hashes - i,
        {
            assert(probe_reaches(self.bits@, self.num_bits, key@, i as int));
            let bit: u64 = probe_bit(h1, h2, i, self.num_bits, Ghost(key@));
            let (byte, shift) = place_of(&self.bits, bit);
            if self.bits[byte] & (1u8 << shift) == 0 {
                assert(!bit_set(self.bits@, probe(key@, i as int, self.num_bits)));
                return false;
            }
            i = i + 1;
        }
        true
    }

    /// Whether `might_contain` can be asked about `key`. Only a filter that was
    /// read from a damaged file cannot.
    pub fn can_answer(&self, key: &[u8]) -> (r: bool)
        ensures
            r == self.answers(key@),
    {
        let (h1, h2) = self.hashes(key);
        let mut i: u32 = 0;
        while i < self.num_hashes
            invariant
                h1 == fnv(key@),
                h2 == fnv_step(fnv(key@), 1),
                i <= self.num_hashes,
                probes_set(self.bits@, self.num_bits, key@, i as nat),
                forall|j: int|
                    0 <= j < i ==> #[trigger] probe_reaches(self.bits@, self.num_bits, key@, j),
            decreases self.num_hashes - i,
        {
            if self.num_bits == 0 {
                assert(!probe_reaches(self.bits@, self.num_bits, key@, i as int));
                return false;
            }
            let bit: u64 = probe_bit(h1, h2, i, self.num_bits, Ghost(key@));
            if bit / 8 >= self.bits.len() as u64 {
                assert(!probe_reaches(self.bits@, self.num_bits, key@, i as int));
                return false;
            }
            let (byte, shift) = place_of(&self.bits, bit);
            if self.bits[byte] & (1u8 << shift) == 0 {
                assert(!bit_set(self.bits@, probe(key@, i as int, self.num_bits)));
                assert forall|j: int|
                    0 <= j < self.num_hashes && probes_set(
                        self.bits@,
                        self.num_bits,
                        key@,
                        j as nat,
                    ) implies #[trigger] probe_reaches(self.bits@, self.num_bits, key@, j) by {
                    if j > i {
                        assert(bit_set(self.bits@, probe(key@, i as int, self.num_bits)));
                    }
                }
                return true;
            }
            i = i + 1;
        }
        true
    }

    /// A filter out of its parts, as a file holds them.
    pub fn from_raw(bits: Vec<u8>, num_bits: u64, num_hashes: u32) -> (r: Self)
        ensures
            r.bits == bits,
            r.num_bits == num_bits,
            r.num_hashes == num_hashes,
    {
        BloomFilter { bits, num_bits, num_hashes }
    }
}

/// A filter with as many bits as it says holds the bit of every probe.
pub proof fn lemma_sound_reaches(filter: BloomFilter, key: Seq<u8>)
    requires
        filter.sound(),
    ensures
        forall|i: int| #[trigger] probe_reaches(filter.bits@, filter.num_bits, key, i),
        filter.answers(key),
{
    assert forall|i: int| #[trigger] probe_reaches(filter.bits@, filter.num_bits, key, i) by {
        let b = probe(key, i, filter.num_bits);
        lemma_probe_bound(key, i, filter.num_bits);
    }
}

proof fn lemma_with_bit(bits: Seq<u8>, b: u64, c: u64)
    requires
        has_bit(bits, b),
    ensures
        bit_set(with_bit(bits, b), b),
        bit_set(bits, c) && has_bit(bits, c) ==> bit_set(with_bit(bits, b), c),
{
    let old_byte = bits[(b / 8) as int];
    let shift = (b % 8) as u8;
    assert((old_byte | (1u8 << shift)) & (1u8 << shift) != 0) by (bit_vector)
        requires
            shift < 8,
    ;
    if bit_set(bits, c) && has_bit(bits, c) && c / 8 == b / 8 {
        let other = (c % 8) as u8;
        assert((old_byte | (1u8 << shift)) & (1u8 << other) != 0) by (bit_vector)
            requires
                old_byte & (1u8 << other) != 0,
        ;
    }
}

proof fn lemma_with_probes_keeps(bits: Seq<u8>, num_bits: u64, key: Seq<u8>, n: nat, c: u64)
    requires
        0 < num_bits,
        forall|i: int| 0 <= i < n ==> has_bit(bits, #[trigger] probe(key, i, num_bits)),
        has_bit(bits, c),
        bit_set(bits, c),
    ensures
        with_probes(bits, num_bits, key, n).len() == bits.len(),
        bit_set(with_probes(bits, num_bits, key, n), c),
    decreases n,
{
    if n > 0 {
        lemma_with_probes_keeps(bits, num_bits, key, (n - 1) as nat, c);
        lemma_with_bit(
            with_probes(bits, num_bits, key, (n - 1) as nat),
            probe(key, n - 1, num_bits),
            c,
        );
    }
}

pub proof fn lemma_with_probes_len(bits: Seq<u8>, num_bits: u64, key: Seq<u8>, n: nat)
    ensures
        with_probes(bits, num_bits, key, n).len() == bits.len(),
    decreases n,
{
    if n > 0 {
        lemma_with_probes_len(bits, num_bits, key, (n - 1) as nat);
    }
}

proof fn lemma_with_probes_sets(bits: Seq<u8>, num_bits: u64, key: Seq<u8>, n: nat)
    requires
        n > 0 ==> 0 < num_bits,
        forall|i: int| 0 <= i < n ==> has_bit(bits, #[trigger] probe(key, i, num_bits)),
    ensures
        probes_set(with_probes(bits, num_bits, key, n), num_bits, key, n),
    decreases n,
{
    if n > 0 {
        let m = (n - 1) as nat;
        lemma_with_probes_sets(bits, num_bits, key, m);
        lemma_with_probes_len(bits, num_bits, key, m);
        let before = with_probes(bits, num_bits, key, m);
        assert forall|i: int| 0 <= i < n implies bit_set(
            with_probes(bits, num_bits, key, n),
            #[trigger] probe(key, i, num_bits),
        ) by {
            lemma_with_bit(before, probe(key, n - 1, num_bits), probe(key, i, num_bits));
        }
    }
}

pub proof fn lemma_filter_bits_len(keys: Seq<Seq<u8>>, expected: nat)
    ensures
        filter_bits(keys, expected).len() == no_bits(expected).len(),
    decreases keys.len(),
{
    if keys.len() > 0 {
        lemma_filter_bits_len(keys.drop_last(), expected);
        lemma_with_probes_len(
            filter_bits(keys.drop_last(), expected),
            capacity_bits(expected) as u64,
            keys.last(),
            PROBES as nat,
        );
    }
}

/// No false negatives: whatever was added to a filter, in whatever order and
/// with whatever else, the filter admits.
pub proof fn law_no_false_negatives(keys: Seq<Seq<u8>>, expected: nat, i: int)
    requires
        capacity_bits(expected) <= u64::MAX,
        0 <= i < keys.len(),
    ensures
        probes_set(
            filter_bits(keys, expected),
            capacity_bits(expected) as u64,
            keys[i],
            PROBES as nat,
        ),
    decreases keys.len(),
{
    let num_bits = capacity_bits(expected) as u64;
    let before = filter_bits(keys.drop_last(), expected);
    lemma_filter_bits_len(keys.drop_last(), expected);
    assert forall|key: Seq<u8>, j: int| has_bit(before, #[trigger] probe(key, j, num_bits)) by {
        lemma_probe_bound(key, j, num_bits);
    }
    if i == keys.len() - 1 {
        lemma_with_probes_sets(before, num_bits, keys.last(), PROBES as nat);
    } else {
        law_no_false_negatives(keys.drop_last(), expected, i);
        assert(keys.drop_last()[i] == keys[i]);
        assert forall|j: int| 0 <= j < PROBES implies bit_set(
            filter_bits(keys, expected),
            #[trigger] probe(keys[i], j, num_bits),
        ) by {
            lemma_with_probes_keeps(
                before,
                num_bits,
                keys.last(),
                PROBES as nat,
                probe(keys[i], j, num_bits),
            );
        }
    }
}

/// A key's probes are the sums of its hash and a multiple of a second hash, which
/// takes one more byte into the first, with 64 bits kept and reduced to the size
/// of the filter.
pub proof fn law_probes_hash_twice(key: Seq<u8>, i: int, num_bits: u64)
    requires
        0 <= i < 0x1_0000_0000,
        num_bits > 0,
    ensures
        probe(key, i, num_bits) == ((fnv(key) + i * fnv(key.push(1))) % 0x1_0000_0000_0000_0000)
            % (num_bits as int),
{
    reveal(probe);
    let h1 = fnv(key);
    let h2 = fnv(key.push(1));
    assert(key.push(1).drop_last() =~= key);
    assert(h2 == fnv_step(h1, 1));
    let p = (i as u64).wrapping_mul(h2);
    assert(p == (i * h2) % 0x1_0000_0000_0000_0000);
    assert(h1.wrapping_add(p) == (h1 + p) % 0x1_0000_0000_0000_0000);
    vstd::arithmetic::div_mod::lemma_add_mod_noop_right(
        h1 as int,
        i * h2,
        0x1_0000_0000_0000_0000,
    );
}

/// A filter has ten bits for each key that is expected, at least 64, in as many
/// bytes as that takes, and none of them is set at first.
pub proof fn law_filter_is_sized_by_its_keys(expected: nat)
    ensures
        capacity_bits(expected) >= 64,
        capacity_bits(expected) >= 10 * expected,
        capacity_bits(expected) == 64 || capacity_bits(expected) == 10 * expected,
        capacity_bits(expected) <= 8 * no_bits(expected).len() < capacity_bits(expected) + 8,
        forall|i: int| 0 <= i < no_bits(expected).len() ==> #[trigger] no_bits(expected)[i] == 0,
{
}

/// Bit `b` of a filter is the bit `b % 8` of its byte `b / 8`, counted from the
/// lowest.
pub proof fn law_bits_lie_in_bytes(bits: Seq<u8>, b: u64)
    ensures
        bit_set(bits, b) <==> (bits[(b / 8) as int] >> ((b % 8) as u8)) & 1u8 == 1u8,
{
    let byte = bits[(b / 8) as int];
    let shift = (b % 8) as u8;
    assert((byte & (1u8 << shift) != 0) <==> ((byte >> shift) & 1u8 == 1u8)) by (bit_vector)
        requires
            shift < 8,
    ;
}

proof fn lemma_bit_after(bits: Seq<u8>, b: u64, c: u64)
    requires
        has_bit(bits, b),
        has_bit(bits, c),
    ensures
        bit_set(with_bit(bits, b), c) <==> bit_set(bits, c) || b == c,
{
    lemma_with_bit(bits, b, c);
    if b != c && b / 8 == c / 8 {
        let old_byte = bits[(b / 8) as int];
        let shift = (b % 8) as u8;
        let other = (c % 8) as u8;
        assert(((old_byte | (1u8 << shift)) & (1u8 << other) != 0) <==> (old_byte & (1u8 << other)
            != 0)) by (bit_vector)
            requires
                shift < 8,
                other < 8,
                shift != other,
        ;
    }
}

proof fn lemma_probes_after(bits: Seq<u8>, num_bits: u64, key: Seq<u8>, n: nat, c: u64)
    requires
        0 < num_bits <= 8 * bits.len(),
        c < num_bits,
    ensures
        with_probes(bits, num_bits, key, n).len() == bits.len(),
        bit_set(with_probes(bits, num_bits, key, n), c) <==> bit_set(bits, c) || exists|q: int|
            0 <= q < n && #[trigger] probe(key, q, num_bits) == c,
    decreases n,
{
    if n > 0 {
        let m = (n - 1) as nat;
        lemma_probes_after(bits, num_bits, key, m, c);
        lemma_probe_bound(key, m as int, num_bits);
        lemma_bit_after(with_probes(bits, num_bits, key, m), probe(key, m as int, num_bits), c);
    }
}

/// Whether a probe of one of the keys falls on the bit `c`.
pub open spec fn falls_on(keys: Seq<Seq<u8>>, num_bits: u64, c: u64) -> bool {
    exists|j: int, q: int|
        0 <= j < keys.len() && 0 <= q < 7 && #[trigger] probe(keys[j], q, num_bits) == c
}

proof fn lemma_filter_bit(keys: Seq<Seq<u8>>, expected: nat, c: u64)
    requires
        capacity_bits(expected) <= u64::MAX,
        c < capacity_bits(expected),
    ensures
        bit_set(filter_bits(keys, expected), c) <==> falls_on(
            keys,
            capacity_bits(expected) as u64,
            c,
        ),
    decreases keys.len(),
{
    let num_bits = capacity_bits(expected) as u64;
    if keys.len() == 0 {
        let shift = (c % 8) as u8;
        assert(0u8 & (1u8 << shift) == 0) by (bit_vector);
    } else {
        let before = keys.drop_last();
        let last = keys.len() - 1;
        lemma_filter_bit(before, expected, c);
        lemma_filter_bits_len(before, expected);
        lemma_probes_after(filter_bits(before, expected), num_bits, keys[last], 7, c);
        if falls_on(before, num_bits, c) {
            let (j, q) = choose|j: int, q: int|
                0 <= j < before.len() && 0 <= q < 7 && #[trigger] probe(before[j], q, num_bits)
                    == c;
            assert(probe(keys[j], q, num_bits) == c);
        }
        if falls_on(keys, num_bits, c) {
            let (j, q) = choose|j: int, q: int|
                0 <= j < keys.len() && 0 <= q < 7 && #[trigger] probe(keys[j], q, num_bits) == c;
            if j < last {
                assert(probe(before[j], q, num_bits) == c);
            } else {
                assert(probe(keys[last], q, num_bits) == c);
            }
        }
    }
}

/// A filter admits a key exactly if each of its seven probes falls on a bit that
/// a probe of one of the added keys falls on: every added key, and no other but
/// by such a coincidence.
pub proof fn law_filter_admits_what_its_bits_say(
    keys: Seq<Seq<u8>>,
    expected: nat,
    filter: BloomFilter,
    key: Seq<u8>,
)
    requires
        capacity_bits(expected) <= u64::MAX,
        filter.bits@ == filter_bits(keys, expected),
        filter.num_bits == capacity_bits(expected),
        filter.num_hashes == PROBES,
    ensures
        filter.admits(key) <==> forall|i: int|
            0 <= i < 7 ==> falls_on(keys, filter.num_bits, #[trigger] probe(key, i, filter.num_bits)),
        keys.contains(key) ==> filter.admits(key),
{
    let n = filter.num_bits;
    assert forall|i: int| 0 <= i < 7 implies bit_set(
        filter.bits@,
        #[trigger] probe(key, i, n),
    ) == falls_on(keys, n, probe(key, i, n)) by {
        lemma_probe_bound(key, i, n);
        lemma_filter_bit(keys, expected, probe(key, i, n));
    }
    if keys.contains(key) {
        let j = choose|j: int| 0 <= j < keys.len() && keys[j] == key;
        law_no_false_negatives(keys, expected, j);
    }
}

} // verus!
