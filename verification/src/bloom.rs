//! Bloom filters of one 64-bit word each, and a set of them with one
//! filter per table block.
use vstd::prelude::*;
use vstd::wrapping::u64_specs::{wrapping_add, wrapping_mul};

verus! {

/// `h` rotated left by 7 bits.
pub open spec fn rotl7(h: u64) -> u64 {
    (h << 7u64) | (h >> 57u64)
}

/// The running hash of `key` with `seed`, before the final mixing step:
/// for each byte, multiply by 31, add the byte xor the seed, rotate left
/// by 7 bits, all wrapping around at 64 bits.
pub open spec fn hash_state(key: Seq<u8>, seed: u8) -> u64
    decreases key.len(),
{
    if key.len() == 0 {
        0
    } else {
        let h = hash_state(key.drop_last(), seed);
        rotl7(wrapping_add(wrapping_mul(h, 31), (key.last() as u64) ^ (seed as u64)))
    }
}

/// The hash of `key` with `seed`.
pub open spec fn key_hash(key: Seq<u8>, seed: u8) -> usize {
    wrapping_mul(hash_state(key, seed), 0x9e3779b97f4a7c15) as usize
}

/// The bit the `i`-th hash of `key` selects.
pub open spec fn key_bit(key: Seq<u8>, i: u8) -> u64 {
    1u64 << ((key_hash(key, i) % 64) as u64)
}

/// The bits the first `n` hashes of `key` select.
pub open spec fn key_mask(key: Seq<u8>, n: u8) -> u64
    decreases n,
{
    if n == 0 {
        0
    } else {
        key_mask(key, (n - 1) as u8) | key_bit(key, (n - 1) as u8)
    }
}

/// Every bit the first `n` hashes of `key` select is set in `bits`.
pub open spec fn bits_contain(bits: u64, key: Seq<u8>, n: u8) -> bool {
    bits & key_mask(key, n) == key_mask(key, n)
}

/// A key inserted into a filter is then reported as possibly present.
pub proof fn lemma_inserted_key_is_contained(bits: u64, key: Seq<u8>, n: u8)
    ensures
        bits_contain(bits | key_mask(key, n), key, n),
{
    let m = key_mask(key, n);
    assert((bits | m) & m == m) by (bit_vector);
}

/// Inserting more keys never makes a filter forget a key.
pub proof fn lemma_insert_keeps_contained(bits: u64, key: Seq<u8>, n: u8, other: u64)
    requires
        bits_contain(bits, key, n),
    ensures
        bits_contain(bits | other, key, n),
{
    let m = key_mask(key, n);
    assert(bits & m == m ==> (bits | other) & m == m) by (bit_vector);
}

/// A filter word holds a key exactly when, for each of the first `n`
/// hashes of the key, the bit that hash selects (the hash modulo 64) is
/// set.
pub proof fn lemma_contains_iff_selected_bits_set(bits: u64, key: Seq<u8>, n: u8)
    ensures
        bits_contain(bits, key, n) <==> forall|i: u8|
            i < n ==> bits & (1u64 << ((#[trigger] key_hash(key, i) % 64) as u64)) != 0,
    decreases n,
{
    if n == 0 {
        assert(bits & 0u64 == 0u64) by (bit_vector);
    } else {
        let k = (n - 1) as u8;
        lemma_contains_iff_selected_bits_set(bits, key, k);
        let m = key_mask(key, k);
        let s = (key_hash(key, k) % 64) as u64;
        let b = key_bit(key, k);
        assert(b == 1u64 << s);
        assert(s < 64);
        assert(s < 64 && b == 1u64 << s ==> ((bits & (m | b) == (m | b)) <==> (bits & m == m && bits
            & b != 0))) by (bit_vector);
        if bits_contain(bits, key, n) {
            assert forall|i: u8| i < n implies bits & (1u64 << ((#[trigger] key_hash(key, i) % 64) as u64))
                != 0 by {
                if i < k {
                }
            }
        }
        if forall|i: u8| i < n ==> bits & (1u64 << ((#[trigger] key_hash(key, i) % 64) as u64)) != 0 {
            assert(bits & (1u64 << ((key_hash(key, k) % 64) as u64)) != 0);
            assert forall|i: u8| i < k implies bits & (1u64 << ((#[trigger] key_hash(key, i) % 64) as u64))
                != 0 by {
                assert(i < n);
            }
        }
    }
}

/// A bloom filter held in one 64-bit word.
pub struct BloomPartition {
    pub(crate) bits: u64,
    pub(crate) hash_count: u8,
}

impl BloomPartition {
    pub closed spec fn bits(&self) -> u64 {
        self.bits
    }

    pub closed spec fn spec_hash_count(&self) -> u8 {
        self.hash_count
    }

    /// An empty filter using `hash_count` hashes, at most 6.
    pub fn new(hash_count: u8) -> (p: Self)
        ensures
            p.bits() == 0,
            p.spec_hash_count() == if hash_count < 6 {
                hash_count
            } else {
                6
            },
    {
        BloomPartition { bits: 0, hash_count: if hash_count < 6 { hash_count } else { 6 } }
    }

    /// Sets the bits every hash of `key` selects.
    pub fn insert(&mut self, key: &[u8])
        ensures
            final(self).bits() == old(self).bits() | key_mask(key@, old(self).spec_hash_count()),
            final(self).spec_hash_count() == old(self).spec_hash_count(),
            bits_contain(final(self).bits(), key@, final(self).spec_hash_count()),
            forall|i: u8|
                i < final(self).spec_hash_count() ==> final(self).bits() & (1u64 << ((#[trigger] key_hash(
                    key@,
                    i,
                ) % 64) as u64)) != 0,
            old(self).bits() & final(self).bits() == old(self).bits(),
            forall|k: Seq<u8>|
                bits_contain(old(self).bits(), k, old(self).spec_hash_count()) ==> #[trigger] bits_contain(
                    final(self).bits(),
                    k,
                    old(self).spec_hash_count(),
                ),
    {
        let b0 = self.bits;
        assert(b0 | 0u64 == b0) by (bit_vector);
        let mut i: u8 = 0;
        while i < self.hash_count
            invariant
                0 <= i <= self.hash_count,
                self.hash_count == old(self).hash_count,
                self.bits == old(self).bits | key_mask(key@, i),
            decreases self.hash_count - i,
        {
            let hash = self.hash_key(key, i);
            let bit: u64 = 1u64 << ((hash % 64) as u64);
            let ghost b0 = old(self).bits;
            let ghost m = key_mask(key@, i);
            assert((b0 | m) | bit == b0 | (m | bit)) by (bit_vector);
            self.bits = self.bits | bit;
            i = i + 1;
        }
        proof {
            let hc = self.hash_count;
            lemma_inserted_key_is_contained(old(self).bits, key@, hc);
            lemma_contains_iff_selected_bits_set(self.bits, key@, hc);
            let ob = old(self).bits;
            let km = key_mask(key@, hc);
            assert(ob & (ob | km) == ob) by (bit_vector);
            assert forall|k: Seq<u8>| bits_contain(old(self).bits, k, hc) implies #[trigger] bits_contain(
                self.bits,
                k,
                hc,
            ) by {
                lemma_insert_keeps_contained(old(self).bits, k, hc, key_mask(key@, hc));
            }
        }
    }

    /// Whether every bit a hash of `key` selects is set: `false` means the
    /// key was never inserted.
    pub fn might_contain(&self, key: &[u8]) -> (maybe: bool)
        ensures
            maybe == bits_contain(self.bits(), key@, self.spec_hash_count()),
            maybe <==> forall|i: u8|
                i < self.spec_hash_count() ==> self.bits() & (1u64 << ((#[trigger] key_hash(key@, i) % 64)
                    as u64)) != 0,
    {
        proof {
            lemma_contains_iff_selected_bits_set(self.bits, key@, self.hash_count);
        }
        let b0 = self.bits;
        assert(b0 & 0u64 == 0u64) by (bit_vector);
        let mut i: u8 = 0;
        while i < self.hash_count
            invariant
                0 <= i <= self.hash_count,
                bits_contain(self.bits, key@, i),
            decreases self.hash_count - i,
        {
            let hash = self.hash_key(key, i);
            let p = (hash % 64) as u64;
            let bit: u64 = 1u64 << p;
            let b = self.bits;
            let ghost m = key_mask(key@, i);
            if (self.bits & bit) == 0 {
                proof {
                    lemma_mask_has_bit(key@, i, self.hash_count);
                    let full = key_mask(key@, self.hash_count);
                    assert(p < 64 && b & bit == 0 && full & bit == bit && bit == 1u64 << p ==> b & full != full) by (bit_vector);
                }
                return false;
            }
            assert(p < 64 && b & m == m && b & bit != 0 && bit == 1u64 << p ==> b & (m | bit) == (m | bit)) by (bit_vector);
            i = i + 1;
        }
        true
    }

    fn hash_key(&self, key: &[u8], seed: u8) -> (h: usize)
        ensures
            h == key_hash(key@, seed),
    {
        let mut hash: u64 = 0;
        let mut i: usize = 0;
        while i < key.len()
            invariant
                0 <= i <= key@.len(),
                hash == hash_state(key@.take(i as int), seed),
            decreases key@.len() - i,
        {
            proof {
                assert(key@.take(i + 1).drop_last() =~= key@.take(i as int));
                assert(key@.take(i + 1).last() == key@[i as int]);
            }
            hash = hash.wrapping_mul(31).wrapping_add((key[i] as u64) ^ (seed as u64));
            hash = (hash << 7u64) | (hash >> 57u64);
            i = i + 1;
        }
        proof {
            assert(key@.take(key@.len() as int) =~= key@);
        }
        hash = hash.wrapping_mul(0x9e3779b97f4a7c15);
        #[verifier::truncate]
        (hash as usize)
    }

    pub fn memory_usage(&self) -> (n: usize)
        ensures
            n == 8,
    {
        8
    }
}

/// Every bit one of the first `n` hashes selects is part of the mask of
/// `n` or more hashes.
pub proof fn lemma_mask_has_bit(key: Seq<u8>, i: u8, n: u8)
    requires
        i < n,
    ensures
        key_mask(key, n) & key_bit(key, i) == key_bit(key, i),
    decreases n,
{
    let prev = key_mask(key, (n - 1) as u8);
    let last = key_bit(key, (n - 1) as u8);
    let b = key_bit(key, i);
    if i == n - 1 {
        assert((prev | b) & b == b) by (bit_vector);
    } else {
        lemma_mask_has_bit(key, i, (n - 1) as u8);
        assert(prev & b == b ==> (prev | last) & b == b) by (bit_vector);
    }
}

/// Why a filter operation was refused.
#[derive(Debug, PartialEq, Eq, Structural, Clone, Copy)]
pub enum BloomError {
    IndexOutOfBounds,
    NotLoaded,
    Full,
}

/// How many of `flags` are set.
pub open spec fn count_set(flags: Seq<bool>) -> nat
    decreases flags.len(),
{
    if flags.len() == 0 {
        0
    } else {
        count_set(flags.drop_last()) + if flags.last() {
            1nat
        } else {
            0nat
        }
    }
}

/// No flag of `n` cleared flags is set.
proof fn lemma_count_set_none(n: nat)
    ensures
        count_set(Seq::new(n, |i: int| false)) == 0,
    decreases n,
{
    if n > 0 {
        assert(Seq::new(n, |i: int| false).drop_last() =~= Seq::new((n - 1) as nat, |i: int| false));
        lemma_count_set_none((n - 1) as nat);
    }
}

/// No more flags are set than there are flags.
proof fn lemma_count_set_bound(flags: Seq<bool>)
    ensures
        count_set(flags) <= flags.len(),
    decreases flags.len(),
{
    if flags.len() > 0 {
        lemma_count_set_bound(flags.drop_last());
    }
}

/// Setting a cleared flag adds one to the count.
proof fn lemma_count_set_update(flags: Seq<bool>, i: int)
    requires
        0 <= i < flags.len(),
        !flags[i],
    ensures
        count_set(flags.update(i, true)) == count_set(flags) + 1,
    decreases flags.len(),
{
    let u = flags.update(i, true);
    if i == flags.len() - 1 {
        assert(u.drop_last() =~= flags.drop_last());
    } else {
        assert(u.drop_last() =~= flags.drop_last().update(i, true));
        lemma_count_set_update(flags.drop_last(), i);
    }
}

/// One bloom filter per table block.  A block's filter is created when
/// the block is first loaded and is appended to the filters in load order;
/// lookups and insertions use the filter at the block's own position.
pub struct PartitionedBloom {
    partitions: Vec<BloomPartition>,
    loaded: Vec<bool>,
    hash_count: u8,
    max_partitions: usize,
}

impl PartitionedBloom {
    /// The bits of each filter, in load order.
    pub closed spec fn partition_bits(&self) -> Seq<u64> {
        self.partitions@.map_values(|p: BloomPartition| p.bits)
    }

    /// Which blocks have been loaded.
    pub closed spec fn loaded(&self) -> Seq<bool> {
        self.loaded@
    }

    pub closed spec fn spec_hash_count(&self) -> u8 {
        self.hash_count
    }

    pub closed spec fn max_partitions(&self) -> nat {
        self.max_partitions as nat
    }

    /// The internal invariant.
    pub closed spec fn wf(&self) -> bool {
        &&& self.loaded@.len() == self.max_partitions
        &&& self.partitions@.len() == count_set(self.loaded@)
        &&& self.hash_count <= 6
        &&& forall|i: int|
            0 <= i < self.partitions@.len() ==> (#[trigger] self.partitions@[i]).hash_count
                == self.hash_count
    }

    /// Filters for `max_partitions` blocks, none loaded, each using
    /// `hash_count` hashes, at most 6.
    pub fn new(max_partitions: usize, hash_count: u8) -> (f: Self)
        ensures
            f.wf(),
            f.partition_bits() == Seq::<u64>::empty(),
            f.loaded() == Seq::new(max_partitions as nat, |i: int| false),
            f.max_partitions() == max_partitions,
            f.spec_hash_count() == if hash_count < 6 {
                hash_count
            } else {
                6
            },
    {
        let f = PartitionedBloom {
            partitions: Vec::with_capacity(max_partitions),
            loaded: vec![false; max_partitions],
            hash_count: if hash_count < 6 { hash_count } else { 6 },
            max_partitions,
        };
        assert(f.partition_bits() =~= Seq::<u64>::empty());
        assert(f.loaded() =~= Seq::new(max_partitions as nat, |i: int| false));
        proof {
            lemma_count_set_none(max_partitions as nat);
        }
        f
    }

    /// There is one filter per loaded block, and one flag per block: the
    /// filters take 8 bytes per loaded block, at most 8 per block, and they
    /// are full exactly when every block is loaded.
    pub proof fn lemma_filter_count(&self)
        requires
            self.wf(),
        ensures
            self.partition_bits().len() == count_set(self.loaded()),
            self.loaded().len() == self.max_partitions(),
            count_set(self.loaded()) <= self.max_partitions(),
            self.partition_bits().len() * 8 == 8 * count_set(self.loaded()),
            (self.partition_bits().len() >= self.max_partitions()) == (count_set(self.loaded())
                == self.max_partitions()),
            self.spec_hash_count() <= 6,
    {
        lemma_count_set_bound(self.loaded@);
    }

    /// Creates the filter of block `block_index` unless it is loaded.
    pub fn load_partition(&mut self, block_index: usize) -> (r: Result<(), BloomError>)
        requires
            old(self).wf(),
        ensures
            final(self).wf(),
            final(self).spec_hash_count() == old(self).spec_hash_count(),
            final(self).max_partitions() == old(self).max_partitions(),
            block_index >= old(self).max_partitions() ==> r == Err::<(), BloomError>(BloomError::IndexOutOfBounds)
                && final(self).partition_bits() == old(self).partition_bits()
                && final(self).loaded() == old(self).loaded(),
            block_index < old(self).max_partitions() && old(self).loaded()[block_index as int] ==> r is Ok
                && final(self).partition_bits() == old(self).partition_bits()
                && final(self).loaded() == old(self).loaded(),
            block_index < old(self).max_partitions() && !old(self).loaded()[block_index as int] ==> r is Ok
                && final(self).partition_bits() == old(self).partition_bits().push(0)
                && final(self).loaded() == old(self).loaded().update(block_index as int, true),
    {
        if block_index >= self.max_partitions {
            return Err(BloomError::IndexOutOfBounds);
        }
        if self.loaded[block_index] {
            return Ok(());
        }
        let partition = BloomPartition::new(self.hash_count);
        self.partitions.push(partition);
        self.loaded.set(block_index, true);
        assert(self.partition_bits() =~= old(self).partition_bits().push(0));
        proof {
            lemma_count_set_update(old(self).loaded@, block_index as int);
        }
        Ok(())
    }

    /// Whether block `block_index`'s filter reports `key` as possibly
    /// present.
    pub fn might_contain(&self, block_index: usize, key: &[u8]) -> (r: Result<bool, BloomError>)
        requires
            self.wf(),
            block_index < self.max_partitions() && self.loaded()[block_index as int]
                ==> block_index < self.partition_bits().len(),
        ensures
            block_index >= self.max_partitions() ==> r == Err::<bool, BloomError>(BloomError::IndexOutOfBounds),
            block_index < self.max_partitions() && !self.loaded()[block_index as int] ==> r
                == Err::<bool, BloomError>(BloomError::NotLoaded),
            block_index < self.max_partitions() && self.loaded()[block_index as int] ==> r == Ok::<
                bool,
                BloomError,
            >(bits_contain(self.partition_bits()[block_index as int], key@, self.spec_hash_count())),
            block_index < self.max_partitions() && self.loaded()[block_index as int] ==> (r == Ok::<
                bool,
                BloomError,
            >(true) <==> forall|i: u8|
                i < self.spec_hash_count() ==> self.partition_bits()[block_index as int] & (1u64 << ((
                #[trigger] key_hash(key@, i) % 64) as u64)) != 0),
    {
        proof {
            if block_index < self.max_partitions() && self.loaded()[block_index as int] {
                lemma_contains_iff_selected_bits_set(
                    self.partition_bits()[block_index as int],
                    key@,
                    self.hash_count,
                );
            }
        }
        if block_index >= self.max_partitions {
            return Err(BloomError::IndexOutOfBounds);
        }
        if !self.loaded[block_index] {
            return Err(BloomError::NotLoaded);
        }
        let partition = &self.partitions[block_index];
        Ok(partition.might_contain(key))
    }

    /// Adds `key` to block `block_index`'s filter, loading the block first
    /// when it is not loaded.
    pub fn insert(&mut self, block_index: usize, key: &[u8]) -> (r: Result<(), BloomError>)
        requires
            old(self).wf(),
            block_index < old(self).max_partitions() ==> if old(self).loaded()[block_index as int] {
                block_index < old(self).partition_bits().len()
            } else {
                block_index <= old(self).partition_bits().len()
            },
        ensures
            final(self).wf(),
            final(self).spec_hash_count() == old(self).spec_hash_count(),
            final(self).max_partitions() == old(self).max_partitions(),
            block_index >= old(self).max_partitions() ==> r == Err::<(), BloomError>(BloomError::IndexOutOfBounds)
                && final(self).partition_bits() == old(self).partition_bits()
                && final(self).loaded() == old(self).loaded(),
            block_index < old(self).max_partitions() ==> r is Ok && final(self).loaded() == old(
                self,
            ).loaded().update(block_index as int, true) && ({
                let loaded_bits = if old(self).loaded()[block_index as int] {
                    old(self).partition_bits()
                } else {
                    old(self).partition_bits().push(0)
                };
                final(self).partition_bits() == loaded_bits.update(
                    block_index as int,
                    loaded_bits[block_index as int] | key_mask(key@, old(self).spec_hash_count()),
                )
            }),
            block_index < old(self).max_partitions() ==> bits_contain(
                final(self).partition_bits()[block_index as int],
                key@,
                final(self).spec_hash_count(),
            ),
    {
        if block_index >= self.max_partitions {
            return Err(BloomError::IndexOutOfBounds);
        }
        if !self.loaded[block_index] {
            match self.load_partition(block_index) {
                Ok(()) => {},
                Err(e) => {
                    return Err(e);
                },
            }
        }
        proof {
            if old(self).loaded()[block_index as int] {
                assert(old(self).loaded() =~= old(self).loaded().update(block_index as int, true));
            }
        }
        let ghost before = self.partition_bits();
        assert(before.len() == self.partitions@.len());
        assert(old(self).partition_bits().len() == old(self).partitions@.len());
        assert(block_index < self.partitions@.len());
        self.partitions[block_index].insert(key);
        assert(self.partition_bits() =~= before.update(
            block_index as int,
            before[block_index as int] | key_mask(key@, self.hash_count),
        ));
        Ok(())
    }

    /// Whether a filter exists for every block.
    pub fn is_full(&self) -> (full: bool)
        ensures
            full == (self.partition_bits().len() >= self.max_partitions()),
    {
        self.partitions.len() >= self.max_partitions
    }

    /// Bytes the filters take.
    pub fn memory_usage(&self) -> (n: usize)
        requires
            self.partition_bits().len() * 8 <= usize::MAX,
        ensures
            n == self.partition_bits().len() * 8,
    {
        self.partitions.len() * 8
    }
}

} // verus!
