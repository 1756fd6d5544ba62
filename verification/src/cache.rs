//! A fixed number of block-sized cache slots with least-recently-used
//! replacement.
use crate::BLOCK_SIZE;
use vstd::prelude::*;

verus! {

struct CacheSlot {
    block_id: u64,
    data: [u8; BLOCK_SIZE],
    valid: bool,
    last_access: u32,
}

impl CacheSlot {
    fn new() -> (s: Self)
        ensures
            s.block_id == 0,
            s.data@ == Seq::new(BLOCK_SIZE as nat, |i: int| 0u8),
            !s.valid,
            s.last_access == 0,
    {
        CacheSlot { block_id: 0, data: [0u8; BLOCK_SIZE], valid: false, last_access: 0 }
    }
}

/// What a slot holds: block id, data, whether it is in use, and the access
/// time of its last use.
pub type SlotView = (u64, Seq<u8>, bool, u32);

/// Why an insertion was refused.
#[derive(Debug, PartialEq, Eq, Structural, Clone, Copy)]
pub enum CacheError {
    Full,
    InvalidBlock,
}

/// The slot is in use and holds block `id`.
pub open spec fn holds(s: SlotView, id: u64) -> bool {
    s.2 && s.0 == id
}

/// The slot an insertion that finds the cache full replaces: scanning the
/// slots in order, the first slot in use whose last access is earlier than
/// every one seen before it and than `u32::MAX`; slot 0 when there is none.
pub open spec fn oldest_slot(slots: Seq<SlotView>) -> (int, u32)
    decreases slots.len(),
{
    if slots.len() == 0 {
        (0, u32::MAX)
    } else {
        let (best, best_time) = oldest_slot(slots.drop_last());
        let s = slots.last();
        if s.2 && s.3 < best_time {
            (slots.len() - 1, s.3)
        } else {
            (best, best_time)
        }
    }
}

/// No block is held by two slots in use.
pub open spec fn ids_distinct(slots: Seq<SlotView>) -> bool {
    forall|i: int, j: int|
        0 <= i < slots.len() && 0 <= j < slots.len() && i != j && slots[i].2 && slots[j].2
            ==> #[trigger] slots[i].0 != #[trigger] slots[j].0
}

/// The blocks the slots hold, by id, with their data.
pub open spec fn slots_contents(slots: Seq<SlotView>) -> Map<u64, Seq<u8>> {
    Map::new(
        |id: u64| exists|i: int| 0 <= i < slots.len() && holds(#[trigger] slots[i], id),
        |id: u64| slots[choose|i: int| 0 <= i < slots.len() && holds(#[trigger] slots[i], id)].1,
    )
}

/// Where no block is held twice, the slot holding a block gives its data.
proof fn lemma_slots_contents_at(slots: Seq<SlotView>, i: int, id: u64)
    requires
        ids_distinct(slots),
        0 <= i < slots.len(),
        holds(slots[i], id),
    ensures
        slots_contents(slots).contains_key(id),
        slots_contents(slots)[id] == slots[i].1,
{
    let j = choose|j: int| 0 <= j < slots.len() && holds(#[trigger] slots[j], id);
    assert(holds(slots[j], id));
    if j != i {
        assert(slots[i].0 != slots[j].0);
    }
}

/// Replacing one slot by a slot in use replaces the block it held, if any,
/// by the new one.
proof fn lemma_slots_contents_update(slots: Seq<SlotView>, i: int, s: SlotView)
    requires
        ids_distinct(slots),
        ids_distinct(slots.update(i, s)),
        0 <= i < slots.len(),
        s.2,
    ensures
        slots_contents(slots.update(i, s)) == (if slots[i].2 {
            slots_contents(slots).remove(slots[i].0)
        } else {
            slots_contents(slots)
        }).insert(s.0, s.1),
{
    let after = slots.update(i, s);
    let before_map = slots_contents(slots);
    let want = (if slots[i].2 {
        before_map.remove(slots[i].0)
    } else {
        before_map
    }).insert(s.0, s.1);
    lemma_slots_contents_at(after, i, s.0);
    assert forall|k: u64| #[trigger] slots_contents(after).contains_key(k) == want.contains_key(k)
        && (want.contains_key(k) ==> slots_contents(after)[k] == want[k]) by {
        if k != s.0 {
            if exists|j: int| 0 <= j < after.len() && holds(#[trigger] after[j], k) {
                let j = choose|j: int| 0 <= j < after.len() && holds(#[trigger] after[j], k);
                assert(j != i);
                assert(after[j] == slots[j]);
                lemma_slots_contents_at(after, j, k);
                lemma_slots_contents_at(slots, j, k);
                if slots[i].2 {
                    assert(slots[i].0 != k);
                }
            } else {
                if exists|j: int| 0 <= j < slots.len() && holds(#[trigger] slots[j], k) {
                    let j = choose|j: int| 0 <= j < slots.len() && holds(#[trigger] slots[j], k);
                    if j != i {
                        assert(after[j] == slots[j]);
                        assert(holds(after[j], k));
                    } else {
                        assert(!want.contains_key(k));
                    }
                }
            }
        }
    }
    assert(slots_contents(after) =~= want);
}

/// Slots that hold the same blocks with the same data, whatever their
/// access times, cache the same contents.
proof fn lemma_same_data_contents(a: Seq<SlotView>, b: Seq<SlotView>, k: u64)
    requires
        a.len() == b.len(),
        forall|i: int| 0 <= i < a.len() ==> (#[trigger] a[i]).0 == b[i].0 && a[i].1 == b[i].1 && a[i].2 == b[i].2,
    ensures
        (exists|i: int| 0 <= i < a.len() && holds(#[trigger] a[i], k)) == (exists|i: int| 0 <= i < b.len() && holds(#[trigger] b[i], k)),
{
    if exists|i: int| 0 <= i < a.len() && holds(#[trigger] a[i], k) {
        let i = choose|i: int| 0 <= i < a.len() && holds(#[trigger] a[i], k);
        assert(holds(b[i], k));
    }
    if exists|i: int| 0 <= i < b.len() && holds(#[trigger] b[i], k) {
        let i = choose|i: int| 0 <= i < b.len() && holds(#[trigger] b[i], k);
        assert(holds(a[i], k));
    }
}

/// When every slot is in use and was last used before `u32::MAX`, the slot
/// an insertion replaces is in use and was used no later than any other:
/// it holds the least recently used block.
pub proof fn lemma_oldest_slot_is_least_recent(slots: Seq<SlotView>)
    requires
        slots.len() > 0,
        forall|i: int| 0 <= i < slots.len() ==> (#[trigger] slots[i]).2 && slots[i].3 < u32::MAX,
    ensures
        0 <= oldest_slot(slots).0 < slots.len(),
        oldest_slot(slots).1 == slots[oldest_slot(slots).0].3,
        forall|j: int| 0 <= j < slots.len() ==> slots[oldest_slot(slots).0].3 <= #[trigger] slots[j].3,
    decreases slots.len(),
{
    let prev = slots.drop_last();
    if prev.len() > 0 {
        assert forall|i: int| 0 <= i < prev.len() implies (#[trigger] prev[i]).2 && prev[i].3 < u32::MAX by {
            assert(prev[i] == slots[i]);
        }
        lemma_oldest_slot_is_least_recent(prev);
        assert(prev[oldest_slot(prev).0] == slots[oldest_slot(prev).0]);
        assert(slots.last() == slots[slots.len() - 1]);
        assert forall|j: int| 0 <= j < slots.len() implies slots[oldest_slot(slots).0].3 <= #[trigger] slots[j].3 by {
            if j < prev.len() {
                assert(prev[j] == slots[j]);
                assert(prev[oldest_slot(prev).0] == slots[oldest_slot(prev).0]);
            }
        }
    } else {
        assert(oldest_slot(prev) == (0int, u32::MAX));
        assert(slots.last() == slots[0]);
    }
}

/// A block-sized copy of `data`.
fn block_from_slice(data: &[u8]) -> (b: [u8; BLOCK_SIZE])
    requires
        data@.len() == BLOCK_SIZE,
    ensures
        b@ == data@,
{
    let mut b = [0u8; BLOCK_SIZE];
    let mut i: usize = 0;
    while i < BLOCK_SIZE
        invariant
            0 <= i <= BLOCK_SIZE,
            data@.len() == BLOCK_SIZE,
            forall|j: int| 0 <= j < i ==> b@[j] == data@[j],
        decreases BLOCK_SIZE - i,
    {
        b[i] = data[i];
        i = i + 1;
    }
    assert(b@ =~= data@);
    b
}

/// A cache of `N` blocks of `BLOCK_SIZE` bytes each.
pub struct RingCache<const N: usize> {
    slots: Vec<CacheSlot>,
    fill_count: usize,
    access_counter: u32,
    hits: usize,
    misses: usize,
}

impl<const N: usize> RingCache<N> {
    /// The slots, in order.
    pub closed spec fn slots(&self) -> Seq<SlotView> {
        self.slots@.map_values(|s: CacheSlot| (s.block_id, s.data@, s.valid, s.last_access))
    }

    /// The number of slots filled since the cache was created or cleared.
    pub closed spec fn fill(&self) -> nat {
        self.fill_count as nat
    }

    /// The access time the next use gets.
    pub closed spec fn counter(&self) -> u32 {
        self.access_counter
    }

    pub closed spec fn spec_hits(&self) -> nat {
        self.hits as nat
    }

    pub closed spec fn spec_misses(&self) -> nat {
        self.misses as nat
    }

    /// The internal invariant: `N` slots, exactly the first `fill` in use,
    /// each holding a different block, each last used before the counter.
    pub closed spec fn wf(&self) -> bool {
        &&& self.slots@.len() == N
        &&& self.fill_count <= N
        &&& forall|i: int| 0 <= i < N ==> (#[trigger] self.slots@[i]).valid == (i < self.fill_count)
        &&& forall|i: int, j: int|
            0 <= i < N && 0 <= j < N && i != j && self.slots@[i].valid && self.slots@[j].valid
                ==> #[trigger] self.slots@[i].block_id != #[trigger] self.slots@[j].block_id
        &&& forall|i: int|
            0 <= i < N && (#[trigger] self.slots@[i]).valid ==> self.slots@[i].last_access
                < self.access_counter
    }

    /// The cached blocks, by id.
    pub open spec fn contents(&self) -> Map<u64, Seq<u8>> {
        slots_contents(self.slots())
    }

    /// An empty cache.
    pub fn new() -> (c: Self)
        ensures
            c.wf(),
            c.slots().len() == N,
            c.fill() == 0,
            c.counter() == 0,
            c.spec_hits() == 0,
            c.spec_misses() == 0,
            forall|i: int| 0 <= i < N ==> !(#[trigger] c.slots()[i]).2,
    {
        let mut slots: Vec<CacheSlot> = Vec::new();
        let mut i: usize = 0;
        while i < N
            invariant
                0 <= i <= N,
                slots@.len() == i,
                forall|j: int| 0 <= j < i ==> !(#[trigger] slots@[j]).valid,
            decreases N - i,
        {
            slots.push(CacheSlot::new());
            i = i + 1;
        }
        RingCache { slots, fill_count: 0, access_counter: 0, hits: 0, misses: 0 }
    }

    /// The invariant, as plain facts about the slots: there are `N` of them,
    /// exactly the first `fill` are in use, no block is held twice, and every
    /// slot in use was last used before the counter.
    pub proof fn lemma_wf_slots(&self)
        requires
            self.wf(),
        ensures
            self.slots().len() == N,
            self.fill() <= N,
            forall|i: int| 0 <= i < N ==> (#[trigger] self.slots()[i]).2 == (i < self.fill()),
            forall|i: int, j: int|
                0 <= i < N && 0 <= j < N && i != j && self.slots()[i].2 && self.slots()[j].2
                    ==> #[trigger] self.slots()[i].0 != #[trigger] self.slots()[j].0,
            forall|i: int| 0 <= i < N && (#[trigger] self.slots()[i]).2 ==> self.slots()[i].3 < self.counter(),
    {
    }

    /// Under the invariant, the slot holding a block is the one its cached
    /// data is taken from.
    pub proof fn lemma_contents_at(&self, i: int, id: u64)
        requires
            self.wf(),
            0 <= i < N,
            holds(self.slots()[i], id),
        ensures
            self.contents().contains_key(id),
            self.contents()[id] == self.slots()[i].1,
    {
        assert(self.slots().len() == N);
        let j = choose|j: int| 0 <= j < self.slots().len() && holds(#[trigger] self.slots()[j], id);
        assert(holds(self.slots()[j], id));
        if j != i {
            assert(self.slots@[i].valid && self.slots@[j].valid);
            assert(self.slots@[i].block_id == self.slots@[j].block_id);
        }
    }

    /// In a full cache, the slot an insertion replaces holds the least
    /// recently used block.
    pub proof fn lemma_full_replaces_least_recent(&self)
        requires
            self.wf(),
        ensures
            self.fill() == N ==> forall|j: int|
                0 <= j < N ==> self.slots()[oldest_slot(self.slots()).0].3 <= #[trigger] self.slots()[j].3,
    {
        if self.fill() == N && N > 0 {
            assert forall|i: int| 0 <= i < self.slots().len() implies (#[trigger] self.slots()[i]).2
                && self.slots()[i].3 < u32::MAX by {
                assert(self.slots@[i].valid);
            }
            lemma_oldest_slot_is_least_recent(self.slots());
        }
    }

    /// Under the invariant, a block no slot holds is not cached.
    pub proof fn lemma_contents_absent(&self, id: u64)
        requires
            self.wf(),
            forall|i: int| 0 <= i < N ==> !holds(#[trigger] self.slots()[i], id),
        ensures
            !self.contents().contains_key(id),
    {
        assert(self.slots().len() == N);
    }

    /// The cached data of `block_id`; a hit makes it the most recently used
    /// block and counts as a hit, otherwise a miss is counted.
    pub fn get(&mut self, block_id: u64) -> (r: Option<&[u8]>)
        requires
            old(self).wf(),
            old(self).contents().contains_key(block_id) ==> old(self).counter() < u32::MAX
                && old(self).spec_hits() < usize::MAX,
            !old(self).contents().contains_key(block_id) ==> old(self).spec_misses() < usize::MAX,
        ensures
            final(self).wf(),
            final(self).fill() == old(self).fill(),
            final(self).contents() == old(self).contents(),
            r is Some <==> old(self).contents().contains_key(block_id),
            r matches Some(v) ==> v@ == old(self).contents()[block_id],
            match r {
                Some(v) => exists|i: int|
                    0 <= i < N && holds(#[trigger] old(self).slots()[i], block_id) && v@ == old(self).slots()[i].1 && final(self).slots() == old(self).slots().update(
                        i,
                        (block_id, old(self).slots()[i].1, true, old(self).counter()),
                    ) && final(self).counter() == old(self).counter() + 1 && final(self).spec_hits()
                        == old(self).spec_hits() + 1 && final(self).spec_misses() == old(self).spec_misses(),
                None => (forall|i: int| 0 <= i < N ==> !holds(#[trigger] old(self).slots()[i], block_id))
                    && final(self).slots() == old(self).slots() && final(self).counter() == old(self).counter() && final(self).spec_hits() == old(self).spec_hits() && final(self).spec_misses() == old(self).spec_misses() + 1,
            },
    {
        let mut i: usize = 0;
        while i < self.slots.len()
            invariant
                0 <= i <= N,
                *self == *old(self),
                self.wf(),
                self.contents().contains_key(block_id) ==> self.access_counter < u32::MAX
                    && self.hits < usize::MAX,
                !self.contents().contains_key(block_id) ==> self.misses < usize::MAX,
                forall|j: int| 0 <= j < i ==> !holds(#[trigger] self.slots()[j], block_id),
            decreases N - i,
        {
            if self.slots[i].valid && self.slots[i].block_id == block_id {
                proof {
                    self.lemma_contents_at(i as int, block_id);
                }
                let ghost before = self.slots();
                let counter = self.access_counter;
                self.slots[i].last_access = counter;
                self.access_counter = counter + 1;
                self.hits = self.hits + 1;
                proof {
                    assert(self.slots() =~= before.update(
                        i as int,
                        (block_id, before[i as int].1, true, counter),
                    ));
                }
                proof {
                    old(self).lemma_contents_at(i as int, block_id);
                    assert forall|k: u64| #[trigger] self.contents().contains_key(k)
                        == old(self).contents().contains_key(k) && (self.contents().contains_key(k)
                        ==> self.contents()[k] == old(self).contents()[k]) by {
                        lemma_same_data_contents(old(self).slots(), self.slots(), k);
                    }
                    assert(self.contents() =~= old(self).contents());
                }
                return Some(self.slots[i].data.as_slice());
            }
            i = i + 1;
        }
        proof {
            old(self).lemma_contents_absent(block_id);
        }
        self.misses = self.misses + 1;
        proof {
            assert(self.slots() =~= old(self).slots());
        }
        None
    }

    /// Stores `data` as block `block_id`, as the most recently used block:
    /// in the slot already holding it, else in the next unfilled slot, else
    /// in the slot of the least recently used block.
    pub fn insert(&mut self, block_id: u64, data: &[u8]) -> (r: Result<(), CacheError>)
        requires
            old(self).wf(),
            N > 0,
            data@.len() == BLOCK_SIZE,
            old(self).counter() < u32::MAX,
        ensures
            final(self).wf(),
            final(self).slots().len() == N,
            final(self).fill() <= N,
            r is Ok,
            final(self).contents().contains_key(block_id),
            final(self).contents()[block_id] == data@,
            old(self).contents().contains_key(block_id) || old(self).fill() < N
                ==> final(self).contents() == old(self).contents().insert(block_id, data@),
            !old(self).contents().contains_key(block_id) && old(self).fill() == N
                ==> final(self).contents() == old(self).contents().remove(
                old(self).slots()[oldest_slot(old(self).slots()).0].0,
            ).insert(block_id, data@),
            final(self).counter() == old(self).counter() + 1,
            final(self).spec_hits() == old(self).spec_hits(),
            final(self).spec_misses() == old(self).spec_misses(),
            (exists|i: int| 0 <= i < N && holds(#[trigger] old(self).slots()[i], block_id)) ==> exists|i: int|
                0 <= i < N && holds(#[trigger] old(self).slots()[i], block_id) && final(self).slots()
                    == old(self).slots().update(i, (block_id, data@, true, old(self).counter()))
                    && final(self).fill() == old(self).fill(),
            (forall|i: int| 0 <= i < N ==> !holds(#[trigger] old(self).slots()[i], block_id)) && old(self).fill() < N
                ==> final(self).slots() == old(self).slots().update(
                old(self).fill() as int,
                (block_id, data@, true, old(self).counter()),
            ) && final(self).fill() == old(self).fill() + 1,
            (forall|i: int| 0 <= i < N ==> !holds(#[trigger] old(self).slots()[i], block_id)) && old(self).fill() == N
                ==> final(self).slots() == old(self).slots().update(
                oldest_slot(old(self).slots()).0,
                (block_id, data@, true, old(self).counter()),
            ) && final(self).fill() == old(self).fill(),
            old(self).fill() == N ==> forall|j: int|
                0 <= j < N ==> old(self).slots()[oldest_slot(old(self).slots()).0].3
                    <= #[trigger] old(self).slots()[j].3,
    {
        let block = block_from_slice(data);
        let mut i: usize = 0;
        while i < self.slots.len()
            invariant
                0 <= i <= N,
                *self == *old(self),
                self.wf(),
                self.access_counter < u32::MAX,
                block@ == data@,
                forall|j: int| 0 <= j < i ==> !holds(#[trigger] self.slots()[j], block_id),
            decreases N - i,
        {
            if self.slots[i].valid && self.slots[i].block_id == block_id {
                let ghost before = self.slots();
                let counter = self.access_counter;
                self.slots[i].data = block;
                self.slots[i].last_access = counter;
                self.access_counter = counter + 1;
                proof {
                    assert(self.slots() =~= before.update(
                        i as int,
                        (block_id, data@, true, counter),
                    ));
                    assert(holds(old(self).slots()[i as int], block_id));
                    assert(self.slots@[i as int].valid);
                    assert forall|a: int, b: int|
                        0 <= a < N && 0 <= b < N && a != b && self.slots@[a].valid && self.slots@[b].valid
                            implies #[trigger] self.slots@[a].block_id != #[trigger] self.slots@[b].block_id by {
                        assert(before[a] == old(self).slots()[a]);
                        assert(before[b] == old(self).slots()[b]);
                    }
                    assert(self.wf());
                    self.lemma_contents_at(i as int, block_id);
                    old(self).lemma_full_replaces_least_recent();
                    old(self).lemma_contents_at(i as int, block_id);
                    lemma_slots_contents_update(before, i as int, (block_id, data@, true, counter));
                    assert(old(self).contents().remove(block_id).insert(block_id, data@)
                        =~= old(self).contents().insert(block_id, data@));
                }
                return Ok(());
            }
            i = i + 1;
        }
        let ghost before = self.slots();
        let slot_idx = if self.fill_count < N {
            let idx = self.fill_count;
            self.fill_count = self.fill_count + 1;
            idx
        } else {
            let mut oldest: usize = 0;
            let mut oldest_time: u32 = u32::MAX;
            let mut k: usize = 0;
            while k < self.slots.len()
                invariant
                    0 <= k <= N,
                    *self == *old(self),
                    self.slots@.len() == N,
                    (oldest as int, oldest_time) == oldest_slot(self.slots().take(k as int)),
                    oldest < N,
                decreases N - k,
            {
                proof {
                    assert(self.slots().take(k + 1).drop_last() =~= self.slots().take(k as int));
                }
                if self.slots[k].valid && self.slots[k].last_access < oldest_time {
                    oldest_time = self.slots[k].last_access;
                    oldest = k;
                }
                k = k + 1;
            }
            proof {
                assert(self.slots().take(N as int) =~= self.slots());
            }
            oldest
        };
        let counter = self.access_counter;
        self.slots[slot_idx].block_id = block_id;
        self.slots[slot_idx].data = block;
        self.slots[slot_idx].valid = true;
        self.slots[slot_idx].last_access = counter;
        self.access_counter = counter + 1;
        proof {
            assert(self.slots() =~= before.update(slot_idx as int, (block_id, data@, true, counter)));
            assert forall|j: int| 0 <= j < N implies (#[trigger] self.slots@[j]).valid == (j
                < self.fill_count) by {
                if j != slot_idx {
                    assert(self.slots@[j] == old(self).slots@[j]);
                    assert(before[j] == self.slots()[j]);
                }
            }
            assert forall|a: int, b: int|
                0 <= a < N && 0 <= b < N && a != b && self.slots@[a].valid && self.slots@[b].valid
                    implies #[trigger] self.slots@[a].block_id != #[trigger] self.slots@[b].block_id by {
                assert(before[a] == old(self).slots()[a]);
                assert(before[b] == old(self).slots()[b]);
                if a != slot_idx && b != slot_idx {
                    assert(self.slots@[a] == old(self).slots@[a]);
                    assert(self.slots@[b] == old(self).slots@[b]);
                } else if a == slot_idx {
                    assert(self.slots@[b] == old(self).slots@[b]);
                    assert(!holds(old(self).slots()[b], block_id));
                } else {
                    assert(self.slots@[a] == old(self).slots@[a]);
                    assert(!holds(old(self).slots()[a], block_id));
                }
            }
            assert forall|j: int| 0 <= j < N && (#[trigger] self.slots@[j]).valid implies
                self.slots@[j].last_access < self.access_counter by {
                if j != slot_idx {
                    assert(self.slots@[j] == old(self).slots@[j]);
                }
            }
            assert(self.wf());
            self.lemma_contents_at(slot_idx as int, block_id);
            old(self).lemma_full_replaces_least_recent();
            old(self).lemma_contents_absent(block_id);
            lemma_slots_contents_update(before, slot_idx as int, (block_id, data@, true, counter));
            if old(self).fill_count == N {
                assert(before[slot_idx as int].2) by {
                    assert(old(self).slots@[slot_idx as int].valid);
                }
            }
        }
        Ok(())
    }

    /// The number of slots filled.
    pub fn len(&self) -> (n: usize)
        ensures
            n == self.fill(),
    {
        self.fill_count
    }

    /// Lookups that found their block.
    pub fn hits(&self) -> (n: usize)
        ensures
            n == self.spec_hits(),
    {
        self.hits
    }

    /// Lookups that did not find their block.
    pub fn misses(&self) -> (n: usize)
        ensures
            n == self.spec_misses(),
    {
        self.misses
    }

    /// Marks every slot unused.
    pub fn clear(&mut self)
        requires
            old(self).wf(),
        ensures
            final(self).wf(),
            final(self).slots().len() == N,
            final(self).fill() == 0,
            final(self).counter() == old(self).counter(),
            final(self).spec_hits() == old(self).spec_hits(),
            final(self).spec_misses() == old(self).spec_misses(),
            forall|i: int| 0 <= i < N ==> !(#[trigger] final(self).slots()[i]).2,
            final(self).contents() =~= Map::empty(),
    {
        let mut i: usize = 0;
        while i < self.slots.len()
            invariant
                0 <= i <= N,
                self.slots@.len() == N,
                self.access_counter == old(self).access_counter,
                self.hits == old(self).hits,
                self.misses == old(self).misses,
                forall|j: int| 0 <= j < i ==> !(#[trigger] self.slots@[j]).valid,
            decreases N - i,
        {
            self.slots[i].valid = false;
            i = i + 1;
        }
        self.fill_count = 0;
        assert(self.contents() =~= Map::empty());
    }
}

} // verus!
