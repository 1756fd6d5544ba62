//! The in-memory write buffer: fixed-size keys, values packed into an
//! arena, and a hash index from key to entry.
use vstd::prelude::*;
use vstd::slice::slice_subrange;

verus! {

/// One memtable entry: its key and where its value lies in the arena.
#[derive(Clone, Debug, PartialEq)]
pub struct Entry<const K_SIZE: usize> {
    pub key: [u8; K_SIZE],
    pub value_offset: usize,
    pub value_len: u16,
}

/// The index of a memtable, from key bytes to entry position, held in a
/// `hashbrown::HashMap<Vec<u8>, usize>`.
#[verifier::external_body]
pub struct KeyIndex {
    map: hashbrown::HashMap<Vec<u8>, usize>,
}

/// The key-to-position pairs that a key index holds.
pub uninterp spec fn key_index_contents(index: KeyIndex) -> Map<Seq<u8>, usize>;

impl KeyIndex {
    /// Calls `hashbrown::HashMap::with_capacity`, which returns an empty map.
    #[verifier::external_body]
    pub(crate) fn with_capacity(capacity: usize) -> (index: KeyIndex)
        ensures
            key_index_contents(index) =~= Map::empty(),
    {
        KeyIndex { map: hashbrown::HashMap::with_capacity(capacity) }
    }

    /// Calls `hashbrown::HashMap::contains_key`, which tells whether the map
    /// holds the key.
    #[verifier::external_body]
    pub(crate) fn contains_key(&self, key: &[u8]) -> (found: bool)
        ensures
            found == key_index_contents(*self).contains_key(key@),
    {
        self.map.contains_key(key)
    }

    /// Calls `hashbrown::HashMap::get`, which returns the position stored for
    /// the key, if any.
    #[verifier::external_body]
    pub(crate) fn get(&self, key: &[u8]) -> (pos: Option<usize>)
        ensures
            match pos {
                Some(p) => key_index_contents(*self).contains_key(key@) && key_index_contents(
                    *self,
                )[key@] == p,
                None => !key_index_contents(*self).contains_key(key@),
            },
    {
        self.map.get(key).copied()
    }

    /// Calls `hashbrown::HashMap::insert` with an owned copy of the key; the
    /// map then maps the key to `pos`, and every other key as before.
    #[verifier::external_body]
    pub(crate) fn insert(&mut self, key: &[u8], pos: usize)
        ensures
            key_index_contents(*final(self)) == key_index_contents(*old(self)).insert(key@, pos),
    {
        self.map.insert(key.to_vec(), pos);
    }

    /// Calls `hashbrown::HashMap::clear`, which removes every pair.
    #[verifier::external_body]
    pub(crate) fn clear(&mut self)
        ensures
            key_index_contents(*final(self)) =~= Map::empty(),
    {
        self.map.clear();
    }
}

/// The value of the first entry whose key is `key`.
pub open spec fn find_value(entries: Seq<(Seq<u8>, Seq<u8>)>, key: Seq<u8>) -> Option<Seq<u8>>
    decreases entries.len(),
{
    if entries.len() == 0 {
        None
    } else if entries[0].0 == key {
        Some(entries[0].1)
    } else {
        find_value(entries.skip(1), key)
    }
}

/// No two entries have the same key.
pub open spec fn keys_distinct(entries: Seq<(Seq<u8>, Seq<u8>)>) -> bool {
    forall|i: int, j: int|
        0 <= i < entries.len() && 0 <= j < entries.len() && i != j ==> #[trigger] entries[i].0
            != #[trigger] entries[j].0
}

/// The part of `value` that an entry keeps: its length is recorded as a
/// `u16`, so only the first `value.len() % 65536` bytes stay reachable.
pub open spec fn stored_value(value: Seq<u8>) -> Seq<u8> {
    if value.len() <= u16::MAX {
        value
    } else {
        value.subrange(0, (value.len() % 65536) as int)
    }
}

/// Where the keys are distinct, the entry at `i` is the one found for its
/// key.
pub proof fn lemma_find_value_at(entries: Seq<(Seq<u8>, Seq<u8>)>, i: int)
    requires
        keys_distinct(entries),
        0 <= i < entries.len(),
    ensures
        find_value(entries, entries[i].0) == Some(entries[i].1),
    decreases entries.len(),
{
    if i > 0 {
        assert(entries[0].0 != entries[i].0);
        let rest = entries.skip(1);
        assert(rest[i - 1] == entries[i]);
        assert forall|a: int, b: int|
            0 <= a < rest.len() && 0 <= b < rest.len() && a != b implies #[trigger] rest[a].0
            != #[trigger] rest[b].0 by {
            assert(rest[a] == entries[a + 1]);
            assert(rest[b] == entries[b + 1]);
        }
        lemma_find_value_at(rest, i - 1);
    }
}

/// A key no entry has is not found.
pub proof fn lemma_find_value_absent(entries: Seq<(Seq<u8>, Seq<u8>)>, key: Seq<u8>)
    requires
        forall|i: int| 0 <= i < entries.len() ==> #[trigger] entries[i].0 != key,
    ensures
        find_value(entries, key) is None,
    decreases entries.len(),
{
    if entries.len() > 0 {
        let rest = entries.skip(1);
        assert forall|i: int| 0 <= i < rest.len() implies #[trigger] rest[i].0 != key by {
            assert(rest[i] == entries[i + 1]);
        }
        lemma_find_value_absent(rest, key);
    }
}

/// After an insertion of `key` that succeeds, a lookup of `key` gives the
/// value inserted, and a lookup of any other key gives what it gave before.
pub proof fn lemma_insert_then_find(
    entries: Seq<(Seq<u8>, Seq<u8>)>,
    key: Seq<u8>,
    value: Seq<u8>,
    other: Seq<u8>,
)
    requires
        forall|i: int| 0 <= i < entries.len() ==> #[trigger] entries[i].0 != key,
    ensures
        find_value(entries.push((key, value)), key) == Some(value),
        other != key ==> find_value(entries.push((key, value)), other) == find_value(entries, other),
    decreases entries.len(),
{
    let pushed = entries.push((key, value));
    if entries.len() == 0 {
        assert(pushed[0] == (key, value));
        assert(pushed.skip(1) =~= Seq::<(Seq<u8>, Seq<u8>)>::empty());
        assert(find_value(pushed.skip(1), other) is None);
    } else {
        let rest = entries.skip(1);
        assert(pushed[0] == entries[0]);
        assert(pushed.skip(1) =~= rest.push((key, value)));
        assert forall|i: int| 0 <= i < rest.len() implies #[trigger] rest[i].0 != key by {
            assert(rest[i] == entries[i + 1]);
        }
        lemma_insert_then_find(rest, key, value, other);
    }
}

/// What an entry yields when iterated: its key and value, or nothing when
/// its value does not lie within the arena.
pub open spec fn entry_item<const K_SIZE: usize>(e: Entry<K_SIZE>, arena: Seq<u8>) -> Option<
    (Seq<u8>, Seq<u8>),
> {
    if e.value_offset + e.value_len <= arena.len() {
        Some(entry_view(e, arena))
    } else {
        None
    }
}

/// An iterator over a memtable's entries in insertion order.
pub struct MemtableIter<'a, const K_SIZE: usize> {
    entries: &'a [Entry<K_SIZE>],
    arena: &'a [u8],
    pos: usize,
}

impl<'a, const K_SIZE: usize> MemtableIter<'a, K_SIZE> {
    /// What the remaining calls of `next` return, in order, until the first
    /// `None` that ends the entries.
    pub closed spec fn remaining(&self) -> Seq<Option<(Seq<u8>, Seq<u8>)>> {
        Seq::new(
            if self.pos <= self.entries@.len() {
                (self.entries@.len() - self.pos) as nat
            } else {
                0
            },
            |i: int| entry_item(self.entries@[self.pos + i], self.arena@),
        )
    }

    /// The next entry's key and value.
    pub fn next(&mut self) -> (r: Option<(&'a [u8; K_SIZE], &'a [u8])>)
        ensures
            old(self).remaining().len() == 0 ==> r is None && final(self).remaining() == old(
                self,
            ).remaining(),
            old(self).remaining().len() > 0 ==> final(self).remaining() == old(
                self,
            ).remaining().drop_first(),
            old(self).remaining().len() > 0 ==> match old(self).remaining()[0] {
                Some(kv) => r matches Some((k, v)) && k@ == kv.0 && v@ == kv.1,
                None => r is None,
            },
    {
        if self.pos >= self.entries.len() {
            assert(self.remaining() =~= Seq::<Option<(Seq<u8>, Seq<u8>)>>::empty());
            return None;
        }
        let entries: &'a [Entry<K_SIZE>] = self.entries;
        let arena: &'a [u8] = self.arena;
        let entry: &'a Entry<K_SIZE> = &entries[self.pos];
        self.pos = self.pos + 1;
        proof {
            assert(self.remaining() =~= old(self).remaining().drop_first());
        }
        let start = entry.value_offset;
        if entry.value_len as usize > arena.len() || start > arena.len() - entry.value_len as usize {
            return None;
        }
        let end = start + entry.value_len as usize;
        Some((&entry.key, slice_subrange(arena, start, end)))
    }
}

/// Why an insertion was refused.
#[derive(Debug, PartialEq, Eq, Structural, Clone, Copy)]
pub enum MemtableError {
    Full,
    KeyExists,
    ValueTooLarge,
    ArenaFull,
}

/// An in-memory table of at most `capacity` entries with `K_SIZE`-byte keys
/// and values of at most `V_SIZE` bytes, kept in insertion order.
pub struct Memtable<const K_SIZE: usize, const V_SIZE: usize> {
    entries: Vec<Entry<K_SIZE>>,
    index: KeyIndex,
    arena: Vec<u8>,
    arena_capacity: usize,
    arena_pos: usize,
    total_bytes: usize,
    max_entries: usize,
}

/// The key and value an entry designates in `arena`.
pub open spec fn entry_view<const K_SIZE: usize>(e: Entry<K_SIZE>, arena: Seq<u8>) -> (
    Seq<u8>,
    Seq<u8>,
) {
    (e.key@, arena.subrange(e.value_offset as int, e.value_offset + e.value_len))
}

impl<const K_SIZE: usize, const V_SIZE: usize> View for Memtable<K_SIZE, V_SIZE> {
    type V = Seq<(Seq<u8>, Seq<u8>)>;

    /// The entries, as key and value, in insertion order.
    closed spec fn view(&self) -> Seq<(Seq<u8>, Seq<u8>)> {
        Seq::new(self.entries@.len(), |i: int| entry_view(self.entries@[i], self.arena@))
    }
}

impl<const K_SIZE: usize, const V_SIZE: usize> Memtable<K_SIZE, V_SIZE> {
    /// The internal invariant.
    pub closed spec fn wf(&self) -> bool {
        let map = key_index_contents(self.index);
        &&& self.arena@.len() == self.arena_pos
        &&& self.arena_pos <= self.arena_capacity
        &&& self.arena_pos <= self.entries@.len() * V_SIZE
        &&& self.arena_capacity == self.max_entries * V_SIZE
        &&& self.entries@.len() <= self.max_entries
        &&& forall|i: int|
            0 <= i < self.entries@.len() ==> #[trigger] self.entries@[i].value_offset
                + self.entries@[i].value_len <= self.arena_pos
        &&& forall|i: int|
            0 <= i < self.entries@.len() ==> #[trigger] self.entries@[i].value_len <= V_SIZE
        &&& forall|k: Seq<u8>|
            #[trigger] map.contains_key(k) ==> 0 <= map[k] < self.entries@.len()
                && self.entries@[map[k] as int].key@ == k
        &&& forall|i: int|
            0 <= i < self.entries@.len() ==> #[trigger] map.contains_key(self.entries@[i].key@)
                && map[self.entries@[i].key@] == i
        &&& self.total_bytes == self.entries@.len() * K_SIZE + self.arena_pos
    }

    /// The most entries the table takes.
    pub closed spec fn max_entries(&self) -> nat {
        self.max_entries as nat
    }

    /// The most value bytes the arena takes.
    pub closed spec fn arena_capacity(&self) -> nat {
        self.arena_capacity as nat
    }

    /// The value bytes used so far.
    pub closed spec fn arena_used(&self) -> nat {
        self.arena_pos as nat
    }

    /// Keys and values held, in bytes.
    pub closed spec fn spec_total_bytes(&self) -> nat {
        self.total_bytes as nat
    }

    /// The invariant gives distinct keys of `K_SIZE` bytes each.
    pub proof fn lemma_wf_view(&self)
        requires
            self.wf(),
        ensures
            keys_distinct(self@),
            forall|i: int| 0 <= i < self@.len() ==> (#[trigger] self@[i]).0.len() == K_SIZE,
            forall|i: int| 0 <= i < self@.len() ==> (#[trigger] self@[i]).1.len() <= u16::MAX,
            forall|i: int| 0 <= i < self@.len() ==> (#[trigger] self@[i]).1.len() <= V_SIZE,
            self@.len() <= self.max_entries(),
            self.arena_used() <= self.arena_capacity(),
            self.arena_used() <= self@.len() * V_SIZE,
            self.arena_capacity() == self.max_entries() * V_SIZE,
            self.spec_total_bytes() == self@.len() * K_SIZE + self.arena_used(),
    {
        let map = key_index_contents(self.index);
        assert forall|i: int| 0 <= i < self@.len() implies (#[trigger] self@[i]).1.len() <= u16::MAX
            && self@[i].1.len() <= V_SIZE by {
            assert(self.entries@[i].value_offset + self.entries@[i].value_len <= self.arena_pos);
            assert(self.entries@[i].value_len <= V_SIZE);
        }
        assert forall|i: int, j: int|
            0 <= i < self@.len() && 0 <= j < self@.len() && i != j implies #[trigger] self@[i].0
            != #[trigger] self@[j].0 by {
            assert(map.contains_key(self.entries@[i].key@));
            assert(map.contains_key(self.entries@[j].key@));
            assert(map[self.entries@[i].key@] == i);
            assert(map[self.entries@[j].key@] == j);
        }
    }

    /// An empty table for `capacity` entries whose arena takes
    /// `V_SIZE * capacity` value bytes.
    pub fn new(capacity: usize) -> (m: Self)
        requires
            V_SIZE * capacity <= usize::MAX,
        ensures
            m.wf(),
            m@ == Seq::<(Seq<u8>, Seq<u8>)>::empty(),
            m.max_entries() == capacity,
            m.arena_capacity() == V_SIZE * capacity,
            m.arena_used() == 0,
    {
        let arena_capacity = V_SIZE * capacity;
        let m = Memtable {
            entries: Vec::with_capacity(capacity),
            index: KeyIndex::with_capacity(capacity),
            arena: Vec::with_capacity(arena_capacity),
            arena_capacity,
            arena_pos: 0,
            total_bytes: 0,
            max_entries: capacity,
        };
        assert(m@ =~= Seq::<(Seq<u8>, Seq<u8>)>::empty());
        assert(V_SIZE * capacity == capacity * V_SIZE) by (nonlinear_arith);
        m
    }

    /// The outcome the insertion of `key` with a value of `value_len` bytes
    /// has, checked in this order: the table is full, the key is present,
    /// the value is too long, the arena has no room.
    pub open spec fn insert_outcome(&self, key: Seq<u8>, value_len: nat) -> Result<(), MemtableError> {
        if self@.len() >= self.max_entries() {
            Err(MemtableError::Full)
        } else if exists|i: int| 0 <= i < self@.len() && #[trigger] self@[i].0 == key {
            Err(MemtableError::KeyExists)
        } else if value_len > V_SIZE {
            Err(MemtableError::ValueTooLarge)
        } else if self.arena_used() + value_len > self.arena_capacity() {
            Err(MemtableError::ArenaFull)
        } else {
            Ok(())
        }
    }

    /// Appends an entry for `key` holding `value`, unless the table is full,
    /// the key is present, the value is too long or the arena has no room.
    pub fn insert(&mut self, key: &[u8; K_SIZE], value: &[u8]) -> (r: Result<(), MemtableError>)
        requires
            old(self).wf(),
            old(self).insert_outcome(key@, value@.len()) is Ok ==> old(self).spec_total_bytes()
                + K_SIZE + value@.len() <= usize::MAX,
        ensures
            final(self).wf(),
            r == old(self).insert_outcome(key@, value@.len()),
            r != Err::<(), MemtableError>(MemtableError::ArenaFull),
            old(self)@.len() < old(self).max_entries() && (forall|i: int|
                0 <= i < old(self)@.len() ==> #[trigger] old(self)@[i].0 != key@) && value@.len()
                <= V_SIZE ==> r is Ok,
            r == Err::<(), MemtableError>(MemtableError::ValueTooLarge) ==> value@.len() > V_SIZE,
            r == Err::<(), MemtableError>(MemtableError::Full) <==> old(self)@.len() >= old(
                self,
            ).max_entries(),
            r == Err::<(), MemtableError>(MemtableError::KeyExists) ==> exists|i: int|
                0 <= i < old(self)@.len() && #[trigger] old(self)@[i].0 == key@,
            r is Ok ==> value@.len() <= V_SIZE && forall|i: int|
                0 <= i < old(self)@.len() ==> #[trigger] old(self)@[i].0 != key@,
            final(self).max_entries() == old(self).max_entries(),
            final(self).arena_capacity() == old(self).arena_capacity(),
            r is Err ==> final(self)@ == old(self)@ && final(self).arena_used() == old(self).arena_used()
                && final(self).spec_total_bytes() == old(self).spec_total_bytes(),
            r is Ok ==> final(self)@ == old(self)@.push((key@, stored_value(value@))),
            r is Ok ==> final(self).arena_used() == old(self).arena_used() + value@.len(),
            r is Ok ==> final(self).spec_total_bytes() == old(self).spec_total_bytes() + K_SIZE
                + value@.len(),
    {
        let ghost map0 = key_index_contents(self.index);
        if self.entries.len() >= self.max_entries {
            return Err(MemtableError::Full);
        }
        if self.index.contains_key(key.as_slice()) {
            proof {
                let i = map0[key@] as int;
                assert(self@[i].0 == key@);
            }
            return Err(MemtableError::KeyExists);
        }
        proof {
            assert forall|i: int| 0 <= i < self@.len() implies #[trigger] self@[i].0 != key@ by {
                assert(map0.contains_key(self.entries@[i].key@));
            }
        }
        if value.len() > V_SIZE {
            return Err(MemtableError::ValueTooLarge);
        }
        proof {
            let n = self.entries@.len() as int;
            let m = self.max_entries as int;
            assert((n + 1) * V_SIZE <= m * V_SIZE && (n + 1) * V_SIZE == n * V_SIZE + V_SIZE)
                by (nonlinear_arith)
                requires
                    n + 1 <= m,
            ;
        }
        if value.len() > self.arena_capacity - self.arena_pos {
            return Err(MemtableError::ArenaFull);
        }
        assert(old(self).insert_outcome(key@, value@.len()) is Ok);
        let ghost view0 = self@;
        let ghost arena0 = self.arena@;
        let len = value.len();
        if self.arena.len() < self.arena_pos + len {
            let needed = self.arena_pos + len;
            self.arena.resize(needed, 0);
        }
        let offset = self.arena_pos;
        let mut i: usize = 0;
        while i < len
            invariant
                0 <= i <= len,
                len == value@.len(),
                offset + len <= usize::MAX,
                self.arena_pos == offset,
                self.arena_capacity == old(self).arena_capacity,
                self.entries == old(self).entries,
                self.index == old(self).index,
                self.total_bytes == old(self).total_bytes,
                self.max_entries == old(self).max_entries,
                offset + len <= self.arena@.len(),
                self.arena@.len() == offset + len,
                offset == arena0.len(),
                forall|j: int| 0 <= j < offset ==> self.arena@[j] == arena0[j],
                forall|j: int| 0 <= j < i ==> self.arena@[offset + j] == value@[j],
            decreases len - i,
        {
            self.arena.set(offset + i, value[i]);
            i = i + 1;
        }
        self.arena_pos = self.arena_pos + len;
        let stored_len = #[verifier::truncate] (len as u16);
        proof {
            assert((len as u16) as usize == len % 65536) by (bit_vector);
        }
        let entry = Entry { key: *key, value_offset: offset, value_len: stored_len };
        let idx = self.entries.len();
        self.entries.push(entry);
        self.index.insert(key.as_slice(), idx);
        proof {
            assert((idx as int + 1) * K_SIZE == idx as int * K_SIZE + K_SIZE) by (nonlinear_arith);
        }
        self.total_bytes = self.total_bytes + K_SIZE + len;
        proof {
            let map = key_index_contents(self.index);
            assert(map == map0.insert(key@, idx));
            assert forall|j: int| 0 <= j < idx implies #[trigger] self@[j] == view0[j] by {
                assert(self.entries@[j] == old(self).entries@[j]);
                assert(self.arena@.subrange(
                    self.entries@[j].value_offset as int,
                    self.entries@[j].value_offset + self.entries@[j].value_len,
                ) =~= arena0.subrange(
                    self.entries@[j].value_offset as int,
                    self.entries@[j].value_offset + self.entries@[j].value_len,
                ));
            }
            assert(self@[idx as int] == (key@, stored_value(value@))) by {
                assert(self.arena@.subrange(offset as int, offset + stored_len) =~= stored_value(
                    value@,
                ));
            }
            assert(self@ =~= view0.push((key@, stored_value(value@))));
            assert forall|k: Seq<u8>| #[trigger] map.contains_key(k) implies 0 <= map[k]
                < self.entries@.len() && self.entries@[map[k] as int].key@ == k by {
                if k != key@ {
                    assert(map0.contains_key(k));
                }
            }
            assert forall|j: int| 0 <= j < self.entries@.len() implies #[trigger] map.contains_key(
                self.entries@[j].key@,
            ) && map[self.entries@[j].key@] == j by {
                if j < idx {
                    assert(self.entries@[j] == old(self).entries@[j]);
                    assert(map0.contains_key(self.entries@[j].key@));
                    assert(self.entries@[j].key@ != key@);
                }
            }
        }
        Ok(())
    }

    /// The value stored for `key`.
    pub fn get(&self, key: &[u8; K_SIZE]) -> (r: Option<&[u8]>)
        requires
            self.wf(),
        ensures
            match r {
                Some(v) => find_value(self@, key@) == Some(v@),
                None => find_value(self@, key@) is None,
            },
    {
        proof {
            self.lemma_wf_view();
        }
        let idx = match self.index.get(key.as_slice()) {
            Some(i) => i,
            None => {
                proof {
                    assert forall|i: int| 0 <= i < self@.len() implies #[trigger] self@[i].0
                        != key@ by {
                        assert(key_index_contents(self.index).contains_key(self.entries@[i].key@));
                    }
                    lemma_find_value_absent(self@, key@);
                }
                return None;
            },
        };
        let entry = &self.entries[idx];
        let start = entry.value_offset;
        let end = start + entry.value_len as usize;
        proof {
            lemma_find_value_at(self@, idx as int);
        }
        if end <= self.arena.len() {
            Some(slice_subrange(self.arena.as_slice(), start, end))
        } else {
            None
        }
    }

    /// Whether the table holds its maximum number of entries.
    pub fn is_full(&self) -> (full: bool)
        requires
            self.wf(),
        ensures
            full == (self@.len() >= self.max_entries()),
    {
        self.entries.len() >= self.max_entries
    }

    pub fn len(&self) -> (n: usize)
        ensures
            n == self@.len(),
    {
        self.entries.len()
    }

    pub fn is_empty(&self) -> (empty: bool)
        ensures
            empty == (self@.len() == 0),
    {
        self.entries.len() == 0
    }

    /// Key and value bytes held.
    pub fn total_bytes(&self) -> (n: usize)
        ensures
            n == self.spec_total_bytes(),
    {
        self.total_bytes
    }

    /// An iterator over the entries in insertion order.
    pub fn iter(&self) -> (it: MemtableIter<'_, K_SIZE>)
        requires
            self.wf(),
        ensures
            it.remaining() == self@.map_values(|kv: (Seq<u8>, Seq<u8>)| Some(kv)),
    {
        let it = MemtableIter { entries: self.entries.as_slice(), arena: self.arena.as_slice(), pos: 0 };
        proof {
            assert forall|i: int| 0 <= i < self.entries@.len() implies #[trigger] entry_item(
                self.entries@[i],
                self.arena@,
            ) == Some(self@[i]) by {
                assert(self.entries@[i].value_offset + self.entries@[i].value_len <= self.arena_pos);
            }
            assert(it.remaining() =~= self@.map_values(|kv: (Seq<u8>, Seq<u8>)| Some(kv)));
        }
        it
    }

    /// Removes every entry.
    pub fn clear(&mut self)
        requires
            old(self).wf(),
        ensures
            final(self).wf(),
            final(self)@ == Seq::<(Seq<u8>, Seq<u8>)>::empty(),
            final(self).max_entries() == old(self).max_entries(),
            final(self).arena_capacity() == old(self).arena_capacity(),
            final(self).arena_used() == 0,
            final(self).spec_total_bytes() == 0,
    {
        self.entries.clear();
        self.index.clear();
        self.arena.clear();
        self.arena_pos = 0;
        self.total_bytes = 0;
        assert(self@ =~= Seq::<(Seq<u8>, Seq<u8>)>::empty());
    }
}

} // verus!
