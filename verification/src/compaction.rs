//! Levels of tables and the manager that flushes memtables into level 0
//! and moves tables down when a level grows past its size limit.
use crate::memtable::Memtable;
use crate::memtable::find_value;
use crate::packing::{
    entry_fits, lemma_table_lookup_matches, max_key_bytes, min_key_bytes, or_else, padded_blocks,
    table_block_contents,
};
use crate::sstable::{
    block_datas, block_is_valid, blocks_lookup, standard_offsets, table_write_byte, Block, SSTable,
    SSTableMetadata, TableView, BLOCK_STRIDE, METADATA_MAGIC, METADATA_SIZE,
};
use crate::storage::Storage;
use vstd::prelude::*;

verus! {

/// Why a compaction step failed.
#[derive(Debug, PartialEq, Eq, Structural, Clone, Copy)]
pub enum CompactionError {
    LevelFull,
    WriteFailed,
    NoTables,
    MergeFailed,
}

/// The value a table gives for `key`.
pub open spec fn table_lookup(t: TableView, key: Seq<u8>) -> Option<Seq<u8>> {
    blocks_lookup(block_datas(t.1), key)
}

/// The value the first of `tables` that holds `key` gives.
pub open spec fn tables_lookup(tables: Seq<TableView>, key: Seq<u8>) -> Option<Seq<u8>>
    decreases tables.len(),
{
    if tables.len() == 0 {
        None
    } else {
        or_else(table_lookup(tables[0], key), tables_lookup(tables.skip(1), key))
    }
}

/// The size a table takes on storage.
pub open spec fn table_size(t: TableView) -> int {
    t.0.total_size + METADATA_SIZE
}

/// The tables as plain values.
pub open spec fn table_views(tables: Seq<SSTable>) -> Seq<TableView> {
    tables.map_values(|t: SSTable| t@)
}

/// The blocks of `tables`, those of the first table first.
pub open spec fn merged_blocks(tables: Seq<TableView>) -> Seq<Block>
    decreases tables.len(),
{
    if tables.len() == 0 {
        Seq::empty()
    } else {
        merged_blocks(tables.drop_last()) + tables.last().1
    }
}

/// The key counts of `tables`, added up.
pub open spec fn merged_key_count(tables: Seq<TableView>) -> nat
    decreases tables.len(),
{
    if tables.len() == 0 {
        0
    } else {
        (merged_key_count(tables.drop_last()) + tables.last().0.key_count) as nat
    }
}

/// Byte `j` of the smallest of the tables' minimum keys, position by
/// position; `0xFF` for no table.
pub open spec fn merged_min_byte(tables: Seq<TableView>, j: int) -> u8
    decreases tables.len(),
{
    if tables.len() == 0 {
        0xFFu8
    } else {
        let m = merged_min_byte(tables.drop_last(), j);
        let k = tables.last().0.min_key@[j];
        if k < m {
            k
        } else {
            m
        }
    }
}

/// Byte `j` of the largest of the tables' maximum keys, position by
/// position; `0` for no table.
pub open spec fn merged_max_byte(tables: Seq<TableView>, j: int) -> u8
    decreases tables.len(),
{
    if tables.len() == 0 {
        0u8
    } else {
        let m = merged_max_byte(tables.drop_last(), j);
        let k = tables.last().0.max_key@[j];
        if k > m {
            k
        } else {
            m
        }
    }
}

/// `md` is the metadata of the table merged from `tables`: the first
/// table's id, the blocks and keys of all of them, and the combined key
/// bounds.
pub open spec fn merged_metadata_ok(md: SSTableMetadata, tables: Seq<TableView>) -> bool {
    &&& md.magic == METADATA_MAGIC
    &&& md.version == 1
    &&& md.id == tables[0].0.id
    &&& md.block_count == merged_blocks(tables).len()
    &&& md.key_count == merged_key_count(tables)
    &&& md.min_key@ == Seq::new(16, |j: int| merged_min_byte(tables, j))
    &&& md.max_key@ == Seq::new(16, |j: int| merged_max_byte(tables, j))
    &&& md.total_size == merged_blocks(tables).len() * BLOCK_STRIDE
}

/// The table merged from `tables`: every block of every table, in order,
/// so that a lookup finds a key in the first table that holds it.
pub open spec fn merged_table(tables: Seq<TableView>) -> TableView {
    (
        choose|md: SSTableMetadata| merged_metadata_ok(md, tables),
        merged_blocks(tables),
        standard_offsets(merged_blocks(tables).len()),
    )
}

/// The merged table's block count and key count fit its `u32` fields.
pub open spec fn merge_fits(tables: Seq<TableView>) -> bool {
    merged_blocks(tables).len() <= u32::MAX && merged_key_count(tables) <= u32::MAX
}

/// The size the merged table takes on storage.
pub open spec fn merged_size(tables: Seq<TableView>) -> int {
    merged_blocks(tables).len() * BLOCK_STRIDE + METADATA_SIZE
}

/// At most one metadata value is that of a merge.
proof fn lemma_merged_metadata_unique(md1: SSTableMetadata, md2: SSTableMetadata, tables: Seq<TableView>)
    requires
        merged_metadata_ok(md1, tables),
        merged_metadata_ok(md2, tables),
    ensures
        md1 == md2,
{
    assert(md1.min_key =~= md2.min_key);
    assert(md1.max_key =~= md2.max_key);
}

/// Where the counts fit, the merged table's metadata is that of the merge,
/// and its size is the merged size.
pub proof fn lemma_merged_table(tables: Seq<TableView>)
    requires
        merge_fits(tables),
    ensures
        merged_metadata_ok(merged_table(tables).0, tables),
        table_size(merged_table(tables)) == merged_size(tables),
        merged_table(tables).1.len() <= u32::MAX,
{
    let nb = merged_blocks(tables).len();
    assert(nb * 4100 <= 0xFFFF_FFFF * 4100) by (nonlinear_arith)
        requires
            nb <= 0xFFFF_FFFF,
    ;
    let mn: [u8; 16] = [
        merged_min_byte(tables, 0),
        merged_min_byte(tables, 1),
        merged_min_byte(tables, 2),
        merged_min_byte(tables, 3),
        merged_min_byte(tables, 4),
        merged_min_byte(tables, 5),
        merged_min_byte(tables, 6),
        merged_min_byte(tables, 7),
        merged_min_byte(tables, 8),
        merged_min_byte(tables, 9),
        merged_min_byte(tables, 10),
        merged_min_byte(tables, 11),
        merged_min_byte(tables, 12),
        merged_min_byte(tables, 13),
        merged_min_byte(tables, 14),
        merged_min_byte(tables, 15),
    ];
    let mx: [u8; 16] = [
        merged_max_byte(tables, 0),
        merged_max_byte(tables, 1),
        merged_max_byte(tables, 2),
        merged_max_byte(tables, 3),
        merged_max_byte(tables, 4),
        merged_max_byte(tables, 5),
        merged_max_byte(tables, 6),
        merged_max_byte(tables, 7),
        merged_max_byte(tables, 8),
        merged_max_byte(tables, 9),
        merged_max_byte(tables, 10),
        merged_max_byte(tables, 11),
        merged_max_byte(tables, 12),
        merged_max_byte(tables, 13),
        merged_max_byte(tables, 14),
        merged_max_byte(tables, 15),
    ];
    assert(mn@ =~= Seq::new(16, |j: int| merged_min_byte(tables, j)));
    assert(mx@ =~= Seq::new(16, |j: int| merged_max_byte(tables, j)));
    let md = SSTableMetadata {
        magic: METADATA_MAGIC,
        version: 1,
        id: tables[0].0.id,
        block_count: nb as u32,
        key_count: merged_key_count(tables) as u32,
        min_key: mn,
        max_key: mx,
        total_size: (nb * BLOCK_STRIDE) as u64,
    };
    assert(merged_metadata_ok(md, tables));
    let c = choose|m: SSTableMetadata| merged_metadata_ok(m, tables);
    lemma_merged_metadata_unique(c, md, tables);
}

/// The blocks and keys of a prefix of the tables are no more than those of
/// all of them.
proof fn lemma_merged_prefix(tables: Seq<TableView>, i: int)
    requires
        0 <= i <= tables.len(),
    ensures
        merged_blocks(tables.take(i)).len() <= merged_blocks(tables).len(),
        merged_key_count(tables.take(i)) <= merged_key_count(tables),
    decreases tables.len() - i,
{
    if i == tables.len() {
        assert(tables.take(i) =~= tables);
    } else {
        lemma_merged_prefix(tables, i + 1);
        assert(tables.take(i + 1).drop_last() =~= tables.take(i));
    }
}

/// Looking a key up in two runs of blocks, one after the other, looks in
/// the first run, then in the second.
proof fn lemma_blocks_lookup_concat(x: Seq<Seq<u8>>, y: Seq<Seq<u8>>, key: Seq<u8>)
    ensures
        blocks_lookup(x + y, key) == or_else(blocks_lookup(x, key), blocks_lookup(y, key)),
    decreases x.len(),
{
    if x.len() == 0 {
        assert(x + y =~= y);
    } else {
        assert((x + y)[0] == x[0]);
        assert((x + y).skip(1) =~= x.skip(1) + y);
        lemma_blocks_lookup_concat(x.skip(1), y, key);
    }
}

/// Looking a key up in tables with one more table at the end looks in the
/// last one only when the others do not hold the key.
proof fn lemma_tables_lookup_push(tables: Seq<TableView>, t: TableView, key: Seq<u8>)
    ensures
        tables_lookup(tables.push(t), key) == or_else(tables_lookup(tables, key), table_lookup(t, key)),
    decreases tables.len(),
{
    if tables.len() == 0 {
        assert(tables.push(t).skip(1) =~= Seq::<TableView>::empty());
        assert(tables_lookup(Seq::<TableView>::empty(), key) is None);
    } else {
        assert(tables.push(t)[0] == tables[0]);
        assert(tables.push(t).skip(1) =~= tables.skip(1).push(t));
        lemma_tables_lookup_push(tables.skip(1), t, key);
    }
}

/// The merged table gives, for every key, what the first of the tables
/// that holds it gives: merging loses no key.
pub proof fn lemma_merged_lookup(tables: Seq<TableView>, key: Seq<u8>)
    ensures
        table_lookup(merged_table(tables), key) == tables_lookup(tables, key),
    decreases tables.len(),
{
    if tables.len() == 0 {
        assert(block_datas(merged_blocks(tables)) =~= Seq::<Seq<u8>>::empty());
    } else {
        let init = tables.drop_last();
        lemma_merged_lookup(init, key);
        assert(block_datas(merged_blocks(tables)) =~= block_datas(merged_blocks(init)) + block_datas(
            tables.last().1,
        ));
        lemma_blocks_lookup_concat(block_datas(merged_blocks(init)), block_datas(tables.last().1), key);
        lemma_tables_lookup_push(init, tables.last(), key);
        assert(init.push(tables.last()) =~= tables);
    }
}

/// A level of tables, searched in the order they were added.
pub struct Level {
    pub tables: Vec<SSTable>,
    pub total_size: u64,
    pub level_number: usize,
    pub max_tables: usize,
}

impl Level {
    pub fn new(level_number: usize, max_tables: usize) -> (l: Self)
        ensures
            l.tables@ == Seq::<SSTable>::empty(),
            l.total_size == 0,
            l.level_number == level_number,
            l.max_tables == max_tables,
    {
        Level { tables: Vec::with_capacity(max_tables), total_size: 0, level_number, max_tables }
    }

    /// Appends `table` unless the level holds `max_tables` tables.
    pub fn add_table(&mut self, table: SSTable) -> (r: Result<(), CompactionError>)
        requires
            table_size(table@) <= u64::MAX,
            old(self).tables@.len() < old(self).max_tables ==> old(self).total_size + table_size(
                table@,
            ) <= u64::MAX,
        ensures
            final(self).level_number == old(self).level_number,
            final(self).max_tables == old(self).max_tables,
            old(self).tables@.len() >= old(self).max_tables ==> r == Err::<(), CompactionError>(
                CompactionError::LevelFull,
            ) && final(self).tables@ == old(self).tables@ && final(self).total_size == old(
                self,
            ).total_size,
            old(self).tables@.len() < old(self).max_tables ==> r is Ok && final(self).tables@ == old(
                self,
            ).tables@.push(table) && final(self).total_size == old(self).total_size + table_size(
                table@,
            ),
    {
        let size = table.total_size();
        if self.tables.len() >= self.max_tables {
            return Err(CompactionError::LevelFull);
        }
        self.tables.push(table);
        self.total_size = self.total_size + size;
        Ok(())
    }

    pub fn is_full(&self) -> (full: bool)
        ensures
            full == (self.tables@.len() >= self.max_tables),
    {
        self.tables.len() >= self.max_tables
    }

    pub fn len(&self) -> (n: usize)
        ensures
            n == self.tables@.len(),
    {
        self.tables.len()
    }

    pub fn is_empty(&self) -> (empty: bool)
        ensures
            empty == (self.tables@.len() == 0),
    {
        self.tables.len() == 0
    }

    /// The value the first table that holds `key` gives.
    pub fn get(&self, key: &[u8]) -> (r: Option<&[u8]>)
        ensures
            match r {
                Some(v) => tables_lookup(table_views(self.tables@), key@) == Some(v@),
                None => tables_lookup(table_views(self.tables@), key@) is None,
            },
            forall|i: int|
                0 <= i < self.tables@.len() && (#[trigger] table_lookup(self.tables@[i]@, key@)) is Some
                    && (forall|j: int| 0 <= j < i ==> table_lookup(self.tables@[j]@, key@) is None)
                    ==> r is Some && r->0@ == table_lookup(self.tables@[i]@, key@)->0,
            (forall|j: int| 0 <= j < self.tables@.len() ==> (#[trigger] table_lookup(self.tables@[j]@, key@)) is None)
                ==> r is None,
    {
        let ghost ts = table_views(self.tables@);
        assert(ts.skip(0) =~= ts);
        let mut i: usize = 0;
        while i < self.tables.len()
            invariant
                0 <= i <= ts.len(),
                ts == table_views(self.tables@),
                tables_lookup(ts, key@) == tables_lookup(ts.skip(i as int), key@),
            decreases ts.len() - i,
        {
            proof {
                assert(ts.skip(i as int)[0] == self.tables@[i as int]@);
                assert(ts.skip(i as int).skip(1) =~= ts.skip(i + 1));
            }
            match self.tables[i].get(key) {
                Some(v) => {
                    proof {
                        assert(tables_lookup(ts, key@) == Some(v@));
                        self.lemma_get_order(key@);
                    }
                    return Some(v);
                },
                None => {},
            }
            i = i + 1;
        }
        proof {
            self.lemma_get_order(key@);
        }
        None
    }

    /// The lookup over a level's tables gives the value of its first table
    /// that holds the key, and nothing when none does.
    proof fn lemma_get_order(&self, key: Seq<u8>)
        ensures
            forall|i: int|
                0 <= i < self.tables@.len() && (#[trigger] table_lookup(self.tables@[i]@, key)) is Some
                    && (forall|j: int| 0 <= j < i ==> table_lookup(self.tables@[j]@, key) is None)
                    ==> tables_lookup(table_views(self.tables@), key) == table_lookup(self.tables@[i]@, key),
            (forall|j: int| 0 <= j < self.tables@.len() ==> (#[trigger] table_lookup(self.tables@[j]@, key)) is None)
                ==> tables_lookup(table_views(self.tables@), key) is None,
    {
        let ts = table_views(self.tables@);
        lemma_tables_lookup_first(ts, key);
        assert forall|i: int|
            0 <= i < self.tables@.len() && (#[trigger] table_lookup(self.tables@[i]@, key)) is Some
                && (forall|j: int| 0 <= j < i ==> table_lookup(self.tables@[j]@, key) is None)
                implies tables_lookup(ts, key) == table_lookup(self.tables@[i]@, key) by {
            assert(ts[i] == self.tables@[i]@);
            assert forall|j: int| 0 <= j < i implies table_lookup(ts[j], key) is None by {
                assert(ts[j] == self.tables@[j]@);
            }
        }
        if forall|j: int| 0 <= j < self.tables@.len() ==> (#[trigger] table_lookup(self.tables@[j]@, key)) is None {
            assert forall|j: int| 0 <= j < ts.len() implies (#[trigger] table_lookup(ts[j], key)) is None by {
                assert(ts[j] == self.tables@[j]@);
            }
        }
    }

    /// Empties the level and returns one table merged from all of its
    /// tables: their blocks one after the other, so that every key of every
    /// table stays, the value of the first table holding it winning.
    pub fn merge<STORAGE: Storage>(&mut self, _storage: &mut STORAGE) -> (r: Result<
        SSTable,
        CompactionError,
    >)
        requires
            old(self).tables@.len() > 0 ==> merge_fits(table_views(old(self).tables@)),
        ensures
            final(self).level_number == old(self).level_number,
            final(self).max_tables == old(self).max_tables,
            old(self).tables@.len() == 0 ==> r == Err::<SSTable, CompactionError>(
                CompactionError::NoTables,
            ) && final(self).tables@ == old(self).tables@ && final(self).total_size == old(
                self,
            ).total_size,
            old(self).tables@.len() > 0 ==> (r matches Ok(m) && m@ == merged_table(
                table_views(old(self).tables@),
            )) && final(self).tables@ == Seq::<SSTable>::empty() && final(self).total_size == 0,
            *final(_storage) == *old(_storage),
    {
        if self.tables.len() == 0 {
            return Err(CompactionError::NoTables);
        }
        let ghost ts = table_views(self.tables@);
        let n = self.tables.len();
        let mut blocks: Vec<Block> = Vec::new();
        let mut key_count: u32 = 0;
        let mut min_key = [0xFFu8; 16];
        let mut max_key = [0x00u8; 16];
        proof {
            assert(ts.take(0) =~= Seq::<TableView>::empty());
            assert(blocks@ =~= merged_blocks(ts.take(0)));
            assert(min_key@ =~= Seq::new(16, |j: int| merged_min_byte(ts.take(0), j)));
            assert(max_key@ =~= Seq::new(16, |j: int| merged_max_byte(ts.take(0), j)));
        }
        let mut i: usize = 0;
        while i < n
            invariant
                0 <= i <= n,
                n == ts.len(),
                ts == table_views(self.tables@),
                merge_fits(ts),
                blocks@ == merged_blocks(ts.take(i as int)),
                key_count == merged_key_count(ts.take(i as int)),
                min_key@ == Seq::new(16, |j: int| merged_min_byte(ts.take(i as int), j)),
                max_key@ == Seq::new(16, |j: int| merged_max_byte(ts.take(i as int), j)),
            decreases n - i,
        {
            let ghost prefix = ts.take(i as int);
            let ghost next = ts.take(i + 1);
            proof {
                assert(next.drop_last() =~= prefix);
                assert(next.last() == ts[i as int]);
                lemma_merged_prefix(ts, i + 1);
            }
            let t = &self.tables[i];
            assert(t@ == ts[i as int]);
            let ghost b0 = blocks@;
            let mut k: usize = 0;
            while k < t.blocks.len()
                invariant
                    0 <= k <= t.blocks@.len(),
                    blocks@ == b0 + t.blocks@.take(k as int),
                decreases t.blocks@.len() - k,
            {
                blocks.push(t.blocks[k]);
                k = k + 1;
                proof {
                    assert(blocks@ =~= b0 + t.blocks@.take(k as int));
                }
            }
            proof {
                assert(t.blocks@.take(t.blocks@.len() as int) =~= t.blocks@);
            }
            key_count = key_count + t.metadata.key_count;
            let ghost min0 = min_key@;
            let ghost max0 = max_key@;
            assert(next.len() == i + 1);
            let mut j: usize = 0;
            while j < 16
                invariant
                    0 <= j <= 16,
                    min_key@.len() == 16,
                    max_key@.len() == 16,
                    next.len() > 0,
                    next.drop_last() == prefix,
                    next.last() == t@,
                    min0 == Seq::new(16, |jj: int| merged_min_byte(prefix, jj)),
                    max0 == Seq::new(16, |jj: int| merged_max_byte(prefix, jj)),
                    forall|jj: int| 0 <= jj < j ==> #[trigger] min_key@[jj] == merged_min_byte(next, jj),
                    forall|jj: int| j <= jj < 16 ==> #[trigger] min_key@[jj] == min0[jj],
                    forall|jj: int| 0 <= jj < j ==> #[trigger] max_key@[jj] == merged_max_byte(next, jj),
                    forall|jj: int| j <= jj < 16 ==> #[trigger] max_key@[jj] == max0[jj],
                decreases 16 - j,
            {
                if t.metadata.min_key[j] < min_key[j] {
                    min_key[j] = t.metadata.min_key[j];
                }
                if t.metadata.max_key[j] > max_key[j] {
                    max_key[j] = t.metadata.max_key[j];
                }
                proof {
                    assert(min0[j as int] == merged_min_byte(prefix, j as int));
                    assert(max0[j as int] == merged_max_byte(prefix, j as int));
                    assert(t.metadata.min_key@[j as int] == next.last().0.min_key@[j as int]);
                    assert(min_key@[j as int] == merged_min_byte(next, j as int));
                    assert(max_key@[j as int] == merged_max_byte(next, j as int));
                }
                j = j + 1;
            }
            proof {
                assert(min_key@ =~= Seq::new(16, |jj: int| merged_min_byte(next, jj)));
                assert(max_key@ =~= Seq::new(16, |jj: int| merged_max_byte(next, jj)));
            }
            i = i + 1;
        }
        proof {
            assert(ts.take(n as int) =~= ts);
        }
        let nblocks = blocks.len();
        let mut block_offsets: Vec<u64> = Vec::new();
        let mut offset: u64 = 0;
        let mut j: usize = 0;
        while j < nblocks
            invariant
                0 <= j <= nblocks,
                nblocks <= u32::MAX,
                block_offsets@ == standard_offsets(j as nat),
                offset == j * BLOCK_STRIDE,
            decreases nblocks - j,
        {
            block_offsets.push(offset);
            offset = offset + BLOCK_STRIDE;
            j = j + 1;
            proof {
                assert(block_offsets@ =~= standard_offsets(j as nat));
            }
        }
        let id = self.tables[0].metadata.id;
        let md = SSTableMetadata::new(id, nblocks as u32, key_count, min_key, max_key, offset);
        let merged = SSTable { metadata: md, blocks, block_offsets };
        proof {
            assert(merged_metadata_ok(md, ts));
            lemma_merged_table(ts);
            lemma_merged_metadata_unique(merged_table(ts).0, md, ts);
            assert(merged@ == merged_table(ts));
        }
        self.tables.clear();
        self.total_size = 0;
        Ok(merged)
    }
}

/// A level as plain values: tables, total size, level number, table limit.
pub type LevelView = (Seq<TableView>, u64, usize, usize);

pub open spec fn level_view(l: Level) -> LevelView {
    (table_views(l.tables@), l.total_size, l.level_number, l.max_tables)
}

/// The size above which level `i` is compacted into the next one.
pub open spec fn level_max_size(i: int) -> int {
    if i == 0 {
        0x10_0000int
    } else if i == 1 {
        0xA0_0000int
    } else if i == 2 {
        0x640_0000int
    } else {
        0x3E80_0000int
    }
}

/// Compacting level `from` into the next one: the level is replaced by an
/// empty level; the table merged from its tables, once written to storage
/// (`write_ok`), is appended to the next level unless that level is full.
pub open spec fn compact_once(levels: Seq<LevelView>, capacity: usize, from: int, write_ok: bool) -> (
    Seq<LevelView>,
    Result<(), CompactionError>,
) {
    let source = levels[from];
    let emptied = levels.update(from, (Seq::empty(), 0u64, from as usize, capacity));
    let dest = emptied[from + 1];
    if source.0.len() == 0 {
        (emptied, Ok(()))
    } else if !write_ok {
        (emptied, Err(CompactionError::WriteFailed))
    } else if dest.0.len() >= dest.3 {
        (emptied, Err(CompactionError::LevelFull))
    } else {
        (
            emptied.update(
                from + 1,
                (
                    dest.0.push(merged_table(source.0)),
                    (dest.1 + table_size(merged_table(source.0))) as u64,
                    dest.2,
                    dest.3,
                ),
            ),
            Ok(()),
        )
    }
}

/// Compacting, from level `i` on, every level above its size limit that
/// holds a table, stopping at the first failure; the write of the step at
/// level `fail` fails, every other write succeeds.
pub open spec fn compact_from(levels: Seq<LevelView>, capacity: usize, i: int, fail: int) -> (
    Seq<LevelView>,
    Result<(), CompactionError>,
)
    decreases 3 - i,
{
    if i >= 3 || i < 0 {
        (levels, Ok(()))
    } else if levels[i].1 > level_max_size(i) && levels[i].0.len() > 0 {
        let (next, r) = compact_once(levels, capacity, i, i != fail);
        if r is Err {
            (next, r)
        } else {
            compact_from(next, capacity, i + 1, fail)
        }
    } else {
        compact_from(levels, capacity, i + 1, fail)
    }
}

/// A level that holds no table has size zero, in each level from `i` on.
pub open spec fn empty_levels_sized_zero(levels: Seq<LevelView>, i: int) -> bool {
    forall|j: int| i <= j < 4 && (#[trigger] levels[j]).0.len() == 0 ==> levels[j].1 == 0
}

/// Compaction from level `i` on, when it succeeds, leaves each of the
/// levels below 3 from `i` on within its size limit and the levels before
/// `i` as they were.
proof fn lemma_compact_from_bounds(levels: Seq<LevelView>, capacity: usize, i: int)
    requires
        levels.len() == 4,
        0 <= i <= 3,
        empty_levels_sized_zero(levels, i),
    ensures
        compact_from(levels, capacity, i, -1).0.len() == 4,
        compact_from(levels, capacity, i, -1).1 is Ok ==> (forall|j: int|
            i <= j < 3 ==> #[trigger] compact_from(levels, capacity, i, -1).0[j].1 <= level_max_size(j))
            && (forall|j: int| 0 <= j < i ==> #[trigger] compact_from(levels, capacity, i, -1).0[j] == levels[j]),
    decreases 3 - i,
{
    if i < 3 {
        if levels[i].1 > level_max_size(i) && levels[i].0.len() > 0 {
            let (next, r) = compact_once(levels, capacity, i, true);
            if r is Ok {
                assert forall|j: int| i + 1 <= j < 4 && (#[trigger] next[j]).0.len() == 0 implies next[j].1
                    == 0 by {
                    if j != i + 1 {
                        assert(next[j] == levels[j]);
                    }
                }
                lemma_compact_from_bounds(next, capacity, i + 1);
            }
        } else {
            if levels[i].0.len() == 0 {
                assert(levels[i].1 == 0);
            }
            lemma_compact_from_bounds(levels, capacity, i + 1);
        }
    }
}

/// Compaction that succeeds leaves levels 0, 1 and 2 within their size
/// limits, where a level with no table has size zero; and where they
/// already were within their limits, compaction changes nothing and writes
/// nothing, whatever the storage does.
pub proof fn lemma_compaction_bounds_levels(levels: Seq<LevelView>, capacity: usize, fail: int)
    requires
        levels.len() == 4,
        empty_levels_sized_zero(levels, 0),
    ensures
        compact_from(levels, capacity, 0, -1).1 is Ok ==> forall|j: int|
            0 <= j < 3 ==> #[trigger] compact_from(levels, capacity, 0, -1).0[j].1 <= level_max_size(j),
        (forall|j: int| 0 <= j < 3 ==> #[trigger] levels[j].1 <= level_max_size(j)) ==> compact_from(
            levels,
            capacity,
            0,
            fail,
        ) == (levels, Ok::<(), CompactionError>(())) && compact_writes(levels, capacity, 0, fail)
            == Seq::<(TableView, int)>::empty(),
{
    lemma_compact_from_bounds(levels, capacity, 0);
    if forall|j: int| 0 <= j < 3 ==> #[trigger] levels[j].1 <= level_max_size(j) {
        assert(levels[0].1 <= level_max_size(0));
        assert(levels[1].1 <= level_max_size(1));
        assert(levels[2].1 <= level_max_size(2));
        assert(compact_from(levels, capacity, 3, fail) == (levels, Ok::<(), CompactionError>(())));
        assert(compact_writes(levels, capacity, 3, fail) == Seq::<(TableView, int)>::empty());
        assert(compact_from(levels, capacity, 2, fail) == (levels, Ok::<(), CompactionError>(())));
        assert(compact_writes(levels, capacity, 2, fail) == Seq::<(TableView, int)>::empty());
        assert(compact_from(levels, capacity, 1, fail) == (levels, Ok::<(), CompactionError>(())));
        assert(compact_writes(levels, capacity, 1, fail) == Seq::<(TableView, int)>::empty());
    }
}

/// The size limits of the levels are 1, 10, 100 and 1000 MiB, and
/// compaction that succeeds leaves levels 0, 1 and 2 within theirs, where a
/// level with no table has size zero.
pub proof fn lemma_level_limits(levels: Seq<LevelView>, capacity: usize)
    requires
        levels.len() == 4,
        forall|j: int| 0 <= j < 4 && (#[trigger] levels[j]).0.len() == 0 ==> levels[j].1 == 0,
    ensures
        level_max_size(0) == 1048576,
        level_max_size(1) == 10485760,
        level_max_size(2) == 104857600,
        level_max_size(3) == 1048576000,
        compact_from(levels, capacity, 0, -1).1 is Ok ==> compact_from(levels, capacity, 0, -1).0[0].1
            <= 1048576 && compact_from(levels, capacity, 0, -1).0[1].1 <= 10485760 && compact_from(
            levels,
            capacity,
            0,
            -1,
        ).0[2].1 <= 104857600,
        levels[0].1 > 1048576 && levels[0].0.len() > 0 && compact_from(levels, capacity, 0, -1).1 is Ok
            ==> compact_from(levels, capacity, 0, -1).0[0].0.len() == 0,
{
    lemma_compaction_bounds_levels(levels, capacity, -1);
    let r = compact_from(levels, capacity, 0, -1);
    if r.1 is Ok {
        assert(r.0[0].1 <= level_max_size(0));
        assert(r.0[1].1 <= level_max_size(1));
        assert(r.0[2].1 <= level_max_size(2));
        if levels[0].1 > 1048576 && levels[0].0.len() > 0 {
            lemma_compact_from_keeps_before(compact_once(levels, capacity, 0, true).0, capacity, 1);
        }
    }
}

/// Compaction from level `i` on leaves the levels before `i` as they are.
proof fn lemma_compact_from_keeps_before(levels: Seq<LevelView>, capacity: usize, i: int)
    requires
        levels.len() == 4,
        0 <= i <= 3,
    ensures
        compact_from(levels, capacity, i, -1).0.len() == 4,
        forall|j: int| 0 <= j < i ==> #[trigger] compact_from(levels, capacity, i, -1).0[j] == levels[j],
    decreases 3 - i,
{
    if i < 3 {
        if levels[i].1 > level_max_size(i) && levels[i].0.len() > 0 {
            let (next, r) = compact_once(levels, capacity, i, true);
            if r is Ok {
                lemma_compact_from_keeps_before(next, capacity, i + 1);
            }
        } else {
            lemma_compact_from_keeps_before(levels, capacity, i + 1);
        }
    }
}

/// Where compacting level `from` writes the table it moves: at
/// `id * 1 MiB`, where `id` is 101 more than the tables in the next level.
pub open spec fn compaction_offset(levels: Seq<LevelView>, from: int) -> int {
    (levels[from + 1].0.len() + 101) as int * 0x10_0000
}

/// The table write compacting level `from` makes: none when the level
/// holds no table, else the merged table at the compaction offset.
pub open spec fn compact_once_writes(levels: Seq<LevelView>, from: int) -> Seq<(TableView, int)> {
    if levels[from].0.len() == 0 {
        Seq::empty()
    } else {
        seq![(merged_table(levels[from].0), compaction_offset(levels, from))]
    }
}

/// The table writes, in order, that `compact_from` with the same arguments
/// makes.
pub open spec fn compact_writes(levels: Seq<LevelView>, capacity: usize, i: int, fail: int) -> Seq<
    (TableView, int),
>
    decreases 3 - i,
{
    if i >= 3 || i < 0 {
        Seq::empty()
    } else if levels[i].1 > level_max_size(i) && levels[i].0.len() > 0 {
        let (next, r) = compact_once(levels, capacity, i, i != fail);
        if r is Err {
            compact_once_writes(levels, i)
        } else {
            compact_once_writes(levels, i) + compact_writes(next, capacity, i + 1, fail)
        }
    } else {
        compact_writes(levels, capacity, i + 1, fail)
    }
}

/// The byte writing table `t` at `base` leaves at address `a`, if the write
/// covers `a`.
pub open spec fn table_byte(t: TableView, base: int, a: int) -> Option<u8> {
    table_write_byte(t.0, t.1, t.2, base, t.1.len(), a)
}

/// The byte the table writes `ws` leave at address `a`: that of the last
/// write covering `a`, if any does.
pub open spec fn writes_byte(ws: Seq<(TableView, int)>, a: int) -> Option<u8>
    decreases ws.len(),
{
    if ws.len() == 0 {
        None
    } else {
        match table_byte(ws.last().0, ws.last().1, a) {
            Some(b) => Some(b),
            None => writes_byte(ws.drop_last(), a),
        }
    }
}

/// Storage `s2` is storage `s1` after the table writes `ws`: no address
/// they do not cover changes, and, when every write succeeded
/// (`complete`), each covered address holds what the last write covering
/// it put there and every written range can be read.
pub open spec fn storage_after_writes<S: Storage>(
    s1: &S,
    s2: &S,
    ws: Seq<(TableView, int)>,
    complete: bool,
) -> bool {
    &&& s2.readable_end() >= s1.readable_end()
    &&& s2.writable_end() >= s1.writable_end()
    &&& forall|a: int| #[trigger] writes_byte(ws, a) is None ==> s2.byte_at(a) == s1.byte_at(a)
    &&& complete ==> forall|a: int|
        #[trigger] writes_byte(ws, a) matches Some(b) ==> s2.byte_at(a) == b
    &&& complete ==> writes_fit(ws, s2.readable_end())
}

/// One write leaves the bytes that table write leaves.
proof fn lemma_writes_byte_single(w: (TableView, int), a: int)
    ensures
        writes_byte(seq![w], a) == table_byte(w.0, w.1, a),
{
    assert(seq![w].drop_last() =~= Seq::<(TableView, int)>::empty());
    assert(writes_byte(seq![w].drop_last(), a) is None);
    assert(seq![w].last() == w);
}

/// Of two runs of writes, the later one wins where it writes.
proof fn lemma_writes_byte_concat(ws1: Seq<(TableView, int)>, ws2: Seq<(TableView, int)>, a: int)
    ensures
        writes_byte(ws1 + ws2, a) == match writes_byte(ws2, a) {
            Some(b) => Some(b),
            None => writes_byte(ws1, a),
        },
    decreases ws2.len(),
{
    if ws2.len() == 0 {
        assert(ws1 + ws2 =~= ws1);
    } else {
        assert((ws1 + ws2).last() == ws2.last());
        assert((ws1 + ws2).drop_last() =~= ws1 + ws2.drop_last());
        lemma_writes_byte_concat(ws1, ws2.drop_last(), a);
    }
}

/// Writes that all succeeded, followed by more writes, are the two runs
/// of writes one after the other.
proof fn lemma_storage_after_writes_compose<S: Storage>(
    s0: &S,
    s1: &S,
    s2: &S,
    ws1: Seq<(TableView, int)>,
    ws2: Seq<(TableView, int)>,
    complete: bool,
)
    requires
        storage_after_writes(s0, s1, ws1, true),
        storage_after_writes(s1, s2, ws2, complete),
    ensures
        storage_after_writes(s0, s2, ws1 + ws2, complete),
{
    assert forall|a: int| #[trigger] writes_byte(ws1 + ws2, a) is None implies s2.byte_at(a)
        == s0.byte_at(a) by {
        lemma_writes_byte_concat(ws1, ws2, a);
    }
    if complete {
        assert forall|a: int| #[trigger] writes_byte(ws1 + ws2, a) is Some implies s2.byte_at(a)
            == writes_byte(ws1 + ws2, a)->0 by {
            lemma_writes_byte_concat(ws1, ws2, a);
            if writes_byte(ws2, a) is None {
                assert(writes_byte(ws1, a) is Some);
            }
        }
        lemma_writes_fit_grow(ws1, s1.readable_end(), s2.readable_end());
        lemma_writes_fit_join(ws1, ws2, s2.readable_end());
    }
}

/// Two runs of writes that each fit fit one after the other.
proof fn lemma_writes_fit_join(ws1: Seq<(TableView, int)>, ws2: Seq<(TableView, int)>, end: int)
    requires
        writes_fit(ws1, end),
        writes_fit(ws2, end),
    ensures
        writes_fit(ws1 + ws2, end),
{
    assert forall|i: int| 0 <= i < (ws1 + ws2).len() implies table_write_fits(
        #[trigger] (ws1 + ws2)[i].0,
        (ws1 + ws2)[i].1,
        end,
    ) by {
        if i < ws1.len() {
            assert((ws1 + ws2)[i] == ws1[i]);
        } else {
            assert((ws1 + ws2)[i] == ws2[i - ws1.len()]);
        }
    }
}

/// No write leaves nothing.
proof fn lemma_writes_byte_empty(a: int)
    ensures
        writes_byte(Seq::<(TableView, int)>::empty(), a) is None,
{
}

/// The effect of one table write, as the table's `write_at` states it, is
/// that of the one-write run.
proof fn lemma_single_write_effect<S: Storage>(s1: &S, s2: &S, t: TableView, base: int, ok: bool)
    requires
        s2.readable_end() >= s1.readable_end(),
        s2.writable_end() >= s1.writable_end(),
        forall|a: int| #[trigger] table_byte(t, base, a) is None ==> s2.byte_at(a) == s1.byte_at(a),
        ok ==> forall|a: int| #[trigger] table_byte(t, base, a) matches Some(b) ==> s2.byte_at(a) == b,
        ok ==> table_write_fits(t, base, s2.readable_end()),
    ensures
        storage_after_writes(s1, s2, seq![(t, base)], ok),
{
    assert(seq![(t, base)][0] == (t, base));
    assert forall|a: int| #[trigger] writes_byte(seq![(t, base)], a) is None implies s2.byte_at(a)
        == s1.byte_at(a) by {
        lemma_writes_byte_single((t, base), a);
    }
    if ok {
        assert forall|a: int| #[trigger] writes_byte(seq![(t, base)], a) is Some implies s2.byte_at(
            a,
        ) == writes_byte(seq![(t, base)], a)->0 by {
            lemma_writes_byte_single((t, base), a);
        }
    }
}

/// Writing table `t` at `base` ends at or below `end`: each write it makes
/// covers a range ending there or earlier.
pub open spec fn table_write_fits(t: TableView, base: int, end: int) -> bool {
    &&& base + METADATA_SIZE <= end
    &&& forall|k: int|
        0 <= k < t.1.len() ==> base + METADATA_SIZE + #[trigger] t.2[k] + BLOCK_STRIDE <= end
}

/// Every one of the table writes `ws` ends at or below `end`.
pub open spec fn writes_fit(ws: Seq<(TableView, int)>, end: int) -> bool {
    forall|i: int| 0 <= i < ws.len() ==> table_write_fits(#[trigger] ws[i].0, ws[i].1, end)
}

/// Writes that end at or below `end` end at or below any later end.
proof fn lemma_writes_fit_grow(ws: Seq<(TableView, int)>, e1: int, e2: int)
    requires
        writes_fit(ws, e1),
        e1 <= e2,
    ensures
        writes_fit(ws, e2),
{
    assert forall|i: int| 0 <= i < ws.len() implies table_write_fits(#[trigger] ws[i].0, ws[i].1, e2) by {
        assert(table_write_fits(ws[i].0, ws[i].1, e1));
    }
}

/// Of two runs of writes that all fit, each run fits.
proof fn lemma_writes_fit_parts(ws1: Seq<(TableView, int)>, ws2: Seq<(TableView, int)>, end: int)
    requires
        writes_fit(ws1 + ws2, end),
    ensures
        writes_fit(ws1, end),
        writes_fit(ws2, end),
{
    assert forall|i: int| 0 <= i < ws1.len() implies table_write_fits(#[trigger] ws1[i].0, ws1[i].1, end) by {
        assert((ws1 + ws2)[i] == ws1[i]);
    }
    assert forall|i: int| 0 <= i < ws2.len() implies table_write_fits(#[trigger] ws2[i].0, ws2[i].1, end) by {
        assert((ws1 + ws2)[ws1.len() + i] == ws2[i]);
    }
}

/// Compacting level `from` overflows nothing: the merged table's counts
/// fit, its id, its write offsets and its size stay within their integer
/// types, and so does the next level's size counter when it takes it.
pub open spec fn compaction_step_safe(levels: Seq<LevelView>, from: int) -> bool {
    let src = levels[from].0;
    let dest = levels[from + 1];
    let base = compaction_offset(levels, from);
    src.len() > 0 ==> {
        &&& merge_fits(src)
        &&& dest.0.len() + 101 <= u32::MAX
        &&& base + METADATA_SIZE <= u64::MAX
        &&& base + merged_size(src) <= u64::MAX + 1
        &&& merged_size(src) <= u64::MAX
        &&& dest.0.len() < dest.3 ==> dest.1 + merged_size(src) <= u64::MAX
    }
}

/// Every compaction step that `compact_from` with no failed write takes
/// from level `i` on overflows nothing.
pub open spec fn compaction_safe(levels: Seq<LevelView>, capacity: usize, i: int) -> bool
    decreases 3 - i,
{
    if i >= 3 || i < 0 {
        true
    } else if levels[i].1 > level_max_size(i) && levels[i].0.len() > 0 {
        compaction_step_safe(levels, i) && (compact_once(levels, capacity, i, true).1 is Ok
            ==> compaction_safe(compact_once(levels, capacity, i, true).0, capacity, i + 1))
    } else {
        compaction_safe(levels, capacity, i + 1)
    }
}

/// What `SSTable::from_memtable` builds from `entries` with `id`.
pub open spec fn built_from_entries(t: SSTable, entries: Seq<(Seq<u8>, Seq<u8>)>, id: u32) -> bool {
    &&& block_datas(t.blocks@) == padded_blocks(table_block_contents(entries))
    &&& forall|i: int| 0 <= i < t.blocks@.len() ==> block_is_valid(#[trigger] t.blocks@[i])
    &&& t.block_offsets@ == standard_offsets(t.blocks@.len())
    &&& t.blocks@.len() <= entries.len()
    &&& t.metadata.magic == METADATA_MAGIC
    &&& t.metadata.version == 1
    &&& t.metadata.id == id
    &&& t.metadata.block_count == t.blocks@.len()
    &&& t.metadata.key_count == entries.len()
    &&& t.metadata.min_key@ == min_key_bytes(entries)
    &&& t.metadata.max_key@ == max_key_bytes(entries)
    &&& t.metadata.total_size == t.blocks@.len() * BLOCK_STRIDE
}

/// The levels after `t` is appended to level 0.
pub open spec fn add_to_level0(levels: Seq<LevelView>, t: TableView) -> Seq<LevelView> {
    levels.update(
        0,
        (levels[0].0.push(t), (levels[0].1 + table_size(t)) as u64, levels[0].2, levels[0].3),
    )
}

/// The id a flush gives its table: one more than the tables in level 0.
pub open spec fn flush_id(levels: Seq<LevelView>) -> u32 {
    (levels[0].0.len() + 1) as u32
}

/// A table built from `entries` fits level 0's size counter, and the
/// compaction that follows its flush overflows nothing.
pub open spec fn flush_fits(levels: Seq<LevelView>, capacity: usize, entries: Seq<(Seq<u8>, Seq<u8>)>) -> bool {
    forall|t: SSTable|
        #[trigger] built_from_entries(t, entries, flush_id(levels)) ==> levels[0].1 + table_size(t@)
            <= u64::MAX && compaction_safe(add_to_level0(levels, t@), capacity, 0)
}

/// Where a flush writes its table: at `id * 1 MiB`.
pub open spec fn flush_offset(levels: Seq<LevelView>) -> int {
    flush_id(levels) as int * 0x10_0000
}

/// What flushing `t` does to levels `levels` with compaction state
/// `compacting`, and to storage `s1`, giving `levels2`, `compacting2` and
/// storage `s2`: the table is written at the flush offset; the write
/// fails, which happens only to a write that does not end at or below the
/// storage's `writable_end`, or level 0 is full, or the table is appended to
/// level 0 and the levels are compacted, with the table writes compaction
/// makes.
pub open spec fn flush_result<S: Storage>(
    levels: Seq<LevelView>,
    compacting: bool,
    capacity: usize,
    t: SSTable,
    levels2: Seq<LevelView>,
    compacting2: bool,
    r: Result<(), CompactionError>,
    s1: &S,
    s2: &S,
) -> bool {
    let w = seq![(t@, flush_offset(levels))];
    let added = add_to_level0(levels, t@);
    ||| r == Err::<(), CompactionError>(CompactionError::WriteFailed) && levels2 == levels
        && compacting2 == compacting && storage_after_writes(s1, s2, w, false) && !table_write_fits(
        t@,
        flush_offset(levels),
        s1.writable_end(),
    )
    ||| levels[0].0.len() >= levels[0].3 && r == Err::<(), CompactionError>(
        CompactionError::LevelFull,
    ) && levels2 == levels && compacting2 == compacting && storage_after_writes(s1, s2, w, true)
    ||| levels[0].0.len() < levels[0].3 && if compacting {
        r is Ok && levels2 == added && compacting2 && storage_after_writes(s1, s2, w, true)
    } else {
        &&& compacting2 == (r is Err)
        &&& exists|fail: int|
            (levels2, r) == #[trigger] compact_from(added, capacity, 0, fail) && storage_after_writes(
                s1,
                s2,
                w + compact_writes(added, capacity, 0, fail),
                r != Err::<(), CompactionError>(CompactionError::WriteFailed),
            ) && (r == Err::<(), CompactionError>(CompactionError::WriteFailed) ==> !writes_fit(
                w + compact_writes(added, capacity, 0, fail),
                s1.writable_end(),
            ))
        &&& r is Ok ==> (levels2, r) == compact_from(added, capacity, 0, -1) && storage_after_writes(
            s1,
            s2,
            w + compact_writes(added, capacity, 0, -1),
            true,
        )
    }
}

/// The value the first level that holds `key` gives.
pub open spec fn levels_lookup(levels: Seq<LevelView>, key: Seq<u8>) -> Option<Seq<u8>>
    decreases levels.len(),
{
    if levels.len() == 0 {
        None
    } else {
        or_else(tables_lookup(levels[0].0, key), levels_lookup(levels.skip(1), key))
    }
}

/// Looking a key up across levels looks in the first level, and in the
/// remaining levels only when the first does not hold the key.
pub proof fn lemma_levels_lookup_first_level(levels: Seq<LevelView>, key: Seq<u8>)
    requires
        levels.len() > 0,
    ensures
        levels_lookup(levels, key) == match tables_lookup(levels[0].0, key) {
            Some(v) => Some(v),
            None => levels_lookup(levels.skip(1), key),
        },
{
}

/// The value looked up across levels is that of the lowest-numbered level
/// holding the key, and nothing when no level holds it.
pub proof fn lemma_levels_lookup_lowest(levels: Seq<LevelView>, key: Seq<u8>)
    ensures
        forall|i: int|
            0 <= i < levels.len() && (#[trigger] tables_lookup(levels[i].0, key)) is Some && (forall|
                j: int,
            |
                0 <= j < i ==> tables_lookup(levels[j].0, key) is None) ==> levels_lookup(levels, key)
                == tables_lookup(levels[i].0, key),
        (forall|j: int| 0 <= j < levels.len() ==> (#[trigger] tables_lookup(levels[j].0, key)) is None)
            ==> levels_lookup(levels, key) is None,
    decreases levels.len(),
{
    if levels.len() > 0 {
        let rest = levels.skip(1);
        lemma_levels_lookup_lowest(rest, key);
        lemma_levels_lookup_first_level(levels, key);
        assert forall|i: int|
            0 <= i < levels.len() && (#[trigger] tables_lookup(levels[i].0, key)) is Some && (forall|
                j: int,
            |
                0 <= j < i ==> tables_lookup(levels[j].0, key) is None) implies levels_lookup(levels, key)
                == tables_lookup(levels[i].0, key) by {
            if i > 0 {
                assert(tables_lookup(levels[0].0, key) is None);
                assert(rest[i - 1] == levels[i]);
                assert forall|j: int| 0 <= j < i - 1 implies tables_lookup(rest[j].0, key) is None by {
                    assert(rest[j] == levels[j + 1]);
                }
            }
        }
        if forall|j: int| 0 <= j < levels.len() ==> (#[trigger] tables_lookup(levels[j].0, key)) is None {
            assert(tables_lookup(levels[0].0, key) is None);
            assert forall|j: int| 0 <= j < rest.len() implies (#[trigger] tables_lookup(rest[j].0, key))
                is None by {
                assert(rest[j] == levels[j + 1]);
            }
        }
    }
}

/// Looking a key up in tables looks in the first table, and in the
/// remaining ones only when the first does not hold the key; the value is
/// that of the first table holding the key, and nothing when none does.
pub proof fn lemma_tables_lookup_first(tables: Seq<TableView>, key: Seq<u8>)
    ensures
        tables.len() > 0 ==> tables_lookup(tables, key) == match table_lookup(tables[0], key) {
            Some(v) => Some(v),
            None => tables_lookup(tables.skip(1), key),
        },
        forall|i: int|
            0 <= i < tables.len() && (#[trigger] table_lookup(tables[i], key)) is Some && (forall|j: int|
                0 <= j < i ==> table_lookup(tables[j], key) is None) ==> tables_lookup(tables, key)
                == table_lookup(tables[i], key),
        (forall|j: int| 0 <= j < tables.len() ==> (#[trigger] table_lookup(tables[j], key)) is None)
            ==> tables_lookup(tables, key) is None,
    decreases tables.len(),
{
    if tables.len() > 0 {
        let rest = tables.skip(1);
        lemma_tables_lookup_first(rest, key);
        assert forall|i: int|
            0 <= i < tables.len() && (#[trigger] table_lookup(tables[i], key)) is Some && (forall|j: int|
                0 <= j < i ==> table_lookup(tables[j], key) is None) implies tables_lookup(tables, key)
                == table_lookup(tables[i], key) by {
            if i > 0 {
                assert(table_lookup(tables[0], key) is None);
                assert(rest[i - 1] == tables[i]);
                assert forall|j: int| 0 <= j < i - 1 implies table_lookup(rest[j], key) is None by {
                    assert(rest[j] == tables[j + 1]);
                }
            }
        }
        if forall|j: int| 0 <= j < tables.len() ==> (#[trigger] table_lookup(tables[j], key)) is None {
            assert(table_lookup(tables[0], key) is None);
            assert forall|j: int| 0 <= j < rest.len() implies (#[trigger] table_lookup(rest[j], key))
                is None by {
                assert(rest[j] == tables[j + 1]);
            }
        }
    }
}

/// Level `k` holds exactly `t` and every other level holds nothing.
pub open spec fn only_table_at(levels: Seq<LevelView>, k: int, t: TableView) -> bool {
    &&& levels.len() == 4
    &&& 0 <= k < 4
    &&& levels[k].0 == seq![t]
    &&& forall|i: int| 0 <= i < 4 && i != k ==> (#[trigger] levels[i]).0.len() == 0
}

/// Looking a key up where a single table is held gives that table's value.
proof fn lemma_lookup_single_table(levels: Seq<LevelView>, k: int, t: TableView, key: Seq<u8>)
    requires
        0 <= k < levels.len(),
        levels[k].0 == seq![t],
        forall|i: int| 0 <= i < levels.len() && i != k ==> (#[trigger] levels[i]).0.len() == 0,
    ensures
        levels_lookup(levels, key) == table_lookup(t, key),
    decreases levels.len(),
{
    let rest = levels.skip(1);
    assert(seq![t].skip(1) =~= Seq::<TableView>::empty());
    assert(tables_lookup(seq![t], key) == table_lookup(t, key)) by {
        assert(tables_lookup(Seq::<TableView>::empty(), key) is None);
    }
    if k == 0 {
        assert forall|i: int| 0 <= i < rest.len() implies (#[trigger] rest[i]).0.len() == 0 by {
            assert(rest[i] == levels[i + 1]);
        }
        lemma_lookup_no_tables(rest, key);
    } else {
        assert(levels[0].0.len() == 0);
        assert(rest[k - 1] == levels[k]);
        assert forall|i: int| 0 <= i < rest.len() && i != k - 1 implies (#[trigger] rest[i]).0.len() == 0 by {
            assert(rest[i] == levels[i + 1]);
        }
        lemma_lookup_single_table(rest, k - 1, t, key);
        assert(levels[0].0 =~= Seq::<TableView>::empty());
    }
}

/// Levels that hold no table give nothing.
proof fn lemma_lookup_no_tables(levels: Seq<LevelView>, key: Seq<u8>)
    requires
        forall|i: int| 0 <= i < levels.len() ==> (#[trigger] levels[i]).0.len() == 0,
    ensures
        levels_lookup(levels, key) is None,
    decreases levels.len(),
{
    if levels.len() > 0 {
        let rest = levels.skip(1);
        assert forall|i: int| 0 <= i < rest.len() implies (#[trigger] rest[i]).0.len() == 0 by {
            assert(rest[i] == levels[i + 1]);
        }
        lemma_lookup_no_tables(rest, key);
        assert(levels[0].0 =~= Seq::<TableView>::empty());
    }
}

/// Two tables give the same value for every key.
pub open spec fn same_lookups(a: TableView, b: TableView) -> bool {
    forall|key: Seq<u8>| #[trigger] table_lookup(a, key) == table_lookup(b, key)
}

/// A compaction that succeeds keeps a lone table's contents: it may merge
/// it and move it down a level, but the only table held gives the same
/// value for every key.
proof fn lemma_compaction_keeps_single_table(
    levels: Seq<LevelView>,
    capacity: usize,
    i: int,
    k: int,
    t: TableView,
)
    requires
        only_table_at(levels, k, t),
        0 <= i <= 3,
        k >= i || k == 3 || levels[k].1 <= level_max_size(k),
        compact_from(levels, capacity, i, -1).1 is Ok,
    ensures
        exists|k2: int, t2: TableView|
            #[trigger] only_table_at(compact_from(levels, capacity, i, -1).0, k2, t2) && same_lookups(
                t2,
                t,
            ),
    decreases 3 - i,
{
    if i >= 3 {
        assert(compact_from(levels, capacity, i, -1).0 == levels);
        assert(only_table_at(compact_from(levels, capacity, i, -1).0, k, t) && same_lookups(t, t));
    } else if levels[i].1 > level_max_size(i) && levels[i].0.len() > 0 {
        assert(k == i);
        let (next, r) = compact_once(levels, capacity, i, true);
        let moved = merged_table(seq![t]);
        let dest = levels[i + 1];
        assert(dest.0.len() == 0);
        assert(next[i].0.len() == 0);
        assert(next[i + 1].0 =~= seq![moved]);
        assert(only_table_at(next, i + 1, moved));
        assert forall|key: Seq<u8>| #[trigger] table_lookup(moved, key) == table_lookup(t, key) by {
            lemma_merged_lookup(seq![t], key);
            assert(seq![t].skip(1) =~= Seq::<TableView>::empty());
            assert(tables_lookup(Seq::<TableView>::empty(), key) is None);
        }
        lemma_compaction_keeps_single_table(next, capacity, i + 1, i + 1, moved);
        let (k3, t3) = choose|k3: int, t3: TableView|
            #[trigger] only_table_at(compact_from(next, capacity, i + 1, -1).0, k3, t3) && same_lookups(
                t3,
                moved,
            );
        assert(same_lookups(t3, t));
        assert(only_table_at(compact_from(levels, capacity, i, -1).0, k3, t3));
    } else {
        if k == i && levels[i].0.len() > 0 {
            assert(levels[k].1 <= level_max_size(k));
        }
        lemma_compaction_keeps_single_table(levels, capacity, i + 1, k, t);
    }
}

/// Flushing a memtable whose entries each fit in a block into a manager
/// that holds no table, when the flush succeeds, makes every non-empty key
/// read back with the value the memtable holds for it.
pub proof fn lemma_flush_into_empty_then_get<S: Storage>(
    levels: Seq<LevelView>,
    capacity: usize,
    t: SSTable,
    entries: Seq<(Seq<u8>, Seq<u8>)>,
    id: u32,
    levels2: Seq<LevelView>,
    compacting2: bool,
    s1: &S,
    s2: &S,
    key: Seq<u8>,
)
    requires
        levels.len() == 4,
        forall|i: int| 0 <= i < 4 ==> (#[trigger] levels[i]).0.len() == 0,
        built_from_entries(t, entries, id),
        flush_result(levels, false, capacity, t, levels2, compacting2, Ok(()), s1, s2),
        key.len() > 0,
        forall|i: int| 0 <= i < entries.len() ==> entry_fits(#[trigger] entries[i]),
    ensures
        levels_lookup(levels2, key) == find_value(entries, key),
{
    let added = add_to_level0(levels, t@);
    assert(added[0].0 =~= seq![t@]);
    assert forall|i: int| 0 <= i < 4 && i != 0 implies (#[trigger] added[i]).0.len() == 0 by {
        assert(added[i] == levels[i]);
    }
    assert(only_table_at(added, 0, t@));
    assert((levels2, Ok::<(), CompactionError>(())) == compact_from(added, capacity, 0, -1));
    lemma_compaction_keeps_single_table(added, capacity, 0, 0, t@);
    let (k2, t2) = choose|k2: int, t2: TableView|
        #[trigger] only_table_at(compact_from(added, capacity, 0, -1).0, k2, t2) && same_lookups(t2, t@);
    lemma_lookup_single_table(levels2, k2, t2, key);
    assert(table_lookup(t2, key) == table_lookup(t@, key));
    lemma_table_lookup_matches(entries, key);
}

/// Summary counts of a manager's levels.
#[derive(Debug, Clone)]
pub struct CompactionStats {
    pub total_tables: usize,
    pub total_size: u64,
    pub level0_tables: usize,
    pub level1_tables: usize,
    pub level2_tables: usize,
    pub level3_tables: usize,
    pub level0_size: u64,
    pub level1_size: u64,
    pub level2_size: u64,
    pub level3_size: u64,
}

/// Four levels of tables, each limited to `level_capacity` tables and to
/// 1, 10, 100 and 1000 MiB before it is compacted into the next.
pub struct CompactionManager {
    pub levels: [Level; 4],
    level_multipliers: [usize; 4],
    compacting: bool,
    level_capacity: usize,
}

impl CompactionManager {
    /// The levels as plain values.
    pub closed spec fn levels_view(&self) -> Seq<LevelView> {
        self.levels@.map_values(|l: Level| level_view(l))
    }

    /// A compaction left unfinished by a failure.
    pub closed spec fn spec_compacting(&self) -> bool {
        self.compacting
    }

    pub closed spec fn spec_level_capacity(&self) -> usize {
        self.level_capacity
    }

    /// The internal invariant: the fixed size multipliers.
    pub closed spec fn wf(&self) -> bool {
        self.level_multipliers@ == seq![1usize, 10, 100, 1000]
    }

    pub fn new(level_capacity: usize) -> (m: Self)
        ensures
            m.wf(),
            !m.spec_compacting(),
            m.spec_level_capacity() == level_capacity,
            forall|i: int|
                0 <= i < 4 ==> #[trigger] m.levels_view()[i] == (
                    Seq::<TableView>::empty(),
                    0u64,
                    i as usize,
                    level_capacity,
                ),
    {
        let m = CompactionManager {
            levels: [
                Level::new(0, level_capacity),
                Level::new(1, level_capacity),
                Level::new(2, level_capacity),
                Level::new(3, level_capacity),
            ],
            level_multipliers: [1, 10, 100, 1000],
            compacting: false,
            level_capacity,
        };
        assert(m.level_multipliers@ =~= seq![1usize, 10, 100, 1000]);
        assert(table_views(Seq::<SSTable>::empty()) =~= Seq::<TableView>::empty());
        m
    }

    fn get_level_max_size(&self, level: usize) -> (size: usize)
        requires
            self.wf(),
            level < 4,
        ensures
            size == level_max_size(level as int),
            level == 0 ==> size == 1048576,
            level == 1 ==> size == 10485760,
            level == 2 ==> size == 104857600,
            level == 3 ==> size == 1048576000,
    {
        let base_size: usize = 1024 * 1024;
        base_size * self.level_multipliers[level]
    }

    /// Compacts level `from_level` into level `to_level`.
    fn compact_level<STORAGE: Storage>(
        &mut self,
        from_level: usize,
        to_level: usize,
        storage: &mut STORAGE,
    ) -> (r: Result<(), CompactionError>)
        requires
            old(self).wf(),
            from_level < 3,
            to_level == from_level + 1,
            compaction_step_safe(old(self).levels_view(), from_level as int),
        ensures
            final(self).wf(),
            final(self).spec_level_capacity() == old(self).spec_level_capacity(),
            final(self).spec_compacting() == (r is Err),
            r != Err::<(), CompactionError>(CompactionError::WriteFailed) ==> (
                final(self).levels_view(),
                r,
            ) == compact_once(
                old(self).levels_view(),
                old(self).spec_level_capacity(),
                from_level as int,
                true,
            ),
            r == Err::<(), CompactionError>(CompactionError::WriteFailed) ==> (
                final(self).levels_view(),
                r,
            ) == compact_once(
                old(self).levels_view(),
                old(self).spec_level_capacity(),
                from_level as int,
                false,
            ),
            storage_after_writes(
                old(storage),
                final(storage),
                compact_once_writes(old(self).levels_view(), from_level as int),
                r != Err::<(), CompactionError>(CompactionError::WriteFailed),
            ),
            r == Err::<(), CompactionError>(CompactionError::WriteFailed) ==> !writes_fit(
                compact_once_writes(old(self).levels_view(), from_level as int),
                old(storage).writable_end(),
            ),
    {
        let ghost view0 = self.levels_view();
        let ghost cap = self.level_capacity;
        proof {
            assert forall|a: int| #[trigger] writes_byte(Seq::<(TableView, int)>::empty(), a) is None by {
                lemma_writes_byte_empty(a);
            }
        }
        self.compacting = true;
        let level_capacity = self.level_capacity;
        let mut source_level = Level::new(from_level, level_capacity);
        core::mem::swap(&mut source_level, &mut self.levels[from_level]);
        let ghost emptied = view0.update(
            from_level as int,
            (Seq::<TableView>::empty(), 0u64, from_level, cap),
        );
        assert(table_views(Seq::<SSTable>::empty()) =~= Seq::<TableView>::empty());
        assert(self.levels_view() =~= emptied);
        if source_level.is_empty() {
            self.compacting = false;
            return Ok(());
        }
        let merged = match source_level.merge(storage) {
            Ok(t) => t,
            Err(e) => {
                return Err(e);
            },
        };
        let ghost src = view0[from_level as int].0;
        proof {
            lemma_merged_table(src);
        }
        let id = ((self.levels[to_level].len() + 1) as u32) + 100;
        let offset = (id as u64) * 1024 * 1024;
        proof {
            assert(offset == compaction_offset(view0, from_level as int));
            let nb = merged@.1.len() as int;
            assert forall|k: int| 0 <= k < merged@.1.len() implies offset + METADATA_SIZE
                + #[trigger] merged.block_offsets@[k] + BLOCK_STRIDE <= u64::MAX + 1 by {
                assert(merged.block_offsets@[k] == standard_offsets(merged@.1.len())[k]);
                assert(k * 4100 + 4100 <= nb * 4100) by (nonlinear_arith)
                    requires
                        0 <= k < nb,
                ;
            }
        }
        let ghost s1 = *storage;
        let rw = merged.write_at(storage, offset);
        proof {
            assert(compact_once_writes(view0, from_level as int) == seq![(merged@, offset as int)]);
            lemma_single_write_effect(&s1, storage, merged@, offset as int, rw is Ok);
            if rw is Err {
                let ws = seq![(merged@, offset as int)];
                assert(!table_write_fits(merged@, offset as int, s1.writable_end()));
                assert(ws[0].0 == merged@ && ws[0].1 == offset as int);
                assert(!writes_fit(ws, s1.writable_end()));
            }
        }
        match rw {
            Ok(()) => {},
            Err(_) => {
                return Err(CompactionError::WriteFailed);
            },
        }
        let ghost before = self.levels_view();
        let ghost dest_tables = self.levels[to_level as int].tables@;
        let ghost merged_view = merged@;
        match self.levels[to_level].add_table(merged) {
            Ok(()) => {},
            Err(e) => {
                assert(self.levels_view() =~= before);
                return Err(e);
            },
        }
        self.compacting = false;
        proof {
            assert(table_views(dest_tables.push(merged)) =~= table_views(dest_tables).push(merged_view));
            let dest = emptied[to_level as int];
            assert(self.levels_view() =~= emptied.update(
                to_level as int,
                (dest.0.push(merged@), (dest.1 + table_size(merged@)) as u64, dest.2, dest.3),
            ));
        }
        Ok(())
    }

    /// Compacts, in order, each of the first three levels that is above its
    /// size limit and holds a table, unless a compaction is unfinished; each
    /// step merges the level's tables into one and writes it to storage at
    /// its compaction offset.
    pub fn maybe_compact<STORAGE: Storage>(&mut self, storage: &mut STORAGE) -> (r: Result<
        (),
        CompactionError,
    >)
        requires
            old(self).wf(),
            !old(self).spec_compacting() ==> compaction_safe(
                old(self).levels_view(),
                old(self).spec_level_capacity(),
                0,
            ),
        ensures
            final(self).wf(),
            final(self).spec_level_capacity() == old(self).spec_level_capacity(),
            old(self).spec_compacting() ==> r is Ok && final(self).levels_view() == old(
                self,
            ).levels_view() && final(self).spec_compacting() && *final(storage) == *old(storage),
            !old(self).spec_compacting() ==> final(self).spec_compacting() == (r is Err) && (exists|
                fail: int,
            |
                (final(self).levels_view(), r) == #[trigger] compact_from(
                    old(self).levels_view(),
                    old(self).spec_level_capacity(),
                    0,
                    fail,
                ) && storage_after_writes(
                    old(storage),
                    final(storage),
                    compact_writes(old(self).levels_view(), old(self).spec_level_capacity(), 0, fail),
                    r != Err::<(), CompactionError>(CompactionError::WriteFailed),
                ) && (r == Err::<(), CompactionError>(CompactionError::WriteFailed) ==> !writes_fit(
                    compact_writes(old(self).levels_view(), old(self).spec_level_capacity(), 0, fail),
                    old(storage).writable_end(),
                ))),
            !old(self).spec_compacting() && r is Ok ==> (final(self).levels_view(), r)
                == compact_from(old(self).levels_view(), old(self).spec_level_capacity(), 0, -1)
                && storage_after_writes(
                old(storage),
                final(storage),
                compact_writes(old(self).levels_view(), old(self).spec_level_capacity(), 0, -1),
                true,
            ),
            !old(self).spec_compacting() && r is Ok && (forall|j: int|
                0 <= j < 4 && (#[trigger] old(self).levels_view()[j]).0.len() == 0
                    ==> old(self).levels_view()[j].1 == 0)
                ==> final(self).levels_view()[0].1 <= 1048576
                && final(self).levels_view()[1].1 <= 10485760
                && final(self).levels_view()[2].1 <= 104857600,
    {
        if self.compacting {
            return Ok(());
        }
        let ghost view0 = self.levels_view();
        let ghost cap = self.level_capacity;
        let ghost mut done: Seq<(TableView, int)> = Seq::empty();
        proof {
            assert forall|f: int| f == -1 || f >= 0 implies #[trigger] compact_writes(view0, cap, 0, f)
                == done + compact_writes(self.levels_view(), cap, 0, f) by {
                assert(done + compact_writes(view0, cap, 0, f) =~= compact_writes(view0, cap, 0, f));
            }
            assert forall|a: int| #[trigger] writes_byte(done, a) is None by {
                lemma_writes_byte_empty(a);
            }
            assert(view0.len() == 4);
        }
        let mut level_idx: usize = 0;
        while level_idx < 3
            invariant
                0 <= level_idx <= 3,
                view0 == old(self).levels_view(),
                cap == old(self).spec_level_capacity(),
                !old(self).spec_compacting(),
                view0.len() == 4,
                self.levels_view().len() == 4,
                self.wf(),
                !self.compacting,
                self.level_capacity == cap,
                forall|f: int|
                    f == -1 || f >= level_idx ==> #[trigger] compact_from(view0, cap, 0, f)
                        == compact_from(self.levels_view(), cap, level_idx as int, f),
                forall|f: int|
                    f == -1 || f >= level_idx ==> #[trigger] compact_writes(view0, cap, 0, f)
                        == done + compact_writes(self.levels_view(), cap, level_idx as int, f),
                storage_after_writes(old(storage), storage, done, true),
                compaction_safe(self.levels_view(), cap, level_idx as int),
            decreases 3 - level_idx,
        {
            let ghost cur = self.levels_view();
            let next_level = level_idx + 1;
            let max_size = self.get_level_max_size(level_idx);
            if self.levels[level_idx].total_size > max_size as u64 && !self.levels[level_idx].is_empty() {
                let ghost s_before = *storage;
                let r = self.compact_level(level_idx, next_level, storage);
                let ghost step = compact_once_writes(cur, level_idx as int);
                proof {
                    lemma_storage_after_writes_compose(
                        old(storage),
                        &s_before,
                        storage,
                        done,
                        step,
                        r != Err::<(), CompactionError>(CompactionError::WriteFailed),
                    );
                }
                match r {
                    Ok(()) => {},
                    Err(e) => {
                        proof {
                            if e == CompactionError::WriteFailed {
                                assert(compact_from(view0, cap, 0, level_idx as int) == compact_from(cur, cap, level_idx as int, level_idx as int));
                                assert(compact_writes(view0, cap, 0, level_idx as int) == done + step);
                                if writes_fit(done + step, old(storage).writable_end()) {
                                    lemma_writes_fit_parts(done, step, old(storage).writable_end());
                                    lemma_writes_fit_grow(step, old(storage).writable_end(), s_before.writable_end());
                                }
                            } else {
                                assert(compact_from(view0, cap, 0, -1) == compact_from(cur, cap, level_idx as int, -1));
                                assert(compact_writes(view0, cap, 0, -1) == done + step);
                            }
                        }
                        return Err(e);
                    },
                }
                proof {
                    assert forall|f: int| f == -1 || f >= next_level implies #[trigger] compact_writes(
                        view0,
                        cap,
                        0,
                        f,
                    ) == (done + step) + compact_writes(self.levels_view(), cap, next_level as int, f) by {
                        assert(compact_writes(cur, cap, level_idx as int, f) == step + compact_writes(
                            self.levels_view(),
                            cap,
                            next_level as int,
                            f,
                        ));
                        assert(done + (step + compact_writes(self.levels_view(), cap, next_level as int, f))
                            =~= (done + step) + compact_writes(self.levels_view(), cap, next_level as int, f));
                    }
                    done = done + step;
                }
            }
            level_idx = next_level;
        }
        proof {
            assert(compact_from(view0, cap, 0, -1) == compact_from(self.levels_view(), cap, 3, -1));
            assert(compact_writes(view0, cap, 0, -1) == done + compact_writes(self.levels_view(), cap, 3, -1));
            assert(done + Seq::<(TableView, int)>::empty() =~= done);
            if forall|j: int| 0 <= j < 4 && (#[trigger] view0[j]).0.len() == 0 ==> view0[j].1 == 0 {
                lemma_level_limits(view0, cap);
            }
        }
        Ok(())
    }

    /// Writes the memtable as a new table at `id * 1 MiB`, where `id` is one
    /// more than the tables in level 0, adds it to level 0, then compacts.
    pub fn flush_memtable<const K: usize, const V: usize, STORAGE: Storage>(
        &mut self,
        memtable: &Memtable<K, V>,
        storage: &mut STORAGE,
    ) -> (r: Result<(), CompactionError>)
        requires
            old(self).wf(),
            memtable.wf(),
            memtable@.len() <= u32::MAX,
            old(self).levels_view()[0].0.len() < usize::MAX,
            memtable@.len() > 0 && old(self).levels_view()[0].0.len() < old(self).levels_view()[0].3
                ==> flush_fits(
                old(self).levels_view(),
                old(self).spec_level_capacity(),
                memtable@,
            ),
        ensures
            final(self).wf(),
            final(self).spec_level_capacity() == old(self).spec_level_capacity(),
            memtable@.len() == 0 ==> r is Ok && final(self).levels_view() == old(self).levels_view()
                && final(self).spec_compacting() == old(self).spec_compacting() && *final(storage)
                == *old(storage),
            memtable@.len() > 0 ==> exists|t: SSTable|
                #[trigger] built_from_entries(t, memtable@, flush_id(old(self).levels_view()))
                    && flush_result(
                    old(self).levels_view(),
                    old(self).spec_compacting(),
                    old(self).spec_level_capacity(),
                    t,
                    final(self).levels_view(),
                    final(self).spec_compacting(),
                    r,
                    old(storage),
                    final(storage),
                ),
    {
        if memtable.is_empty() {
            return Ok(());
        }
        let ghost view0 = self.levels_view();
        let id = (self.levels[0].len() + 1) as u32;
        let sstable = SSTable::from_memtable(memtable, id);
        let ghost t = sstable;
        assert(built_from_entries(t, memtable@, flush_id(view0)));
        proof {
            assert((t.blocks@.len() as int) * 4100 <= (u32::MAX as int) * 4100) by (nonlinear_arith)
                requires
                    t.blocks@.len() <= u32::MAX,
            ;
            assert forall|i: int| 0 <= i < t.blocks@.len() implies #[trigger] t.block_offsets@[i]
                + BLOCK_STRIDE <= 0x100_0000_0000_0000 by {
                assert(t.block_offsets@[i] == standard_offsets(t.blocks@.len())[i]);
                assert((i as int) * 4100 <= (u32::MAX as int) * 4100) by (nonlinear_arith)
                    requires
                        i <= u32::MAX,
                ;
            }
        }
        let offset = (id as u64) * 1024 * 1024;
        let ghost s0 = *storage;
        let rw = sstable.write_at(storage, offset);
        let ghost s1 = *storage;
        let ghost w = seq![(t@, flush_offset(view0))];
        proof {
            assert(offset == flush_offset(view0));
            lemma_single_write_effect(&s0, &s1, t@, offset as int, rw is Ok);
            assert(w[0] == (t@, flush_offset(view0)));
        }
        match rw {
            Ok(()) => {},
            Err(_) => {
                return Err(CompactionError::WriteFailed);
            },
        }
        let ghost l0_tables = self.levels[0].tables@;
        match self.levels[0].add_table(sstable) {
            Ok(()) => {},
            Err(e) => {
                assert(self.levels_view() =~= view0);
                return Err(e);
            },
        }
        assert(table_views(l0_tables.push(t)) =~= table_views(l0_tables).push(t@));
        assert(self.levels_view() =~= add_to_level0(view0, t@));
        let r = self.maybe_compact(storage);
        proof {
            let added = add_to_level0(view0, t@);
            let cap = self.spec_level_capacity();
            if !old(self).spec_compacting() {
                let fail = choose|fail: int|
                    (self.levels_view(), r) == #[trigger] compact_from(added, cap, 0, fail)
                        && storage_after_writes(
                        &s1,
                        storage,
                        compact_writes(added, cap, 0, fail),
                        r != Err::<(), CompactionError>(CompactionError::WriteFailed),
                    ) && (r == Err::<(), CompactionError>(CompactionError::WriteFailed) ==> !writes_fit(
                        compact_writes(added, cap, 0, fail),
                        s1.writable_end(),
                    ));
                if r == Err::<(), CompactionError>(CompactionError::WriteFailed) && writes_fit(
                    w + compact_writes(added, cap, 0, fail),
                    s0.writable_end(),
                ) {
                    lemma_writes_fit_parts(w, compact_writes(added, cap, 0, fail), s0.writable_end());
                    lemma_writes_fit_grow(compact_writes(added, cap, 0, fail), s0.writable_end(), s1.writable_end());
                }
                lemma_storage_after_writes_compose(
                    &s0,
                    &s1,
                    storage,
                    w,
                    compact_writes(added, cap, 0, fail),
                    r != Err::<(), CompactionError>(CompactionError::WriteFailed),
                );
                if r is Ok {
                    lemma_storage_after_writes_compose(
                        &s0,
                        &s1,
                        storage,
                        w,
                        compact_writes(added, cap, 0, -1),
                        true,
                    );
                }
            }
        }
        r
    }

    /// The value the first level, and in it the first table, that holds
    /// `key` gives.
    pub fn get(&self, key: &[u8]) -> (r: Option<&[u8]>)
        ensures
            match r {
                Some(v) => levels_lookup(self.levels_view(), key@) == Some(v@),
                None => levels_lookup(self.levels_view(), key@) is None,
            },
            forall|i: int|
                0 <= i < 4 && (#[trigger] tables_lookup(self.levels_view()[i].0, key@)) is Some && (
                forall|j: int| 0 <= j < i ==> tables_lookup(self.levels_view()[j].0, key@) is None)
                    ==> r is Some && r->0@ == tables_lookup(self.levels_view()[i].0, key@)->0,
            (forall|j: int| 0 <= j < 4 ==> (#[trigger] tables_lookup(self.levels_view()[j].0, key@)) is None)
                ==> r is None,
    {
        let ghost ls = self.levels_view();
        proof {
            lemma_levels_lookup_lowest(ls, key@);
        }
        assert(ls.skip(0) =~= ls);
        let mut i: usize = 0;
        while i < 4
            invariant
                0 <= i <= 4,
                ls == self.levels_view(),
                ls.len() == 4,
                levels_lookup(ls, key@) == levels_lookup(ls.skip(i as int), key@),
            decreases 4 - i,
        {
            proof {
                assert(ls.skip(i as int)[0] == ls[i as int]);
                assert(ls.skip(i as int).skip(1) =~= ls.skip(i + 1));
            }
            match self.levels[i].get(key) {
                Some(v) => {
                    proof {
                        assert(levels_lookup(ls, key@) == Some(v@));
                        lemma_levels_lookup_lowest(ls, key@);
                    }
                    return Some(v);
                },
                None => {},
            }
            i = i + 1;
        }
        None
    }

    /// Table counts and sizes per level and in total.
    pub fn stats(&self) -> (st: CompactionStats)
        requires
            self.levels_view()[0].0.len() + self.levels_view()[1].0.len() + self.levels_view()[2].0.len()
                + self.levels_view()[3].0.len() <= usize::MAX,
            self.levels_view()[0].1 + self.levels_view()[1].1 + self.levels_view()[2].1
                + self.levels_view()[3].1 <= u64::MAX,
        ensures
            st.total_tables == self.levels_view()[0].0.len() + self.levels_view()[1].0.len()
                + self.levels_view()[2].0.len() + self.levels_view()[3].0.len(),
            st.total_size == self.levels_view()[0].1 + self.levels_view()[1].1
                + self.levels_view()[2].1 + self.levels_view()[3].1,
            st.level0_tables == self.levels_view()[0].0.len(),
            st.level1_tables == self.levels_view()[1].0.len(),
            st.level2_tables == self.levels_view()[2].0.len(),
            st.level3_tables == self.levels_view()[3].0.len(),
            st.level0_size == self.levels_view()[0].1,
            st.level1_size == self.levels_view()[1].1,
            st.level2_size == self.levels_view()[2].1,
            st.level3_size == self.levels_view()[3].1,
    {
        let ghost ls = self.levels_view();
        let mut total_tables: usize = 0;
        let mut total_size: u64 = 0;
        let mut i: usize = 0;
        while i < 4
            invariant
                0 <= i <= 4,
                ls == self.levels_view(),
                ls.len() == 4,
                ls[0].0.len() + ls[1].0.len() + ls[2].0.len() + ls[3].0.len() <= usize::MAX,
                ls[0].1 + ls[1].1 + ls[2].1 + ls[3].1 <= u64::MAX,
                total_tables == (if i > 0 { ls[0].0.len() as int } else { 0 }) + (if i > 1 {
                    ls[1].0.len() as int
                } else {
                    0
                }) + (if i > 2 { ls[2].0.len() as int } else { 0 }) + (if i > 3 {
                    ls[3].0.len() as int
                } else {
                    0
                }),
                total_size == (if i > 0 { ls[0].1 as int } else { 0 }) + (if i > 1 {
                    ls[1].1 as int
                } else {
                    0
                }) + (if i > 2 { ls[2].1 as int } else { 0 }) + (if i > 3 { ls[3].1 as int } else { 0 }),
            decreases 4 - i,
        {
            total_tables = total_tables + self.levels[i].len();
            total_size = total_size + self.levels[i].total_size;
            i = i + 1;
        }
        CompactionStats {
            total_tables,
            total_size,
            level0_tables: self.levels[0].len(),
            level1_tables: self.levels[1].len(),
            level2_tables: self.levels[2].len(),
            level3_tables: self.levels[3].len(),
            level0_size: self.levels[0].total_size,
            level1_size: self.levels[1].total_size,
            level2_size: self.levels[2].total_size,
            level3_size: self.levels[3].total_size,
        }
    }
}

} // verus!
