use std::io::ErrorKind;
use lsm_embedded::bloom::{BloomPartition, PartitionedBloom};
use lsm_embedded::cache::RingCache;
use lsm_embedded::compaction::{CompactionError, CompactionManager, Level};
use lsm_embedded::memtable::{Memtable, MemtableError};
use lsm_embedded::sstable::{Block, SSTable};
use lsm_embedded::storage::{InMemoryStorage, Storage, StorageError};
use lsm_embedded::wasm::{WasmStorage, WasmStorageError};
use lsm_embedded::BLOCK_SIZE;

fn make_key(value: u32) -> [u8; 16] {
    let mut key = [0u8; 16];
    key[0..4].copy_from_slice(&value.to_le_bytes());
    key
}

fn value_for(i: u32, len: usize) -> Vec<u8> {
    (0..len).map(|j| (i as usize * 7 + j) as u8).collect()
}

#[test]
fn memtable_reads_back_every_insert() {
    let mut mt = Memtable::<16, 1024>::new(50);
    for i in 0..50u32 {
        mt.insert(&make_key(i), &value_for(i, (i as usize) * 3)).unwrap();
    }
    assert_eq!(mt.len(), 50);
    assert!(mt.is_full());
    for i in 0..50u32 {
        assert_eq!(mt.get(&make_key(i)), Some(&value_for(i, (i as usize) * 3)[..]));
    }
    assert_eq!(mt.get(&make_key(99)), None);
    assert_eq!(mt.total_bytes(), 50 * 16 + (0..50).map(|i| i * 3).sum::<usize>());
}

#[test]
fn memtable_refuses_duplicate_key() {
    let mut mt = Memtable::<16, 1024>::new(10);
    mt.insert(&make_key(3), b"first").unwrap();
    assert_eq!(mt.insert(&make_key(3), b"second"), Err(MemtableError::KeyExists));
    assert_eq!(mt.get(&make_key(3)), Some(&b"first"[..]));
    assert_eq!(mt.len(), 1);
}

#[test]
fn memtable_checks_full_before_key_and_size() {
    let mut mt = Memtable::<4, 8>::new(1);
    mt.insert(&[1, 2, 3, 4], b"abc").unwrap();
    assert_eq!(mt.insert(&[1, 2, 3, 4], &[0u8; 100]), Err(MemtableError::Full));
}

#[test]
fn memtable_keeps_length_modulo_u16() {
    let mut mt = Memtable::<4, 70000>::new(1);
    let value = vec![9u8; 65537];
    mt.insert(&[0, 0, 0, 1], &value).unwrap();
    assert_eq!(mt.get(&[0, 0, 0, 1]), Some(&[9u8][..]));
}

#[test]
fn memtable_clear_then_reuse() {
    let mut mt = Memtable::<4, 8>::new(2);
    mt.insert(&[1, 1, 1, 1], b"one").unwrap();
    mt.clear();
    assert_eq!(mt.total_bytes(), 0);
    mt.insert(&[1, 1, 1, 1], b"uno").unwrap();
    assert_eq!(mt.get(&[1, 1, 1, 1]), Some(&b"uno"[..]));
}

#[test]
fn block_checksum_is_crc32_of_padded_data() {
    assert_eq!(Block::new(&[]).checksum, 0xc71c0011);
    assert_eq!(Block::new(&[1, 2, 3, 4, 5]).checksum, 0x731b9ffd);
    let long = vec![7u8; BLOCK_SIZE + 10];
    let block = Block::new(&long);
    assert_eq!(&block.data[..], &long[..BLOCK_SIZE]);
    assert!(block.verify());
}

#[test]
fn table_from_memtable_metadata() {
    let mut mt = Memtable::<16, 1024>::new(10);
    for i in 0..5u8 {
        let mut key = [0u8; 16];
        key[0] = i;
        key[1] = 10 - i;
        mt.insert(&key, &[42u8; 50]).unwrap();
    }
    let t = SSTable::from_memtable(&mt, 7);
    assert_eq!(t.metadata.magic, 0x4D534C31);
    assert_eq!(t.metadata.version, 1);
    assert_eq!(t.metadata.id, 7);
    assert_eq!(t.metadata.block_count, 1);
    assert_eq!(t.metadata.key_count, 5);
    assert_eq!(t.metadata.total_size, 4100);
    assert_eq!(t.total_size(), 4164);
    let mut min_key = [0u8; 16];
    min_key[1] = 6;
    let mut max_key = [0u8; 16];
    max_key[0] = 4;
    max_key[1] = 10;
    assert_eq!(t.metadata.min_key, min_key);
    assert_eq!(t.metadata.max_key, max_key);
    assert_eq!(t.block_offsets, vec![0]);
}

#[test]
fn table_spans_blocks_and_answers_like_memtable() {
    let mut mt = Memtable::<16, 1024>::new(100);
    for i in 0..100u32 {
        mt.insert(&make_key(i), &value_for(i, 100)).unwrap();
    }
    let t = SSTable::from_memtable(&mt, 1);
    assert_eq!(t.metadata.block_count, 4);
    assert_eq!(t.block_offsets, vec![0, 4100, 8200, 12300]);
    for i in 0..100u32 {
        assert_eq!(t.get(&make_key(i)), mt.get(&make_key(i)));
    }
    assert_eq!(t.get(&make_key(100)), None);
    assert_eq!(t.get(b"short"), None);
}

#[test]
fn empty_key_matches_block_padding() {
    let mut mt = Memtable::<16, 1024>::new(1);
    mt.insert(&make_key(1), b"v").unwrap();
    let t = SSTable::from_memtable(&mt, 1);
    assert_eq!(t.get(&[]), Some(&[][..]));
}

#[test]
fn written_table_reads_back_identical() {
    let mut mt = Memtable::<16, 1024>::new(60);
    for i in 0..60u32 {
        mt.insert(&make_key(i), &value_for(i, 200)).unwrap();
    }
    let t = SSTable::from_memtable(&mt, 3);
    let mut storage = InMemoryStorage::new();
    t.write_at(&mut storage, 500).unwrap();
    let back = SSTable::read_at(&mut storage, 500).unwrap();
    assert_eq!(back.metadata, t.metadata);
    assert_eq!(back.block_offsets, t.block_offsets);
    assert_eq!(back.blocks.len(), t.blocks.len());
    for (a, b) in back.blocks.iter().zip(t.blocks.iter()) {
        assert_eq!(&a.data[..], &b.data[..]);
        assert_eq!(a.checksum, b.checksum);
    }
}

#[test]
fn corrupted_block_is_refused() {
    let mut mt = Memtable::<16, 1024>::new(5);
    mt.insert(&make_key(1), b"value").unwrap();
    let t = SSTable::from_memtable(&mt, 1);
    let mut storage = InMemoryStorage::new();
    t.write(&mut storage).unwrap();
    storage.write_at(64 + 30, &[0xAB]).unwrap();
    assert_eq!(SSTable::read(&mut storage).unwrap_err().kind(), std::io::ErrorKind::InvalidData);
}

#[test]
fn missing_magic_is_refused() {
    let mut storage = InMemoryStorage::new();
    assert_eq!(SSTable::read(&mut storage).unwrap_err().kind(), std::io::ErrorKind::InvalidData);
}

#[test]
fn storage_error_corruption() {
    assert_eq!(StorageError::corruption(), StorageError::Corruption);
}

#[test]
fn in_memory_storage_capacity_and_sync() {
    let mut s = InMemoryStorage::with_capacity(77);
    assert_eq!(s.capacity(), 77);
    assert!(s.sync().is_ok());
    assert_eq!(InMemoryStorage::new().capacity(), 1024 * 1024 * 100);
}

#[test]
fn wasm_storage_write_read_and_bounds() {
    let mut s = WasmStorage::new();
    assert_eq!(s.capacity(), 1024 * 1024 * 10);
    s.write_at(4, &[1, 2, 3]).unwrap();
    assert_eq!(s.data(), &[0, 0, 0, 0, 1, 2, 3][..]);
    let mut buf = [0u8; 3];
    s.read_at(4, &mut buf).unwrap();
    assert_eq!(buf, [1, 2, 3]);
    let mut big = [0u8; 4];
    assert_eq!(s.read_at(4, &mut big), Err(WasmStorageError::OutOfBounds));
    assert_eq!(WasmStorage::with_capacity(5).capacity(), 5);
}

#[test]
fn wasm_storage_error_from_storage_error() {
    assert_eq!(WasmStorageError::from(StorageError::Io), WasmStorageError::Io);
    assert_eq!(WasmStorageError::from(StorageError::Corruption), WasmStorageError::Corruption);
    assert_eq!(WasmStorageError::from(StorageError::Full), WasmStorageError::Full);
    assert_eq!(WasmStorageError::from(StorageError::NotFound), WasmStorageError::NotFound);
}

#[test]
fn table_through_wasm_storage() {
    let mut mt = Memtable::<16, 1024>::new(5);
    mt.insert(&make_key(2), b"wasm").unwrap();
    let t = SSTable::from_memtable(&mt, 1);
    let mut s = WasmStorage::new();
    t.write(&mut s).unwrap();
    let back = SSTable::read(&mut s).unwrap();
    assert_eq!(back.get(&make_key(2)), Some(&b"wasm"[..]));
}

#[test]
fn cache_evicts_least_recently_used() {
    let mut cache = RingCache::<2>::new();
    cache.insert(1, &[1u8; BLOCK_SIZE]).unwrap();
    cache.insert(2, &[2u8; BLOCK_SIZE]).unwrap();
    assert!(cache.get(1).is_some());
    cache.insert(3, &[3u8; BLOCK_SIZE]).unwrap();
    assert!(cache.get(2).is_none());
    assert_eq!(cache.get(1).unwrap(), &[1u8; BLOCK_SIZE][..]);
    assert_eq!(cache.get(3).unwrap(), &[3u8; BLOCK_SIZE][..]);
    assert_eq!(cache.len(), 2);
    assert_eq!(cache.hits(), 3);
    assert_eq!(cache.misses(), 1);
}

#[test]
fn cache_overwrites_present_block() {
    let mut cache = RingCache::<3>::new();
    cache.insert(5, &[1u8; BLOCK_SIZE]).unwrap();
    cache.insert(5, &[9u8; BLOCK_SIZE]).unwrap();
    assert_eq!(cache.len(), 1);
    assert_eq!(cache.get(5).unwrap(), &[9u8; BLOCK_SIZE][..]);
    cache.clear();
    assert_eq!(cache.len(), 0);
    assert!(cache.get(5).is_none());
}

#[test]
fn bloom_has_no_false_negatives() {
    let mut p = BloomPartition::new(9);
    for i in 0..40u32 {
        p.insert(&i.to_le_bytes());
        for j in 0..=i {
            assert!(p.might_contain(&j.to_le_bytes()));
        }
    }
    assert_eq!(p.memory_usage(), 8);
    let empty = BloomPartition::new(3);
    assert!(!empty.might_contain(b"anything"));
}

#[test]
fn partitioned_bloom_loads_in_order() {
    let mut f = PartitionedBloom::new(3, 2);
    f.insert(0, b"a").unwrap();
    f.insert(1, b"b").unwrap();
    f.insert(2, b"c").unwrap();
    assert!(f.is_full());
    assert_eq!(f.memory_usage(), 24);
    assert!(f.might_contain(0, b"a").unwrap());
    assert!(f.might_contain(1, b"b").unwrap());
    assert!(f.might_contain(2, b"c").unwrap());
    assert!(f.load_partition(1).is_ok());
}

#[test]
fn flush_into_empty_manager_then_get() {
    let mut storage = InMemoryStorage::new();
    let mut m = CompactionManager::new(4);
    let mut mt = Memtable::<16, 1024>::new(30);
    for i in 0..30u32 {
        mt.insert(&make_key(i), &value_for(i, 33)).unwrap();
    }
    m.flush_memtable(&mt, &mut storage).unwrap();
    for i in 0..30u32 {
        assert_eq!(m.get(&make_key(i)), mt.get(&make_key(i)));
    }
    assert_eq!(m.get(&make_key(31)), None);
    let stats = m.stats();
    assert_eq!(stats.level0_tables, 1);
    assert_eq!(stats.level0_size, m.levels[0].tables[0].total_size());
}

#[test]
fn empty_memtable_flush_changes_nothing() {
    let mut storage = InMemoryStorage::new();
    let mut m = CompactionManager::new(4);
    let mt = Memtable::<16, 1024>::new(3);
    m.flush_memtable(&mt, &mut storage).unwrap();
    assert_eq!(m.stats().total_tables, 0);
}

#[test]
fn full_level_zero_refuses_flush() {
    let mut storage = InMemoryStorage::new();
    let mut m = CompactionManager::new(1);
    let mut mt = Memtable::<16, 1024>::new(3);
    mt.insert(&make_key(1), b"x").unwrap();
    m.flush_memtable(&mt, &mut storage).unwrap();
    assert!(m.levels[0].is_full());
    let r = m.flush_memtable(&mt, &mut storage);
    assert!(matches!(r, Err(CompactionError::LevelFull)));
    assert_eq!(m.levels[0].len(), 1);
}

#[test]
fn large_table_moves_down_a_level() {
    let mut storage = InMemoryStorage::new();
    let mut m = CompactionManager::new(4);
    let mut mt = Memtable::<16, 1024>::new(1100);
    for i in 0..1100u32 {
        mt.insert(&make_key(i), &value_for(i, 1000)).unwrap();
    }
    m.flush_memtable(&mt, &mut storage).unwrap();
    assert_eq!(m.levels[0].len(), 0);
    assert_eq!(m.levels[0].total_size, 0);
    assert_eq!(m.levels[1].len(), 1);
    assert!(m.levels[1].total_size > 1024 * 1024);
    for i in (0..1100u32).step_by(97) {
        assert_eq!(m.get(&make_key(i)), Some(&value_for(i, 1000)[..]));
    }
}

#[test]
fn flush_writes_table_at_its_id_in_mebibytes() {
    let mut storage = InMemoryStorage::new();
    let mut m = CompactionManager::new(4);
    let mut mt = Memtable::<16, 1024>::new(4);
    mt.insert(&make_key(7), b"on disk").unwrap();
    m.flush_memtable(&mt, &mut storage).unwrap();
    let stored = SSTable::read_at(&mut storage, 1024 * 1024).unwrap();
    assert_eq!(stored.metadata.id, 1);
    assert_eq!(stored.get(&make_key(7)), Some(&b"on disk"[..]));
    let mut before = [0xAAu8; 8];
    storage.read_at(1024 * 1024 - 8, &mut before).unwrap();
    assert_eq!(before, [0u8; 8]);
}

#[test]
fn compaction_writes_moved_table_past_one_hundred_mebibytes() {
    let mut storage = InMemoryStorage::new();
    let mut m = CompactionManager::new(4);
    let mut mt = Memtable::<16, 1024>::new(1100);
    for i in 0..1100u32 {
        mt.insert(&make_key(i), &value_for(i, 1000)).unwrap();
    }
    m.flush_memtable(&mt, &mut storage).unwrap();
    let moved = SSTable::read_at(&mut storage, 101 * 1024 * 1024).unwrap();
    assert_eq!(moved.metadata.id, 1);
    assert_eq!(moved.metadata.key_count, 1100);
    assert_eq!(moved.get(&make_key(5)), Some(&value_for(5, 1000)[..]));
}

#[test]
fn wasm_storage_failed_access_changes_nothing() {
    let mut s = WasmStorage::new();
    s.write_at(0, &[9, 8]).unwrap();
    let mut buf = [5u8; 3];
    assert_eq!(s.read_at(1, &mut buf), Err(WasmStorageError::OutOfBounds));
    assert_eq!(buf, [5, 5, 5]);
    assert_eq!(s.data(), &[9, 8][..]);
    s.write_at(1, &[7, 6, 5]).unwrap();
    assert_eq!(s.data(), &[9, 7, 6, 5][..]);
}

#[test]
fn level_merge_keeps_every_key_and_empties_level() {
    let mut storage = InMemoryStorage::new();
    let mut level = Level::new(2, 3);
    assert!(matches!(level.merge(&mut storage), Err(CompactionError::NoTables)));
    let mut a = Memtable::<16, 1024>::new(2);
    a.insert(&make_key(1), b"first").unwrap();
    a.insert(&make_key(3), b"newer").unwrap();
    let mut b = Memtable::<16, 1024>::new(2);
    b.insert(&make_key(2), b"second").unwrap();
    b.insert(&make_key(3), b"older").unwrap();
    let ta = SSTable::from_memtable(&a, 1);
    let tb = SSTable::from_memtable(&b, 2);
    let size_a = ta.total_size();
    let size_b = tb.total_size();
    level.add_table(ta).unwrap();
    level.add_table(tb.clone()).unwrap();
    assert_eq!(level.total_size, size_a + size_b);
    level.add_table(tb.clone()).unwrap();
    assert!(level.is_full());
    assert!(matches!(level.add_table(tb), Err(CompactionError::LevelFull)));
    assert_eq!(level.len(), 3);
    assert_eq!(level.get(&make_key(2)), Some(&b"second"[..]));
    let merged = level.merge(&mut storage).unwrap();
    assert_eq!(merged.metadata.id, 1);
    assert_eq!(merged.metadata.block_count, 3);
    assert_eq!(merged.metadata.key_count, 6);
    assert_eq!(merged.blocks.len(), 3);
    assert_eq!(merged.block_offsets, vec![0, 4100, 8200]);
    assert_eq!(merged.total_size(), 3 * 4100 + 64);
    assert!(merged.blocks.iter().all(|b| b.verify()));
    assert_eq!(merged.get(&make_key(1)), Some(&b"first"[..]));
    assert_eq!(merged.get(&make_key(2)), Some(&b"second"[..]));
    assert_eq!(merged.get(&make_key(3)), Some(&b"newer"[..]));
    assert_eq!(merged.get(&make_key(4)), None);
    let mut min_key = [0u8; 16];
    min_key[0] = 1;
    let mut max_key = [0u8; 16];
    max_key[0] = 3;
    assert_eq!(merged.metadata.min_key, min_key);
    assert_eq!(merged.metadata.max_key, max_key);
    assert!(level.is_empty());
    assert_eq!(level.total_size, 0);
    assert_eq!(level.level_number, 2);
}

#[test]
fn compaction_merges_every_table_of_a_level() {
    let mut storage = InMemoryStorage::new();
    let mut m = CompactionManager::new(4);
    for batch in 0..2u32 {
        let mut mt = Memtable::<16, 1024>::new(600);
        for i in 0..600u32 {
            let k = batch * 600 + i;
            mt.insert(&make_key(k), &value_for(k, 1000)).unwrap();
        }
        m.flush_memtable(&mt, &mut storage).unwrap();
    }
    assert_eq!(m.levels[0].len(), 0);
    assert_eq!(m.levels[1].len(), 1);
    assert_eq!(m.levels[1].tables[0].metadata.key_count, 1200);
    for k in (0..1200u32).step_by(37) {
        assert_eq!(m.get(&make_key(k)), Some(&value_for(k, 1000)[..]));
    }
    let moved = SSTable::read_at(&mut storage, 101 * 1024 * 1024).unwrap();
    assert_eq!(moved.get(&make_key(1199)), Some(&value_for(1199, 1000)[..]));
}

#[test]
fn storage_errors_convert_to_io_errors() {
    assert_eq!(std::io::Error::from(StorageError::Io).kind(), ErrorKind::Other);
    assert_eq!(std::io::Error::from(StorageError::Corruption).kind(), ErrorKind::InvalidData);
    assert_eq!(std::io::Error::from(StorageError::Full).kind(), ErrorKind::StorageFull);
    assert_eq!(std::io::Error::from(StorageError::NotFound).kind(), ErrorKind::NotFound);
    let mut empty = InMemoryStorage::new();
    assert_eq!(SSTable::read_at(&mut empty, 0).unwrap_err().kind(), ErrorKind::InvalidData);
}

#[test]
fn partitioned_bloom_memory_counts_loaded_blocks() {
    let mut f = PartitionedBloom::new(3, 2);
    assert_eq!(f.memory_usage(), 0);
    f.load_partition(0).unwrap();
    f.load_partition(0).unwrap();
    assert_eq!(f.memory_usage(), 8);
    assert!(!f.is_full());
    f.insert(1, b"k").unwrap();
    f.load_partition(2).unwrap();
    assert_eq!(f.memory_usage(), 24);
    assert!(f.is_full());
}
