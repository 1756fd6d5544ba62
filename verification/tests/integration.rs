use lsm_embedded::bloom::PartitionedBloom;
use lsm_embedded::cache::RingCache;
use lsm_embedded::BLOCK_SIZE;
use lsm_embedded::{compaction::CompactionManager, storage::InMemoryStorage, Memtable, SSTable};

type TestMemtable = Memtable<16, 1024>;

fn make_key(value: u32) -> [u8; 16] {
    let mut key = [0u8; 16];
    key[0..4].copy_from_slice(&value.to_le_bytes());
    key
}

#[test]
fn test_full_write_read_cycle() {
    let mut storage = InMemoryStorage::new();
    let mut memtable = TestMemtable::new(10);
    let value = b"test_value";

    for i in 0..8 {
        let key = make_key(i);
        memtable.insert(&key, value).unwrap();
    }

    let sstable = SSTable::from_memtable(&memtable, 1);
    sstable.write(&mut storage).unwrap();

    let read_sstable = SSTable::read(&mut storage).unwrap();
    for i in 0..8 {
        let key = make_key(i);
        assert_eq!(read_sstable.get(&key), Some(&value[..]));
    }
}

#[test]
fn test_cache_performance() {
    let mut cache = RingCache::<4>::new();
    let data = [42u8; BLOCK_SIZE];

    cache.insert(1, &data).unwrap();
    assert!(cache.get(1).is_some());

    cache.get(1).unwrap();
    cache.get(1).unwrap();
    let total = cache.hits() + cache.misses();
    let hit_rate = if total == 0 { 0.0 } else { cache.hits() as f32 / total as f32 };
    assert!(hit_rate > 0.5);
}

#[test]
fn test_bloom_filter_accuracy() {
    let mut filter = PartitionedBloom::new(10, 3);

    for i in 0..5 {
        let key = format!("key{}", i);
        filter.insert(i, key.as_bytes()).unwrap();
    }

    for i in 0..5 {
        let key = format!("key{}", i);
        assert!(filter.might_contain(i, key.as_bytes()).unwrap());
    }

    let mut false_positives = 0;
    for i in 5..10 {
        let key = format!("key{}", i);
        if let Ok(contains) = filter.might_contain(i, key.as_bytes()) {
            if contains {
                false_positives += 1;
            }
        }
    }

    assert!(false_positives <= 2);
}

#[test]
fn test_compaction_integration() {
    let mut storage = InMemoryStorage::new();
    let mut compactor = CompactionManager::new(5);

    let value = b"test_data";
    let mut expected_keys = Vec::new();

    {
        let mut memtable = TestMemtable::new(10);
        for i in 0..4 {
            let key = make_key(i);
            expected_keys.push(i);
            memtable.insert(&key, value).unwrap();
        }

        compactor.flush_memtable(&memtable, &mut storage).unwrap();
    }

    {
        let mut memtable = TestMemtable::new(10);
        for i in 10..14 {
            let key = make_key(i);
            expected_keys.push(i);
            memtable.insert(&key, value).unwrap();
        }

        compactor.flush_memtable(&memtable, &mut storage).unwrap();
        compactor.maybe_compact(&mut storage).unwrap();
    }

    for &i in &expected_keys {
        let key = make_key(i);
        assert_eq!(compactor.get(&key), Some(&value[..]), "Key {} should be found", i);
    }

    for i in 4..10 {
        let key = make_key(i);
        assert!(compactor.get(&key).is_none(), "Key {} should NOT be found", i);
    }

    let stats = compactor.stats();
    assert_eq!(stats.total_tables, 2);
}

#[test]
fn test_in_memory_persistence() {
    let mut storage = InMemoryStorage::new();
    let mut memtable = TestMemtable::new(10);
    let value = b"persistent_data";

    let key = make_key(1);
    memtable.insert(&key, value).unwrap();

    let sstable = SSTable::from_memtable(&memtable, 1);
    sstable.write(&mut storage).unwrap();

    let read_sstable = SSTable::read(&mut storage).unwrap();
    assert_eq!(read_sstable.get(&key), Some(&value[..]));
}

#[test]
fn test_multiple_sstables() {
    let mut storage = InMemoryStorage::new();
    let value = b"test_data";

    for id in 0..3 {
        let mut memtable = TestMemtable::new(10);
        let key = make_key(id);
        memtable.insert(&key, value).unwrap();

        let sstable = SSTable::from_memtable(&memtable, id);
        let offset = (id as u64) * 1024 * 1024;
        sstable.write_at(&mut storage, offset).unwrap();
    }

    for id in 0..3 {
        let offset = (id as u64) * 1024 * 1024;
        let read_sstable = SSTable::read_at(&mut storage, offset).unwrap();
        let key = make_key(id);
        assert_eq!(read_sstable.get(&key), Some(&value[..]));
    }
}
