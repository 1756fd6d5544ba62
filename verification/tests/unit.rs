use lsm_embedded::bloom::{BloomError, PartitionedBloom};
use lsm_embedded::cache::RingCache;
use lsm_embedded::compaction::CompactionManager;
use lsm_embedded::memtable::{Memtable, MemtableError};
use lsm_embedded::sstable::{Block, SSTable};
use lsm_embedded::storage::{InMemoryStorage, Storage};
use lsm_embedded::{BLOCK_SIZE, DEFAULT_KEY_SIZE, DEFAULT_VALUE_SIZE};

type TestMemtable = Memtable<16, 1024>;

fn make_key(value: u32) -> [u8; 16] {
    let mut key = [0u8; 16];
    key[0..4].copy_from_slice(&value.to_le_bytes());
    key
}

#[test]
fn test_bloom_basic() {
    let mut filter = PartitionedBloom::new(10, 3);
    let key = b"hello";

    filter.insert(0, key).unwrap();
    assert!(filter.might_contain(0, key).unwrap());
}

#[test]
fn test_bloom_false_positive_rate() {
    let mut filter = PartitionedBloom::new(50, 4);

    for i in 0..30 {
        let key = format!("key{}", i);
        filter.insert(i, key.as_bytes()).unwrap();
    }

    let mut false_positives = 0;
    for i in 30..50 {
        let key = format!("key{}", i);
        if let Ok(contains) = filter.might_contain(i, key.as_bytes()) {
            if contains {
                false_positives += 1;
            }
        }
    }

    let fp_rate = false_positives as f32 / 20.0;
    println!("False positive rate: {:.2}%", fp_rate * 100.0);
    assert!(fp_rate < 0.05);
}

#[test]
fn test_cache_basic() {
    let mut cache = RingCache::<4>::new();
    let block_id = 123;
    let data = [42u8; BLOCK_SIZE];

    cache.insert(block_id, &data).unwrap();
    let cached = cache.get(block_id).unwrap();
    assert_eq!(cached, &data[..]);
}

#[test]
fn test_cache_eviction() {
    let mut cache = RingCache::<2>::new();

    let data1 = [1u8; BLOCK_SIZE];
    let data2 = [2u8; BLOCK_SIZE];
    let data3 = [3u8; BLOCK_SIZE];

    cache.insert(1, &data1).unwrap();
    cache.insert(2, &data2).unwrap();
    cache.insert(3, &data3).unwrap();

    let has1 = cache.get(1).is_some();
    let has2 = cache.get(2).is_some();
    let has3 = cache.get(3).is_some();

    assert!(has3);
    assert!(has1 || has2);
}

#[test]
fn test_hit_rate() {
    let mut cache = RingCache::<2>::new();
    let data = [42u8; BLOCK_SIZE];

    cache.insert(1, &data).unwrap();
    cache.get(1).unwrap();
    cache.get(1).unwrap();

    let total = cache.hits() + cache.misses();
    let hit_rate = if total == 0 { 0.0 } else { cache.hits() as f32 / total as f32 };
    assert!(hit_rate > 0.5);
}

#[test]
fn test_compaction_flow() {
    let mut compactor = CompactionManager::new(5);
    let mut storage = InMemoryStorage::new();
    let mut memtable = TestMemtable::new(10);

    let value = [42u8; 50];

    for i in 0..5 {
        let key = make_key(i);
        memtable.insert(&key, &value).unwrap();
    }

    let test_key = make_key(1);

    let memtable_result = memtable.get(&test_key);
    assert!(memtable_result.is_some(), "Memtable should have the key");
    assert_eq!(memtable_result, Some(&value[..]));

    compactor.flush_memtable(&memtable, &mut storage).unwrap();

    assert_eq!(compactor.levels[0].len(), 1);

    let result = compactor.get(&test_key);
    assert!(result.is_some(), "Key not found in compaction manager");
    assert_eq!(result, Some(&value[..]));

    let stats = compactor.stats();
    assert_eq!(stats.total_tables, 1);
    assert_eq!(stats.level0_tables, 1);
}

#[test]
fn test_basic_write_read() {
    let mut storage = InMemoryStorage::new();
    let mut memtable = Memtable::<DEFAULT_KEY_SIZE, DEFAULT_VALUE_SIZE>::new(10);

    let key = [1u8; DEFAULT_KEY_SIZE];
    let value = b"Hello, LSM!";
    memtable.insert(&key, value).unwrap();

    assert_eq!(memtable.get(&key), Some(&value[..]));

    let sstable = SSTable::from_memtable(&memtable, 1);
    sstable.write(&mut storage).unwrap();

    let read_sstable = SSTable::read(&mut storage).unwrap();
    assert_eq!(read_sstable.get(&key), Some(&value[..]));
}

#[test]
fn test_insert_and_get() {
    let mut mt = TestMemtable::new(10);
    let key = [1u8; 16];
    let value = [2u8; 100];

    assert!(mt.insert(&key, &value).is_ok());
    assert_eq!(mt.get(&key), Some(&value[..]));
}

#[test]
fn test_full_capacity() {
    let mut mt = TestMemtable::new(10);
    let value = [0u8; 100];

    for i in 0..10 {
        let mut key = [0u8; 16];
        key[0] = i;
        assert!(mt.insert(&key, &value).is_ok());
    }

    let mut key = [0u8; 16];
    key[0] = 10;
    assert_eq!(mt.insert(&key, &value), Err(MemtableError::Full));
}

#[test]
fn test_value_too_large() {
    let mut mt = TestMemtable::new(10);
    let key = [1u8; 16];
    let value = [2u8; 1025];
    assert_eq!(mt.insert(&key, &value), Err(MemtableError::ValueTooLarge));
}

#[test]
fn test_iteration() {
    let mut mt = TestMemtable::new(10);
    let value = [42u8; 50];

    for i in 0..5 {
        let mut key = [0u8; 16];
        key[0] = i;
        mt.insert(&key, &value).unwrap();
    }

    let mut count = 0;
    let mut it = mt.iter();
    while let Some((key, val)) = it.next() {
        assert_eq!(val, &value[..]);
        assert_eq!(key[0], count);
        count += 1;
    }
    assert_eq!(count, 5);
}

#[test]
fn test_clear() {
    let mut mt = TestMemtable::new(10);
    let key = [1u8; 16];
    let value = [2u8; 100];
    mt.insert(&key, &value).unwrap();
    assert!(!mt.is_empty());

    mt.clear();
    assert!(mt.is_empty());
    assert_eq!(mt.get(&key), None);
}

#[test]
fn test_block_checksum() {
    let data = [1, 2, 3, 4, 5];
    let block = Block::new(&data);
    assert!(block.verify());

    let mut corrupted = block;
    corrupted.data[0] = 99;
    assert!(!corrupted.verify());
}

#[test]
fn test_sstable_contains_keys() {
    let mut memtable = TestMemtable::new(10);
    let value = [42u8; 50];

    for i in 0..5 {
        let mut key = [0u8; 16];
        key[0] = i;
        memtable.insert(&key, &value).unwrap();
    }

    let sstable = SSTable::from_memtable(&memtable, 1);

    assert_eq!(sstable.metadata.key_count, 5);

    for i in 0..5 {
        let mut key = [0u8; 16];
        key[0] = i;
        let result = sstable.get(&key);
        assert!(result.is_some(), "Key {} not found in SSTable", i);
        assert_eq!(result, Some(&value[..]));
    }
}

#[test]
fn test_sstable_roundtrip() {
    let mut memtable = TestMemtable::new(10);
    let value = [42u8; 50];

    for i in 0..5 {
        let mut key = [0u8; 16];
        key[0] = i;
        memtable.insert(&key, &value).unwrap();
    }

    let sstable = SSTable::from_memtable(&memtable, 1);
    let mut storage = InMemoryStorage::new();

    sstable.write(&mut storage).unwrap();
    let read_sstable = SSTable::read(&mut storage).unwrap();

    assert_eq!(read_sstable.metadata.id, 1);
    assert_eq!(read_sstable.metadata.key_count, 5);
    assert_eq!(read_sstable.metadata.block_count, sstable.metadata.block_count);

    for i in 0..5 {
        let mut key = [0u8; 16];
        key[0] = i;
        let result = read_sstable.get(&key);
        assert_eq!(result, Some(&value[..]), "Failed for key {}", i);
    }
}

#[test]
fn test_sstable_write_at_read_at() {
    let mut memtable = TestMemtable::new(10);
    let value = [42u8; 50];

    for i in 0..3 {
        let mut key = [0u8; 16];
        key[0] = i;
        memtable.insert(&key, &value).unwrap();
    }

    let sstable = SSTable::from_memtable(&memtable, 1);
    let mut storage = InMemoryStorage::new();

    let offset = 1024 * 1024;
    sstable.write_at(&mut storage, offset).unwrap();
    let read_sstable = SSTable::read_at(&mut storage, offset).unwrap();

    assert_eq!(read_sstable.metadata.id, 1);
    assert_eq!(read_sstable.metadata.key_count, 3);

    for i in 0..3 {
        let mut key = [0u8; 16];
        key[0] = i;
        let result = read_sstable.get(&key);
        assert_eq!(result, Some(&value[..]), "Failed for key {}", i);
    }
}

#[test]
fn test_in_memory_storage() {
    let mut storage = InMemoryStorage::new();
    let data = [1, 2, 3, 4, 5];

    storage.write_at(10, &data).unwrap();

    let mut buf = [0u8; 5];
    storage.read_at(10, &mut buf).unwrap();
    assert_eq!(buf, data);

    let mut buf2 = [0u8; 3];
    storage.read_at(15, &mut buf2).unwrap();
    assert_eq!(buf2, [0, 0, 0]);
}

#[test]
fn test_bloom_errors() {
    let mut filter = PartitionedBloom::new(4, 3);
    assert_eq!(filter.insert(4, b"k").unwrap_err(), BloomError::IndexOutOfBounds);
    assert_eq!(filter.might_contain(9, b"k").unwrap_err(), BloomError::IndexOutOfBounds);
    assert_eq!(filter.might_contain(1, b"k").unwrap_err(), BloomError::NotLoaded);
    assert!(filter.load_partition(0).is_ok());
    assert!(!filter.might_contain(0, b"k").unwrap());
    assert_eq!(filter.memory_usage(), 8);
    assert!(!filter.is_full());
}
