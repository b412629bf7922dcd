use block_cache::block::BlockData;
use block_cache::cache::{FoyerBlockCache, ReadError};
use block_cache::chunk::{ChunkRead, BLOCK_SIZE};
use bytes::Bytes;
use std::collections::HashMap;
use std::ops::Range;

/// Blocks by key, with the bookkeeping beside them.
struct Blocks {
    cache: FoyerBlockCache,
    blocks: HashMap<String, BlockData>,
}

impl Blocks {
    fn new() -> Blocks {
        Blocks {
            cache: FoyerBlockCache::new(),
            blocks: HashMap::new(),
        }
    }

    fn store_block(&mut self, path: &str, block_index: usize, data: Bytes) {
        let (key, block) = self.cache.store_block(path, block_index, data);
        self.blocks.insert(key, block);
    }

    fn get_block(&self, path: &str, block_index: usize) -> Option<&BlockData> {
        self.blocks
            .get(&FoyerBlockCache::make_block_key(path, block_index))
    }

    fn read(&self, path: &str, chunk: usize, offset: u64, len: usize) -> Result<Bytes, ReadError> {
        FoyerBlockCache::read_from_cached_chunk(self.get_block(path, chunk), offset, len)
    }

    fn stream(&self, path: &str, range: Range<usize>) -> Vec<Result<Bytes, ReadError>> {
        let mut stream = self.cache.get_range_from_cache_stream(range);
        let mut parts = Vec::new();
        while let Some(read) = stream.next_read() {
            parts.push(self.read(path, read.chunk_idx, read.offset, read.length));
        }
        parts
    }
}

fn reads(range: Range<usize>) -> Vec<ChunkRead> {
    let mut stream = FoyerBlockCache::new().get_range_from_cache_stream(range);
    let mut reads = Vec::new();
    while let Some(read) = stream.next_read() {
        reads.push(read);
    }
    assert!(stream.next_read().is_none());
    reads
}

#[test]
fn test_make_block_key() {
    let path = "test/file.txt";
    let block_index = 42;
    let key = FoyerBlockCache::make_block_key(path, block_index);
    assert_eq!(key, "test/file.txt_42");
}

#[test]
fn keys_hold_the_index_in_decimal() {
    assert_eq!(FoyerBlockCache::make_block_key("", 0), "_0");
    assert_eq!(FoyerBlockCache::make_block_key("a_1", 10), "a_1_10");
    for i in [0, 9, 10, 99, 100, 1234567890, usize::MAX] {
        assert_eq!(FoyerBlockCache::make_block_key("p", i), format!("p_{}", i));
    }
}

#[test]
fn test_block_key_uniqueness() {
    let path1 = "test1.txt";
    let path2 = "test2.txt";
    let block_index = 0;

    let key1 = FoyerBlockCache::make_block_key(path1, block_index);
    let key2 = FoyerBlockCache::make_block_key(path2, block_index);
    let key3 = FoyerBlockCache::make_block_key(path1, block_index + 1);

    assert_ne!(key1, key2, "Keys should be different for different paths");
    assert_ne!(key1, key3, "Keys should be different for different block indices");
    assert_ne!(key2, key3, "Keys should be different for different paths and indices");
    assert_ne!(
        FoyerBlockCache::make_block_key("a", 11),
        FoyerBlockCache::make_block_key("a_1", 1)
    );
}

#[test]
fn test_store_and_get_block() {
    let mut cache = Blocks::new();
    let path = "test.txt";
    let block_index = 0;
    let test_data = Bytes::from(vec![1, 2, 3, 4, 5]);

    cache.store_block(path, block_index, test_data.clone());

    let retrieved = cache.get_block(path, block_index);
    assert!(retrieved.is_some());

    let block = retrieved.unwrap();
    assert_eq!(block.data, test_data);
    assert_eq!(block.index, block_index as u64);
    assert_eq!(block.path, path.to_string());
}

#[test]
fn test_get_nonexistent_block() {
    let cache = Blocks::new();
    assert!(cache.get_block("test.txt", 0).is_none());
}

#[test]
fn test_chunks_for_range() {
    let cache = FoyerBlockCache::new();

    let range = 0..BLOCK_SIZE;
    let chunks = cache.chunks_for_range(&range);
    assert_eq!(chunks, 0..=0);

    let range = 0..(BLOCK_SIZE * 3);
    let chunks = cache.chunks_for_range(&range);
    assert_eq!(chunks, 0..=2);

    let range = BLOCK_SIZE / 2..(BLOCK_SIZE * 2 + BLOCK_SIZE / 2);
    let chunks = cache.chunks_for_range(&range);
    assert_eq!(chunks, 0..=2);
}

#[test]
fn chunk_bounds_are_exact() {
    let cache = FoyerBlockCache::new();
    assert_eq!(BLOCK_SIZE, 4 * 1024 * 1024);
    assert_eq!(cache.chunks_for_range(&(0..1)), 0..=0);
    assert_eq!(cache.chunks_for_range(&(BLOCK_SIZE - 1..BLOCK_SIZE + 1)), 0..=1);
    assert_eq!(cache.chunks_for_range(&(BLOCK_SIZE..BLOCK_SIZE + 1)), 1..=1);
    let reversed = cache.chunks_for_range(&(3 * BLOCK_SIZE..1));
    assert_eq!(*reversed.start(), 3);
    assert_eq!(*reversed.end(), 0);
}

#[test]
fn test_store_multiple_blocks() {
    let mut cache = Blocks::new();
    let path = "test.txt";

    for i in 0..3 {
        let data = Bytes::from(vec![i as u8; BLOCK_SIZE]);
        cache.store_block(path, i, data);
    }

    for i in 0..3 {
        let block = cache.get_block(path, i).unwrap();
        assert_eq!(block.index, i as u64);
        assert_eq!(block.data.len(), BLOCK_SIZE);
        assert!(block.data.iter().all(|&x| x == i as u8));
    }
}

#[test]
fn test_large_block_handling() {
    let mut cache = Blocks::new();
    let path = "large.txt";
    let large_data = Bytes::from(vec![42; BLOCK_SIZE * 2]);

    cache.store_block(path, 0, large_data.clone());

    let retrieved = cache.get_block(path, 0).unwrap();
    assert_eq!(retrieved.data.len(), large_data.len());
    assert_eq!(retrieved.data, large_data);
}

#[test]
fn test_read_from_cached_chunk() {
    let mut cache = Blocks::new();
    let path = "test.txt";
    let test_data = Bytes::from(vec![1, 2, 3, 4, 5, 6, 7, 8, 9, 10]);
    cache.store_block(path, 0, test_data);

    let result = cache.read(path, 0, 0, 10).unwrap();
    assert_eq!(result.as_ref(), &[1, 2, 3, 4, 5, 6, 7, 8, 9, 10]);

    let result = cache.read(path, 0, 2, 3).unwrap();
    assert_eq!(result.as_ref(), &[3, 4, 5]);

    let result = cache.read(path, 0, 5, 2).unwrap();
    assert_eq!(result.as_ref(), &[6, 7]);
}

#[test]
fn test_read_from_cached_chunk_errors() {
    let mut cache = Blocks::new();
    let path = "test.txt";

    let result = cache.read(path, 0, 0, 1);
    assert!(result.is_err());
    assert_eq!(result, Err(ReadError::NotCached));

    let test_data = Bytes::from(vec![1, 2, 3]);
    cache.store_block(path, 0, test_data);

    let result = cache.read(path, 0, 4, 1);
    assert!(result.is_err());
    assert_eq!(result, Err(ReadError::OutOfBounds));
    assert_eq!(cache.read(path, 0, 2, 2), Err(ReadError::OutOfBounds));
    assert_eq!(cache.read(path, 0, 1, usize::MAX), Err(ReadError::OutOfBounds));
    assert_eq!(cache.read(path, 0, u64::MAX, 1), Err(ReadError::OutOfBounds));
    assert_eq!(cache.read(path, 0, 4, 0), Err(ReadError::OutOfBounds));
    assert_eq!(cache.read(path, 0, 3, 0), Ok(Bytes::new()));
}

#[test]
fn test_get_range_from_cache_stream() {
    let mut cache = Blocks::new();
    let path = "test.txt";
    for i in 0..3 {
        let data = Bytes::from(vec![i as u8 + 1; BLOCK_SIZE]);
        cache.store_block(path, i, data);
    }

    let parts = cache.stream(path, 0..100);
    let result = parts[0].clone().unwrap();
    assert_eq!(result.len(), 100);
    assert!(result.iter().all(|&x| x == 1));

    let parts = cache.stream(path, (BLOCK_SIZE - 100)..(BLOCK_SIZE + 100));

    let first_chunk = parts[0].clone().unwrap();
    assert_eq!(first_chunk.len(), 100);
    assert!(first_chunk.iter().all(|&x| x == 1));

    let second_chunk = parts[1].clone().unwrap();
    assert_eq!(second_chunk.len(), 100);
    assert!(second_chunk.iter().all(|&x| x == 2));
}

#[test]
fn test_get_range_from_cache_stream_edge_cases() {
    let mut cache = Blocks::new();
    let path = "test.txt";
    let data = Bytes::from(vec![1; BLOCK_SIZE]);
    cache.store_block(path, 0, data);

    assert!(cache.stream(path, 0..0).is_empty());

    let result = cache.stream(path, 100..200)[0].clone().unwrap();
    assert_eq!(result.len(), 100);

    let result = cache.stream(path, 0..100)[0].clone().unwrap();
    assert_eq!(result.len(), 100);
}

#[test]
fn test_get_range_from_cache_stream_all_blocks() {
    let mut cache = Blocks::new();
    let path = "test.txt";
    for i in 0..4 {
        let data = Bytes::from(vec![i as u8; BLOCK_SIZE]);
        cache.store_block(path, i, data);
    }

    let mut success_count = 0;
    let mut error_count = 0;
    for result in cache.stream(path, 0..(BLOCK_SIZE * 4)) {
        match result {
            Ok(_) => success_count += 1,
            Err(_) => error_count += 1,
        }
    }

    assert_eq!(success_count, 4);
    assert_eq!(error_count, 0);
}

#[test]
fn stream_reports_missing_blocks_and_goes_on() {
    let mut cache = Blocks::new();
    for i in [0, 2] {
        cache.store_block("test.txt", i, Bytes::from(vec![i as u8; BLOCK_SIZE]));
    }
    let parts = cache.stream("test.txt", 0..(BLOCK_SIZE * 4));
    assert_eq!(parts.len(), 4);
    assert!(parts[0].is_ok());
    assert_eq!(parts[1], Err(ReadError::NotCached));
    assert!(parts[2].is_ok());
    assert_eq!(parts[3], Err(ReadError::NotCached));
}

#[test]
fn test_get_range_from_cache_stream_large_range() {
    let mut cache = Blocks::new();
    let path = "test.txt";
    for i in 0..10 {
        let data = Bytes::from(vec![i as u8; BLOCK_SIZE]);
        cache.store_block(path, i, data);
    }

    let mut total_bytes = 0;
    let mut block_count = 0;
    for result in cache.stream(path, (BLOCK_SIZE * 2)..(BLOCK_SIZE * 8)) {
        let chunk = result.unwrap();
        total_bytes += chunk.len();
        block_count += 1;
    }

    assert_eq!(block_count, 6);
    assert_eq!(total_bytes, BLOCK_SIZE * 6);
}

#[test]
fn test_get_range_from_cache_stream_concurrent() {
    let mut cache = Blocks::new();
    let path = "test.txt";
    for i in 0..5 {
        let data = Bytes::from(vec![i as u8; BLOCK_SIZE]);
        cache.store_block(path, i, data);
    }

    // Three overlapping streams, advanced in turn.
    let mut streams = Vec::new();
    for i in 0..3 {
        let range = (i * BLOCK_SIZE)..((i + 2) * BLOCK_SIZE);
        streams.push((cache.cache.get_range_from_cache_stream(range), Vec::new()));
    }
    for _ in 0..3 {
        for (stream, chunks) in streams.iter_mut() {
            if let Some(read) = stream.next_read() {
                chunks.push(cache.read(path, read.chunk_idx, read.offset, read.length).unwrap());
            }
        }
    }

    for (i, (_, chunks)) in streams.iter().enumerate() {
        assert!(!chunks.is_empty());
        assert_eq!(chunks.len(), 2);
        assert_eq!(chunks[0][0], i as u8);
        assert_eq!(chunks[1][0], i as u8 + 1);
    }
}

#[test]
fn reads_of_a_range_are_exact() {
    assert_eq!(
        reads(BLOCK_SIZE - 5..2 * BLOCK_SIZE + 7),
        vec![
            ChunkRead { chunk_idx: 0, offset: BLOCK_SIZE as u64 - 5, length: 5 },
            ChunkRead { chunk_idx: 1, offset: 0, length: BLOCK_SIZE },
            ChunkRead { chunk_idx: 2, offset: 0, length: 7 },
        ]
    );
    assert_eq!(
        reads(usize::MAX - 1..usize::MAX),
        vec![ChunkRead {
            chunk_idx: usize::MAX / BLOCK_SIZE,
            offset: BLOCK_SIZE as u64 - 2,
            length: 1
        }]
    );
    assert!(reads(0..0).is_empty());
    assert!(reads(7..7).is_empty());
    assert!(reads(BLOCK_SIZE..BLOCK_SIZE).is_empty());
    assert!(reads(Range { start: 9, end: 3 }).is_empty());
    assert!(reads(Range { start: 5 * BLOCK_SIZE, end: 3 }).is_empty());
}

#[test]
fn test_key_tracking() {
    let mut cache = Blocks::new();
    let path = "test.txt";

    cache.store_block(path, 0, Bytes::from("data1"));
    cache.store_block(path, 1, Bytes::from("data2"));

    let keys = cache.cache.get_all_keys();
    assert_eq!(keys.len(), 2);

    assert!(cache.cache.has_key("test.txt_0"));
    assert!(cache.cache.has_key("test.txt_1"));
}

#[test]
fn a_key_is_tracked_once() {
    let mut cache = FoyerBlockCache::new();
    assert!(cache.get_all_keys().is_empty());
    assert!(!cache.has_key("p_0"));
    cache.store_block("p", 0, Bytes::from("one"));
    let (key, block) = cache.store_block("p", 0, Bytes::from("two"));
    assert_eq!(key, "p_0");
    assert_eq!(block.data, Bytes::from("two"));
    assert_eq!(cache.get_all_keys(), vec![String::from("p_0")]);
    assert!(!cache.has_key("p_1"));
    assert!(!cache.has_key("q_0"));
}

#[test]
fn invalidation_leaves_no_key() {
    let mut cache = FoyerBlockCache::new();
    cache.store_block("test.txt", 0, Bytes::from("data1"));
    cache.store_block("test.txt", 1, Bytes::from("data2"));

    let gone = cache.invalidate_blocks("test.txt", 2 * BLOCK_SIZE);

    assert_eq!(gone, vec!["test.txt_0", "test.txt_1"]);
    assert!(cache.get_all_keys().is_empty());
}

#[test]
fn invalidation_spares_other_objects() {
    let mut cache = FoyerBlockCache::new();
    for i in 0..3 {
        cache.store_block("a", i, Bytes::new());
        cache.store_block("b", i, Bytes::new());
    }

    let gone = cache.invalidate_blocks("a", 2 * BLOCK_SIZE + 1);

    assert_eq!(gone, vec!["a_0", "a_1", "a_2"]);
    let mut keys = cache.get_all_keys();
    keys.sort();
    assert_eq!(keys, vec!["b_0", "b_1", "b_2"]);
    assert!(!cache.has_key("a_0"));
    assert!(!cache.has_key("a_1"));
    assert!(!cache.has_key("a_2"));
}

#[test]
fn invalidation_counts_started_blocks() {
    let mut cache = FoyerBlockCache::new();
    for i in 0..3 {
        cache.store_block("a", i, Bytes::new());
    }
    assert!(cache.invalidate_blocks("a", 0).is_empty());
    assert_eq!(cache.get_all_keys().len(), 3);
    assert_eq!(cache.invalidate_blocks("a", 1), vec!["a_0"]);
    assert!(!cache.has_key("a_0"));
    assert_eq!(cache.invalidate_blocks("a", BLOCK_SIZE), vec!["a_0"]);
    assert!(cache.has_key("a_1"));
    assert_eq!(cache.invalidate_blocks("a", BLOCK_SIZE + 1), vec!["a_0", "a_1"]);
    assert_eq!(cache.get_all_keys(), vec![String::from("a_2")]);
}
