use block_cache::block::BlockData;
use block_cache::cache::FoyerBlockCache;
use block_cache::chunk::BLOCK_SIZE;
use block_cache::request::{GetOptions, GetRange, GetStep};
use bytes::Bytes;
use std::collections::HashMap;
use std::ops::Range;

/// Objects in memory, behind a cache in memory.
struct Store {
    objects: HashMap<String, Vec<u8>>,
    blocks: HashMap<String, BlockData>,
    cache: FoyerBlockCache,
    fetches: Vec<(usize, Range<usize>)>,
}

#[derive(Debug, PartialEq)]
enum Answer {
    Forwarded(usize),
    Range(Range<usize>, Vec<u8>),
}

impl Store {
    fn new() -> Store {
        Store {
            objects: HashMap::new(),
            blocks: HashMap::new(),
            cache: FoyerBlockCache::new(),
            fetches: Vec::new(),
        }
    }

    fn put(&mut self, path: &str, data: Vec<u8>) {
        self.objects.insert(path.to_string(), data);
    }

    fn store_block(&mut self, path: &str, block_index: usize, data: Bytes) {
        let (key, block) = self.cache.store_block(path, block_index, data);
        self.blocks.insert(key, block);
    }

    fn delete(&mut self, path: &str) {
        let object = self.objects.remove(path).unwrap();
        for key in self.cache.invalidate_blocks(path, object.len()) {
            self.blocks.remove(&key);
        }
    }

    fn get_opts(&mut self, path: &str, options: &GetOptions) -> Answer {
        let size = self.objects[path].len();
        let mut request = self.cache.get_opts(path, options, size);
        loop {
            match request.next_step() {
                GetStep::Forward => return Answer::Forwarded(self.objects[path].len()),
                GetStep::Lookup { chunk_idx, key } => {
                    assert_eq!(key, FoyerBlockCache::make_block_key(path, chunk_idx));
                    request.looked_up(self.blocks.contains_key(&key));
                }
                GetStep::Fetch { chunk_idx, range } => {
                    self.fetches.push((chunk_idx, range.clone()));
                    let data = Bytes::from(self.objects[path][range].to_vec());
                    let (key, block) = request.fetched(&mut self.cache, data);
                    assert_eq!(key, FoyerBlockCache::make_block_key(path, chunk_idx));
                    self.blocks.insert(key, block);
                }
                GetStep::Serve { range } => {
                    let mut stream = self.cache.get_range_from_cache_stream(range.clone());
                    let mut data = Vec::new();
                    while let Some(read) = stream.next_read() {
                        let key = FoyerBlockCache::make_block_key(path, read.chunk_idx);
                        let part = FoyerBlockCache::read_from_cached_chunk(
                            self.blocks.get(&key),
                            read.offset,
                            read.length,
                        );
                        data.extend_from_slice(&part.unwrap());
                    }
                    return Answer::Range(range, data);
                }
            }
        }
    }

    fn get(&mut self, path: &str, range: Option<GetRange>) -> (Range<usize>, Vec<u8>) {
        match self.get_opts(path, &GetOptions { head: false, range }) {
            Answer::Range(range, data) => (range, data),
            Answer::Forwarded(_) => panic!("Expected stream payload"),
        }
    }
}

fn create_test_file(store: &mut Store, path: &str, size: usize) {
    let data: Vec<u8> = (0..size).map(|i| (i % 256) as u8).collect();
    store.put(path, data);
}

fn verify_range(store: &mut Store, path: &str, range: Range<usize>) {
    let (served, result) = store.get(path, Some(GetRange::Bounded(range.clone())));
    assert_eq!(served, range);
    assert_eq!(result.len(), range.end - range.start);
    for (i, byte) in result.iter().enumerate() {
        let expected = ((range.start + i) % 256) as u8;
        assert_eq!(*byte, expected, "Mismatch at position {}", i);
    }
}

fn partial_cache() -> Store {
    let mut store = Store::new();
    let mut all_data = Vec::new();
    for i in 0..10 {
        let data = vec![i as u8; BLOCK_SIZE];
        all_data.extend_from_slice(&data);
        if i % 2 == 0 {
            store.store_block("test.txt", i, Bytes::from(data));
        }
    }
    store.put("test.txt", all_data);
    store
}

#[test]
fn test_get_opts_head_request() {
    let mut store = Store::new();
    store.put("test.txt", vec![1, 2, 3, 4, 5, 6, 7, 8, 9, 10]);
    let options = GetOptions { head: true, range: None };
    assert_eq!(store.get_opts("test.txt", &options), Answer::Forwarded(10));
    assert!(store.fetches.is_empty());
    assert!(store.cache.get_all_keys().is_empty());
}

#[test]
fn test_get_opts_head_request_partial() {
    let mut store = partial_cache();
    let options = GetOptions { head: true, range: None };
    assert_eq!(store.get_opts("test.txt", &options), Answer::Forwarded(10 * BLOCK_SIZE));
    assert!(store.fetches.is_empty());
}

#[test]
fn a_head_request_ignores_its_range() {
    let mut store = Store::new();
    create_test_file(&mut store, "a", 100);
    let options = GetOptions { head: true, range: Some(GetRange::Bounded(0..0)) };
    assert_eq!(store.get_opts("a", &options), Answer::Forwarded(100));
    assert!(store.fetches.is_empty());
    assert!(store.cache.get_all_keys().is_empty());
}

#[test]
fn test_get_opts_bounded_range_partial() {
    let mut store = partial_cache();
    let (_, data) = store.get(
        "test.txt",
        Some(GetRange::Bounded((2 * BLOCK_SIZE)..(5 * BLOCK_SIZE))),
    );
    assert_eq!(data[0], 2);
    assert_eq!(data[BLOCK_SIZE], 3);
    assert_eq!(data[2 * BLOCK_SIZE], 4);
    assert_eq!(data.len(), 3 * BLOCK_SIZE);
    assert_eq!(store.fetches, vec![(3, 3 * BLOCK_SIZE..4 * BLOCK_SIZE)]);
    assert!(store.cache.has_key("test.txt_3"));
    assert_eq!(store.blocks["test.txt_3"].index, 3);
    assert_eq!(store.blocks["test.txt_3"].path, "test.txt");
}

#[test]
fn test_large_file() {
    let mut store = Store::new();
    let file_path = "large_file";
    let file_size = BLOCK_SIZE * 2 + 1024 * 1024;
    create_test_file(&mut store, file_path, file_size);

    verify_range(&mut store, file_path, 0..file_size);

    assert_eq!(store.cache.get_all_keys().len(), 3);
    for chunk_idx in 0..=2 {
        let s = format!("{}_{}", file_path, chunk_idx);
        assert!(store.cache.has_key(&s));
    }
    assert_eq!(
        store.fetches,
        vec![
            (0, 0..BLOCK_SIZE),
            (1, BLOCK_SIZE..2 * BLOCK_SIZE),
            (2, 2 * BLOCK_SIZE..file_size),
        ]
    );
}

#[test]
fn test_range_within_chunk() {
    let mut store = Store::new();
    let file_path = "range_test.bin";
    let file_size = BLOCK_SIZE * 3;
    create_test_file(&mut store, file_path, file_size);

    let start = BLOCK_SIZE + 1024;
    let end = BLOCK_SIZE + 2048;
    verify_range(&mut store, file_path, start..end);

    assert!(store.cache.has_key(&format!("{}_{}", file_path, 1)));
    assert!(!store.cache.has_key(&format!("{}_{}", file_path, 0)));
    assert!(!store.cache.has_key(&format!("{}_{}", file_path, 2)));
}

#[test]
fn test_range_across_chunks() {
    let mut store = Store::new();
    let file_path = "multi_chunk_range.bin";
    let file_size = BLOCK_SIZE * 3;
    create_test_file(&mut store, file_path, file_size);

    let start = BLOCK_SIZE - 1024;
    let end = BLOCK_SIZE * 2 + 1024;
    verify_range(&mut store, file_path, start..end);

    assert!(store.cache.has_key(&format!("{}_{}", file_path, 0)));
    assert!(store.cache.has_key(&format!("{}_{}", file_path, 1)));
    assert!(store.cache.has_key(&format!("{}_{}", file_path, 2)));
}

#[test]
fn test_cache_hit() {
    let mut store = Store::new();
    let file_path = "cache_hit.bin";
    let file_size = BLOCK_SIZE + 1024;
    create_test_file(&mut store, file_path, file_size);

    verify_range(&mut store, file_path, 0..file_size);
    assert_eq!(store.fetches.len(), 2);

    let modified_data = vec![255u8; file_size];
    store.put(file_path, modified_data);

    verify_range(&mut store, file_path, 0..file_size);
    assert_eq!(store.fetches.len(), 2);
    assert_eq!(store.cache.get_all_keys().len(), 2);
}

#[test]
fn test_suffix_range() {
    let mut store = Store::new();
    let file_path = "suffix_range.bin";
    let file_size = BLOCK_SIZE * 2;
    create_test_file(&mut store, file_path, file_size);

    let (_, data) = store.get(file_path, Some(GetRange::Suffix(1024 * 1024)));

    assert_eq!(data.len(), 1024 * 1024);
    let start = file_size - 1024 * 1024;
    for (i, byte) in data.iter().enumerate() {
        let expected = ((start + i) % 256) as u8;
        assert_eq!(*byte, expected, "Mismatch at position {}", i);
    }
    assert_eq!(store.fetches, vec![(1, BLOCK_SIZE..file_size)]);
}

#[test]
fn ranges_are_resolved_against_the_size() {
    let resolve = |range: Option<GetRange>, size: usize| {
        GetOptions { head: false, range }.range_to_fetch(size)
    };
    assert_eq!(resolve(None, 10), 0..10);
    assert_eq!(resolve(Some(GetRange::Bounded(3..99)), 10), 3..99);
    assert_eq!(resolve(Some(GetRange::Offset(4)), 10), 4..10);
    assert_eq!(resolve(Some(GetRange::Offset(11)), 10), Range { start: 11, end: 10 });
    assert_eq!(resolve(Some(GetRange::Suffix(4)), 10), 6..10);
    assert_eq!(resolve(Some(GetRange::Suffix(11)), 10), 0..10);
    assert_eq!(resolve(Some(GetRange::Suffix(0)), 10), 10..10);
}

#[test]
fn offset_and_whole_object() {
    let mut store = Store::new();
    create_test_file(&mut store, "f", 1000);
    assert_eq!(store.get("f", Some(GetRange::Offset(990))).1.len(), 10);
    let (range, data) = store.get("f", None);
    assert_eq!(range, 0..1000);
    assert_eq!(data, store.objects["f"]);
    assert_eq!(store.fetches, vec![(0, 0..1000)]);
}

#[test]
fn lookups_precede_fetches() {
    let cache = FoyerBlockCache::new();
    let options = GetOptions { head: false, range: None };
    let mut request = cache.get_opts("p", &options, 2 * BLOCK_SIZE + 1);
    for i in 0..3 {
        match request.next_step() {
            GetStep::Lookup { chunk_idx, key } => {
                assert_eq!(chunk_idx, i);
                assert_eq!(key, format!("p_{}", i));
            }
            _ => panic!("no lookup"),
        }
        request.looked_up(i == 1);
    }
    match request.next_step() {
        GetStep::Fetch { chunk_idx, range } => {
            assert_eq!(chunk_idx, 0);
            assert_eq!(range, 0..BLOCK_SIZE);
        }
        _ => panic!("no fetch"),
    }
    let mut cache = cache;
    request.fetched(&mut cache, Bytes::new());
    match request.next_step() {
        GetStep::Fetch { chunk_idx, range } => {
            assert_eq!(chunk_idx, 2);
            assert_eq!(range, 2 * BLOCK_SIZE..2 * BLOCK_SIZE + 1);
        }
        _ => panic!("no fetch"),
    }
    request.fetched(&mut cache, Bytes::new());
    assert!(matches!(request.next_step(), GetStep::Serve { .. }));
}

#[test]
fn a_read_concerns_one_object() {
    let mut store = Store::new();
    create_test_file(&mut store, "a", 100);
    store.put("b", vec![7; 50]);
    assert_eq!(store.get("b", None).1, vec![7; 50]);
    verify_range(&mut store, "a", 10..90);
    assert_eq!(store.get("b", None).1, vec![7; 50]);
    assert_eq!(store.fetches, vec![(0, 0..50), (0, 0..100)]);
    let mut keys = store.cache.get_all_keys();
    keys.sort();
    assert_eq!(keys, vec!["a_0", "b_0"]);
}

#[test]
fn an_empty_range_is_served_empty() {
    let mut store = Store::new();
    create_test_file(&mut store, "a", 100);
    assert_eq!(store.get("a", Some(GetRange::Bounded(10..10))), (10..10, vec![]));
    assert_eq!(store.get("a", Some(GetRange::Suffix(0))), (100..100, vec![]));
}

#[test]
fn an_empty_object_is_served_empty() {
    let mut store = Store::new();
    store.put("empty", vec![]);
    assert_eq!(store.get("empty", None), (0..0, vec![]));
    assert_eq!(store.get("empty", Some(GetRange::Bounded(0..0))), (0..0, vec![]));
    assert!(store.fetches.is_empty());
    assert!(store.cache.get_all_keys().is_empty());
    store.delete("empty");
}

#[test]
fn a_deleted_object_is_not_served_again() {
    let mut store = Store::new();
    create_test_file(&mut store, "a", BLOCK_SIZE + 10);
    create_test_file(&mut store, "b", 10);
    verify_range(&mut store, "a", 0..BLOCK_SIZE + 10);
    verify_range(&mut store, "b", 0..10);

    store.delete("a");
    assert_eq!(store.cache.get_all_keys(), vec!["b_0"]);
    assert_eq!(store.blocks.len(), 1);

    let replacement = vec![255u8; 2 * BLOCK_SIZE + 3];
    store.put("a", replacement.clone());
    assert_eq!(store.get("a", None).1, replacement);
    verify_range(&mut store, "b", 0..10);
}
