use fresh::memstore::{Chunk, ChunkIndex, LoadStore, Memstore};
use std::collections::HashMap;

struct MockLoadStore {
    data: HashMap<u64, Vec<u8>>,
    writes: usize,
}

impl MockLoadStore {
    fn new() -> Self {
        MockLoadStore {
            data: HashMap::new(),
            writes: 0,
        }
    }

    fn with_data(mut self, offset: u64, data: Vec<u8>) -> Self {
        self.data.insert(offset, data);
        self
    }
}

impl LoadStore for MockLoadStore {
    fn load(&self, offset: u64, size: u64) -> Option<Vec<u8>> {
        self.data
            .get(&offset)
            .map(|data| data[..size as usize].to_vec())
    }

    fn store(&mut self, offset: u64, data: &[u8]) {
        self.writes += 1;
        self.data.insert(offset, data.to_vec());
    }
}

#[test]
fn test_memstore_get_existing_chunk() {
    let load_store = MockLoadStore::new().with_data(0, vec![1, 2, 3, 4]);
    let mut memstore = Memstore::new(load_store);

    let chunk_index = ChunkIndex::new(0, 4);
    let chunk = memstore.get(&chunk_index);

    match chunk {
        Chunk::Loaded { data, need_store } => {
            assert_eq!(data, &vec![1, 2, 3, 4]);
            assert!(!need_store);
        }
        _ => panic!("Expected Chunk::Loaded"),
    }
}

#[test]
fn test_memstore_get_non_existing_chunk() {
    let load_store = MockLoadStore::new();
    let mut memstore = Memstore::new(load_store);

    let chunk_index = ChunkIndex::new(0, 4);
    let chunk = memstore.get(&chunk_index);

    match chunk {
        Chunk::Empty => {}
        _ => panic!("Expected Chunk::Empty"),
    }
}

#[test]
fn test_memstore_store_all() {
    let load_store = MockLoadStore::new();
    let mut memstore = Memstore::new(load_store);

    let chunk_index = ChunkIndex::new(0, 4);
    memstore.insert(
        chunk_index,
        Chunk::Loaded {
            data: vec![1, 2, 3, 4],
            need_store: true,
        },
    );

    memstore.store_all();

    let stored_data = memstore.load_store().load(0, 4).unwrap();
    assert_eq!(stored_data, vec![1, 2, 3, 4]);

    let chunk = memstore.get(&chunk_index);
    match chunk {
        Chunk::Loaded { data, need_store } => {
            assert_eq!(data, &vec![1, 2, 3, 4]);
            assert!(!need_store);
        }
        _ => panic!("Expected Chunk::Loaded"),
    }
}

#[test]
fn second_store_all_writes_nothing() {
    let mut memstore = Memstore::new(MockLoadStore::new());
    memstore.insert(
        ChunkIndex::new(0, 2),
        Chunk::Loaded {
            data: vec![7, 8],
            need_store: true,
        },
    );
    memstore.insert(
        ChunkIndex::new(2, 2),
        Chunk::Loaded {
            data: vec![9, 9],
            need_store: false,
        },
    );
    memstore.store_all();
    assert_eq!(memstore.load_store().writes, 1);
    memstore.store_all();
    assert_eq!(memstore.load_store().writes, 1);
    assert_eq!(memstore.load_store().load(0, 2), Some(vec![7, 8]));
    assert_eq!(memstore.load_store().load(2, 2), None);
}

#[test]
fn get_is_memoized() {
    let mut memstore = Memstore::new(MockLoadStore::new());
    let index = ChunkIndex::new(8, 4);
    assert!(matches!(memstore.get(&index), Chunk::Empty));
    memstore.insert(
        index,
        Chunk::Loaded {
            data: vec![5, 6, 7, 8],
            need_store: false,
        },
    );
    match memstore.get(&index) {
        Chunk::Loaded { data, need_store } => {
            assert_eq!(data, &vec![5, 6, 7, 8]);
            assert!(!need_store);
        }
        _ => panic!("Expected Chunk::Loaded"),
    }
}

#[test]
fn insert_replaces_the_cached_chunk() {
    let mut memstore = Memstore::new(MockLoadStore::new().with_data(0, vec![1, 1]));
    let index = ChunkIndex::new(0, 2);
    assert!(matches!(memstore.get(&index), Chunk::Loaded { .. }));
    memstore.insert(index, Chunk::Empty);
    assert!(matches!(memstore.get(&index), Chunk::Empty));
    memstore.store_all();
    assert_eq!(memstore.load_store().writes, 0);
}

#[test]
fn chunk_index_end_offset() {
    let index = ChunkIndex::new(4096, 512);
    assert_eq!(index.offset, 4096);
    assert_eq!(index.chunk_size, 512);
    assert_eq!(index.end_offset(), 4608);
    assert_eq!(ChunkIndex::new(3, 4), ChunkIndex { offset: 3, chunk_size: 4 });
    assert_ne!(ChunkIndex::new(3, 4), ChunkIndex::new(3, 5));
}

#[test]
fn chunk_from_load() {
    assert!(matches!(Chunk::from_load(None), Chunk::Empty));
    match Chunk::from_load(Some(vec![3])) {
        Chunk::Loaded { data, need_store } => {
            assert_eq!(data, vec![3]);
            assert!(!need_store);
        }
        _ => panic!("Expected Chunk::Loaded"),
    }
}

struct CountingStore {
    loads: std::cell::Cell<usize>,
}

impl LoadStore for CountingStore {
    fn load(&self, _offset: u64, size: u64) -> Option<Vec<u8>> {
        self.loads.set(self.loads.get() + 1);
        Some(vec![0; size as usize])
    }

    fn store(&mut self, _offset: u64, _data: &[u8]) {}
}

#[test]
fn repeated_get_loads_once() {
    let mut memstore = Memstore::new(CountingStore {
        loads: std::cell::Cell::new(0),
    });
    let a = ChunkIndex::new(0, 3);
    let b = ChunkIndex::new(3, 3);
    memstore.get(&a);
    memstore.get(&a);
    memstore.get(&b);
    memstore.get(&a);
    assert_eq!(memstore.load_store().loads.get(), 2);
}
