//! A cache of fixed-size chunks of a backing store.
//!
//! A chunk is loaded on first access and kept from then on; chunks marked as
//! changed are written back by `store_all`.

use vstd::prelude::*;

verus! {

/// A cached chunk.
pub enum Chunk {
    /// The chunk's bytes; `need_store` when they differ from the backing store.
    Loaded { data: Vec<u8>, need_store: bool },
    /// The backing store held nothing for the chunk.
    Empty,
}

/// A cached chunk as a mathematical value.
pub enum ChunkView {
    Loaded { data: Seq<u8>, need_store: bool },
    Empty,
}

impl View for Chunk {
    type V = ChunkView;

    open spec fn view(&self) -> ChunkView {
        match self {
            Chunk::Loaded { data, need_store } => ChunkView::Loaded {
                data: data@,
                need_store: *need_store,
            },
            Chunk::Empty => ChunkView::Empty,
        }
    }
}

impl Chunk {
    /// The entry for what the backing store returned for a chunk.
    pub fn from_load(loaded: Option<Vec<u8>>) -> (r: Chunk)
        ensures
            r@ == match loaded {
                Some(data) => ChunkView::Loaded { data: data@, need_store: false },
                None => ChunkView::Empty,
            },
    {
        match loaded {
            Some(data) => Chunk::Loaded { data, need_store: false },
            None => Chunk::Empty,
        }
    }
}

/// Where chunks are read from and written back to.
pub trait LoadStore {
    /// What the store holds for the `size` bytes at `offset`, or `None` when
    /// it holds nothing there. A store that does not describe itself holds
    /// nothing.
    closed spec fn content(&self, offset: u64, size: u64) -> Option<Seq<u8>> {
        None
    }

    /// Every write the store has taken, in order. A store that does not
    /// describe itself has taken none.
    closed spec fn written(&self) -> Seq<(u64, Seq<u8>)> {
        Seq::empty()
    }

    /// The `size` bytes at `offset`, or `None` when the store holds nothing there.
    fn load(&self, offset: u64, size: u64) -> (r: Option<Vec<u8>>)
        ensures
            match r {
                Some(data) => self.content(offset, size) == Some(data@),
                None => self.content(offset, size) is None,
            },
    ;

    /// Writes `data` at `offset`.
    fn store(&mut self, offset: u64, data: &[u8])
        ensures
            final(self).written() == old(self).written().push((offset, data@)),
            final(self).content(offset, data@.len() as u64) == Some(data@),
    ;
}

/// A chunk of the backing store: `chunk_size` bytes from `offset`.
#[derive(PartialEq, PartialOrd, Clone, Debug, Eq, Hash, Copy)]
pub struct ChunkIndex {
    pub offset: u64,
    pub chunk_size: u64,
}

impl ChunkIndex {
    pub fn new(offset: u64, chunk_size: u64) -> (r: ChunkIndex)
        ensures
            r.offset == offset,
            r.chunk_size == chunk_size,
    {
        ChunkIndex { offset, chunk_size }
    }

    /// The offset just past the chunk.
    pub fn end_offset(&self) -> (r: u64)
        requires
            self.offset + self.chunk_size <= u64::MAX,
        ensures
            r == self.offset + self.chunk_size,
    {
        self.offset + self.chunk_size
    }
}

/// The entries hold a chunk with this index.
pub open spec fn has_index(entries: Seq<(ChunkIndex, ChunkView)>, index: ChunkIndex) -> bool {
    exists|i: int| 0 <= i < entries.len() && (#[trigger] entries[i]).0 == index
}

/// A chunk as it is once written back.
pub open spec fn clean(c: ChunkView) -> ChunkView {
    match c {
        ChunkView::Loaded { data, .. } => ChunkView::Loaded { data, need_store: false },
        ChunkView::Empty => ChunkView::Empty,
    }
}

/// The entries once every chunk is written back.
pub open spec fn cleaned(entries: Seq<(ChunkIndex, ChunkView)>) -> Seq<(ChunkIndex, ChunkView)> {
    entries.map_values(|e: (ChunkIndex, ChunkView)| (e.0, clean(e.1)))
}

/// The writes that flushing the entries makes, in order: the offset and the
/// bytes of each chunk marked as changed.
pub open spec fn pending(entries: Seq<(ChunkIndex, ChunkView)>) -> Seq<(u64, Seq<u8>)>
    decreases entries.len(),
{
    if entries.len() == 0 {
        Seq::empty()
    } else {
        let last = entries.last();
        pending(entries.drop_last()) + match last.1 {
            ChunkView::Loaded { data, need_store } => if need_store {
                seq![(last.0.offset, data)]
            } else {
                Seq::empty()
            },
            ChunkView::Empty => Seq::empty(),
        }
    }
}

/// Writing back a second time, with nothing changed in between, makes no
/// writes and leaves the entries as they are.
pub proof fn lemma_store_all_twice(entries: Seq<(ChunkIndex, ChunkView)>)
    ensures
        cleaned(cleaned(entries)) == cleaned(entries),
        pending(cleaned(entries)) == Seq::<(u64, Seq<u8>)>::empty(),
    decreases entries.len(),
{
    assert(cleaned(cleaned(entries)) =~= cleaned(entries));
    if entries.len() > 0 {
        lemma_store_all_twice(entries.drop_last());
        assert(cleaned(entries).drop_last() =~= cleaned(entries.drop_last()));
        assert(pending(cleaned(entries)) =~= Seq::<(u64, Seq<u8>)>::empty());
    }
}

/// A chunk marked as changed is written back, at its offset and with its
/// bytes, and is no longer marked afterwards.
pub proof fn lemma_dirty_chunk_is_stored(
    entries: Seq<(ChunkIndex, ChunkView)>,
    i: int,
    data: Seq<u8>,
)
    requires
        0 <= i < entries.len(),
        entries[i].1 == (ChunkView::Loaded { data, need_store: true }),
    ensures
        pending(entries).contains((entries[i].0.offset, data)),
        cleaned(entries)[i] == (entries[i].0, ChunkView::Loaded { data, need_store: false }),
    decreases entries.len(),
{
    if i == entries.len() - 1 {
        let p = pending(entries);
        assert(p[p.len() - 1] == (entries[i].0.offset, data));
    } else {
        lemma_dirty_chunk_is_stored(entries.drop_last(), i, data);
        let k = choose|k: int|
            0 <= k < pending(entries.drop_last()).len() && pending(entries.drop_last())[k] == (
            entries[i].0.offset,
            data,
        );
        assert(pending(entries)[k] == (entries[i].0.offset, data));
    }
}

/// A cache of chunks over a backing store.
pub struct Memstore<L> where L: LoadStore {
    // A `HashMap` keyed by `ChunkIndex` (or by its two `u64` fields) cannot
    // be reasoned about here: vstd's hash-map model holds only for primitive
    // keys, and it gives no specification of `iter_mut`. The entries are kept
    // in a `Vec` instead, each index at most once.
    chunks: Vec<(ChunkIndex, Chunk)>,
    load_store: L,
}

impl<L> Memstore<L> where L: LoadStore {
    /// No index is cached twice.
    pub closed spec fn wf(&self) -> bool {
        forall|i: int, j: int|
            0 <= i < j < self.chunks@.len() ==> (#[trigger] self.chunks@[i]).0
                != (#[trigger] self.chunks@[j]).0
    }

    /// The cached chunks, in the order they were first cached. No index
    /// appears twice.
    pub closed spec fn entries(&self) -> Seq<(ChunkIndex, ChunkView)> {
        self.chunks@.map_values(|e: (ChunkIndex, Chunk)| (e.0, e.1@))
    }

    /// The backing store.
    pub closed spec fn backing(&self) -> L {
        self.load_store
    }

    /// An empty cache over `load_store`.
    pub fn new(load_store: L) -> (r: Memstore<L>)
        ensures
            r.wf(),
            r.entries() == Seq::<(ChunkIndex, ChunkView)>::empty(),
            r.backing() == load_store,
    {
        let r = Memstore { chunks: Vec::new(), load_store };
        assert(r.entries() =~= Seq::<(ChunkIndex, ChunkView)>::empty());
        r
    }

    /// The position of `index` among the entries, if it is cached.
    fn find(&self, index: &ChunkIndex) -> (r: Option<usize>)
        ensures
            match r {
                Some(i) => i < self.entries().len() && self.entries()[i as int].0 == *index,
                None => !has_index(self.entries(), *index),
            },
    {
        let mut i: usize = 0;
        while i < self.chunks.len()
            invariant
                i <= self.chunks@.len(),
                forall|j: int| 0 <= j < i ==> (#[trigger] self.chunks@[j]).0 != *index,
            decreases self.chunks@.len() - i,
        {
            let key = &self.chunks[i].0;
            if key.offset == index.offset && key.chunk_size == index.chunk_size {
                return Some(i);
            }
            i = i + 1;
        }
        assert forall|j: int| 0 <= j < self.entries().len() implies (
        #[trigger] self.entries()[j]).0 != *index by {
            assert(self.chunks@[j].0 != *index);
        }
        None
    }

    /// The chunk at `chunk_index`. On first access it is loaded from the
    /// backing store, as `Empty` when the store holds nothing there, and
    /// cached; later accesses return the cached chunk without loading.
    pub fn get(&mut self, chunk_index: &ChunkIndex) -> (r: &Chunk)
        requires
            old(self).wf(),
        ensures
            final(self).wf(),
            forall|i: int|
                0 <= i < old(self).entries().len() && (#[trigger] old(self).entries()[i]).0
                    == *chunk_index ==> final(self).entries() == old(self).entries() && r@ == old(
                    self,
                ).entries()[i].1,
            !has_index(old(self).entries(), *chunk_index) ==> final(self).entries() == old(
                self,
            ).entries().push((*chunk_index, r@)),
            !has_index(old(self).entries(), *chunk_index) ==> r@ == match old(
                self,
            ).backing().content(chunk_index.offset, chunk_index.chunk_size) {
                Some(data) => ChunkView::Loaded { data, need_store: false },
                None => ChunkView::Empty,
            },
            final(self).backing() == old(self).backing(),
    {
        match self.find(chunk_index) {
            Some(i) => {
                assert(self.entries()[i as int].1 == self.chunks@[i as int].1@);
                &self.chunks[i].1
            },
            None => {
                let loaded = self.load_store.load(chunk_index.offset, chunk_index.chunk_size);
                let chunk = Chunk::from_load(loaded);
                let ghost before = self.entries();
                proof {
                    assert forall|j: int| 0 <= j < self.chunks@.len() implies (#[trigger] self.chunks@[j]).0 != *chunk_index by {
                        assert(before[j].0 == self.chunks@[j].0);
                    }
                }
                self.chunks.push((*chunk_index, chunk));
                let last = self.chunks.len() - 1;
                assert(self.entries() =~= before.push((*chunk_index, self.chunks@[last as int].1@)));
                &self.chunks[last].1
            },
        }
    }

    /// Caches `chunk` at `index`, in place of what was cached there.
    pub fn insert(&mut self, index: ChunkIndex, chunk: Chunk)
        requires
            old(self).wf(),
        ensures
            final(self).wf(),
            forall|i: int|
                0 <= i < old(self).entries().len() && (#[trigger] old(self).entries()[i]).0
                    == index ==> final(self).entries() == old(self).entries().update(
                    i,
                    (index, chunk@),
                ),
            !has_index(old(self).entries(), index) ==> final(self).entries() == old(
                self,
            ).entries().push((index, chunk@)),
            final(self).backing() == old(self).backing(),
    {
        let ghost before = self.entries();
        let ghost new_chunk = chunk@;
        match self.find(&index) {
            Some(i) => {
                self.chunks.set(i, (index, chunk));
                assert(self.entries() =~= before.update(i as int, (index, new_chunk)));
            },
            None => {
                proof {
                    assert forall|j: int| 0 <= j < self.chunks@.len() implies (#[trigger] self.chunks@[j]).0 != index by {
                        assert(before[j].0 == self.chunks@[j].0);
                    }
                }
                self.chunks.push((index, chunk));
                assert(self.entries() =~= before.push((index, new_chunk)));
            },
        }
    }

    /// Writes every chunk marked as changed back to the backing store, in
    /// the order of the entries, and clears its mark. Other chunks are left
    /// alone.
    pub fn store_all(&mut self)
        requires
            old(self).wf(),
        ensures
            final(self).wf(),
            final(self).entries() == cleaned(old(self).entries()),
            final(self).backing().written() == old(self).backing().written() + pending(
                old(self).entries(),
            ),
    {
        let ghost e0 = self.entries();
        let ghost w0 = self.load_store.written();
        let mut i: usize = 0;
        while i < self.chunks.len()
            invariant
                self.wf(),
                i <= self.chunks@.len(),
                self.chunks@.len() == e0.len(),
                self.entries() == cleaned(e0.take(i as int)) + e0.skip(i as int),
                self.load_store.written() == w0 + pending(e0.take(i as int)),
            decreases self.chunks@.len() - i,
        {
            let ghost before = self.entries();
            let offset = self.chunks[i].0.offset;
            assert(e0.take(i + 1).drop_last() =~= e0.take(i as int));
            assert(before[i as int] == e0[i as int]);
            match &mut self.chunks[i].1 {
                Chunk::Loaded { data, need_store } => {
                    if *need_store {
                        self.load_store.store(offset, data.as_slice());
                        *need_store = false;
                    }
                },
                Chunk::Empty => {},
            }
            assert(self.entries() =~= before.update(i as int, (before[i as int].0, clean(before[i as int].1))));
            i = i + 1;
            assert(self.entries() =~= cleaned(e0.take(i as int)) + e0.skip(i as int));
            assert(self.load_store.written() =~= w0 + pending(e0.take(i as int)));
        }
        assert(e0.take(i as int) =~= e0);
        assert(self.entries() =~= cleaned(e0));
    }

    /// The backing store.
    pub fn load_store(&self) -> (r: &L)
        ensures
            *r == self.backing(),
    {
        &self.load_store
    }
}

} // verus!
