//! An editable byte sequence over a persistent tree, with forward cursors.
//!
//! Edits replace the root; a cursor holds the root it was made from, so it
//! keeps reading the content as it was when the cursor was made.

use crate::chunk_tree::{removable, spliced_in, spliced_out, ChunkTree};
use std::ops::Range;
use std::sync::Arc;
use vstd::prelude::*;

verus! {

/// Why an edit was refused.
#[derive(Debug, Clone, Copy, PartialEq, Eq)]
pub enum BufferError {
    /// The offset or range does not lie within the buffer.
    OutOfBounds,
    /// The content would grow past what a `usize` can count.
    TooLarge,
}

/// A byte sequence that can be edited at any offset.
pub struct VirtualBuffer<const N: usize> {
    root: Arc<ChunkTree<N>>,
}

impl<const N: usize> View for VirtualBuffer<N> {
    type V = Seq<u8>;

    closed spec fn view(&self) -> Seq<u8> {
        self.root@
    }
}

impl<const N: usize> VirtualBuffer<N> {
    #[verifier::type_invariant]
    spec fn inv(self) -> bool {
        &&& N > 0
        &&& self.root.wf()
    }

    /// An empty buffer.
    pub fn new() -> (r: Self)
        requires
            N > 0,
        ensures
            r@ == Seq::<u8>::empty(),
    {
        VirtualBuffer { root: ChunkTree::new() }
    }

    /// A buffer holding a copy of `data`.
    pub fn from_slice(data: &[u8]) -> (r: Self)
        requires
            N > 0,
        ensures
            r@ == data@,
    {
        VirtualBuffer { root: ChunkTree::from_slice(data) }
    }

    pub fn len(&self) -> (r: usize)
        ensures
            r == self@.len(),
    {
        proof {
            use_type_invariant(self);
        }
        self.root.len()
    }

    pub fn is_empty(&self) -> (r: bool)
        ensures
            r == (self@.len() == 0),
    {
        proof {
            use_type_invariant(self);
        }
        self.root.is_empty()
    }

    /// Inserts `bytes` at `offset`. Fails, leaving the buffer as it was, when
    /// `offset` is past the end.
    pub fn insert(&mut self, offset: usize, bytes: &[u8]) -> (r: Result<(), BufferError>)
        ensures
            offset > old(self)@.len() ==> r == Err::<(), BufferError>(BufferError::OutOfBounds)
                && final(self)@ == old(self)@,
            offset <= old(self)@.len() && old(self)@.len() + bytes@.len() > usize::MAX ==> r
                == Err::<(), BufferError>(BufferError::TooLarge) && final(self)@ == old(self)@,
            offset <= old(self)@.len() && old(self)@.len() + bytes@.len() <= usize::MAX ==> r
                == Ok::<(), BufferError>(()) && final(self)@ == spliced_in(
                old(self)@,
                offset as int,
                bytes@,
            ),
    {
        proof {
            use_type_invariant(&*self);
        }
        let len = self.root.len();
        if offset > len {
            return Err(BufferError::OutOfBounds);
        }
        if bytes.len() > usize::MAX - len {
            return Err(BufferError::TooLarge);
        }
        self.root = self.root.insert(offset, bytes);
        Ok(())
    }

    /// Removes the bytes at positions `range`. Fails, leaving the buffer as it
    /// was, unless the range starts inside the buffer and ends within it; an
    /// empty range on an empty buffer succeeds and changes nothing.
    pub fn remove(&mut self, range: Range<usize>) -> (r: Result<(), BufferError>)
        ensures
            removable(old(self)@.len(), range.start as int, range.end as int) ==> r == Ok::<
                (),
                BufferError,
            >(()) && final(self)@ == if old(self)@.len() == 0 {
                old(self)@
            } else {
                spliced_out(old(self)@, range.start as int, range.end as int)
            },
            !removable(old(self)@.len(), range.start as int, range.end as int) ==> r == Err::<
                (),
                BufferError,
            >(BufferError::OutOfBounds) && final(self)@ == old(self)@,
    {
        proof {
            use_type_invariant(&*self);
        }
        let len = self.root.len();
        let fits = if len == 0 {
            range.end <= range.start
        } else {
            range.start <= range.end && range.start < len && range.end <= len
        };
        if !fits {
            return Err(BufferError::OutOfBounds);
        }
        self.root = self.root.remove(range);
        Ok(())
    }

    /// A cursor that reads the current content forward from `offset`.
    pub fn iter_at(&self, offset: usize) -> (r: ByteIterator<N>)
        ensures
            r.source() == self@,
            r.offset() == offset,
    {
        proof {
            use_type_invariant(self);
        }
        ByteIterator { root: self.root.clone(), pos: offset }
    }

    /// A copy of the whole content.
    pub fn collect_bytes(&self) -> (r: Vec<u8>)
        ensures
            r@ == self@,
    {
        proof {
            use_type_invariant(self);
        }
        self.root.collect_bytes()
    }
}

/// A forward cursor over the content of a buffer as it was when the cursor
/// was made.
pub struct ByteIterator<const N: usize> {
    root: Arc<ChunkTree<N>>,
    pos: usize,
}

impl<const N: usize> ByteIterator<N> {
    #[verifier::type_invariant]
    spec fn inv(self) -> bool {
        self.root.wf()
    }

    /// The bytes the cursor reads from.
    pub closed spec fn source(&self) -> Seq<u8> {
        self.root@
    }

    /// The position of the next byte.
    pub closed spec fn offset(&self) -> nat {
        self.pos as nat
    }

    /// The byte at the cursor, moving past it; `None` at the end.
    pub fn next(&mut self) -> (r: Option<u8>)
        ensures
            final(self).source() == old(self).source(),
            old(self).offset() < old(self).source().len() ==> r == Some(
                old(self).source()[old(self).offset() as int],
            ) && final(self).offset() == old(self).offset() + 1,
            old(self).offset() >= old(self).source().len() ==> r is None && final(self).offset()
                == old(self).offset(),
    {
        proof {
            use_type_invariant(&*self);
        }
        if self.pos < self.root.len() {
            let byte = self.root.byte_at(self.pos);
            self.pos = self.pos + 1;
            Some(byte)
        } else {
            None
        }
    }
}

} // verus!
