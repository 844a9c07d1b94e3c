//! A persistent ternary tree over bytes.
//!
//! Every edit returns a new root; the subtrees that the edit does not touch are
//! shared with the previous root through reference counting.

use std::ops::Range;
use std::sync::Arc;
use vstd::prelude::*;

verus! {

/// `s` with `d` put in at position `p`.
pub open spec fn spliced_in(s: Seq<u8>, p: int, d: Seq<u8>) -> Seq<u8> {
    s.subrange(0, p) + d + s.subrange(p, s.len() as int)
}

/// `s` without the bytes at positions `start..end`.
pub open spec fn spliced_out(s: Seq<u8>, start: int, end: int) -> Seq<u8> {
    s.subrange(0, start) + s.subrange(end, s.len() as int)
}

/// Whether `start..end` may be removed from a sequence of `len` bytes: a
/// range that starts inside the sequence and ends within it, or, on an empty
/// sequence, any empty range (`end <= start`).
pub open spec fn removable(len: nat, start: int, end: int) -> bool {
    if len == 0 {
        end <= start
    } else {
        start <= end && start < len && end <= len
    }
}

/// `x` brought into `[lo, hi]`.
pub open spec fn clamp(x: int, lo: int, hi: int) -> int {
    if x < lo {
        lo
    } else if x > hi {
        hi
    } else {
        x
    }
}

/// `2` to the power `e`.
pub open spec fn two_to(e: nat) -> nat
    decreases e,
{
    if e == 0 {
        1
    } else {
        2 * two_to((e - 1) as nat)
    }
}

/// A tree whose tallest child has height `hc` and covers `c` of the `len`
/// bytes, at most half of them rounded up, keeps the bound of `from_slice`.
proof fn lemma_height_bound_step(hc: nat, c: nat, len: nat, n: nat)
    requires
        hc >= 1,
        two_to((hc - 1) as nat) * n < c,
        2 * c <= len + 1,
    ensures
        two_to(hc) * n < len,
{
    let p = two_to((hc - 1) as nat);
    assert(two_to(hc) == 2 * p);
    assert(two_to(hc) * n == 2 * (p * n)) by (nonlinear_arith)
        requires
            two_to(hc) == 2 * p,
    ;
}

/// Removing `s..e` from `a + b + c` removes from each part the piece of the
/// range that falls on it.
proof fn lemma_splice_out_parts(a: Seq<u8>, b: Seq<u8>, c: Seq<u8>, s: int, e: int)
    requires
        0 <= s <= e <= a.len() + b.len() + c.len(),
    ensures
        spliced_out(a + b + c, s, e) == spliced_out(
            a,
            clamp(s, 0, a.len() as int),
            clamp(e, 0, a.len() as int),
        ) + spliced_out(
            b,
            clamp(s - a.len(), 0, b.len() as int),
            clamp(e - a.len(), 0, b.len() as int),
        ) + spliced_out(
            c,
            clamp(s - a.len() - b.len(), 0, c.len() as int),
            clamp(e - a.len() - b.len(), 0, c.len() as int),
        ),
{
    let whole = a + b + c;
    let la = a.len() as int;
    let lb = b.len() as int;
    let lc = c.len() as int;
    let pa = spliced_out(a, clamp(s, 0, la), clamp(e, 0, la));
    let pb = spliced_out(b, clamp(s - la, 0, lb), clamp(e - la, 0, lb));
    let pc = spliced_out(c, clamp(s - la - lb, 0, lc), clamp(e - la - lb, 0, lc));
    let lhs = spliced_out(whole, s, e);
    let rhs = pa + pb + pc;
    assert(lhs.len() == rhs.len());
    assert forall|i: int| 0 <= i < lhs.len() implies lhs[i] == rhs[i] by {
        if i < s {
            assert(lhs[i] == whole[i]);
        } else {
            assert(lhs[i] == whole[i + (e - s)]);
        }
    }
    assert(lhs =~= rhs);
}

/// Putting a run into a sequence changes it exactly when the run is not empty.
pub proof fn lemma_insert_changes_iff_nonempty(s: Seq<u8>, p: int, d: Seq<u8>)
    requires
        0 <= p <= s.len(),
    ensures
        (spliced_in(s, p, d) == s) <==> d.len() == 0,
{
    if d.len() == 0 {
        assert(spliced_in(s, p, d) =~= s);
    } else {
        assert(spliced_in(s, p, d).len() != s.len());
    }
}

/// Taking a range out of a sequence changes it exactly when the range is not
/// empty.
pub proof fn lemma_remove_changes_iff_nonempty(s: Seq<u8>, start: int, end: int)
    requires
        0 <= start <= end <= s.len(),
    ensures
        (spliced_out(s, start, end) == s) <==> start == end,
{
    if start == end {
        assert(spliced_out(s, start, end) =~= s);
    } else {
        assert(spliced_out(s, start, end).len() != s.len());
    }
}

/// A node of the tree. `N` is the widest leaf that `from_slice` builds.
#[derive(Debug)]
pub enum ChunkTree<const N: usize> {
    Leaf { data: Vec<u8> },
    Internal {
        left: Arc<ChunkTree<N>>,
        mid: Arc<ChunkTree<N>>,
        right: Arc<ChunkTree<N>>,
        size: usize,
    },
}

impl<const N: usize> View for ChunkTree<N> {
    type V = Seq<u8>;

    open spec fn view(&self) -> Seq<u8> {
        self.bytes()
    }
}

impl<const N: usize> ChunkTree<N> {
    /// The bytes of the tree, read in order: left, mid, right.
    pub open spec fn bytes(&self) -> Seq<u8>
        decreases self,
    {
        match self {
            ChunkTree::Leaf { data } => data@,
            ChunkTree::Internal { left, mid, right, .. } => left.bytes() + mid.bytes() + right.bytes(),
        }
    }

    /// Every internal node caches the length of its content.
    pub open spec fn wf(&self) -> bool
        decreases self,
    {
        match self {
            ChunkTree::Leaf { .. } => true,
            ChunkTree::Internal { left, mid, right, size } => {
                &&& left.wf()
                &&& mid.wf()
                &&& right.wf()
                &&& *size as int == left.bytes().len() + mid.bytes().len() + right.bytes().len()
            },
        }
    }

    /// The number of levels below the root: 0 for a leaf.
    pub open spec fn height(&self) -> nat
        decreases self,
    {
        match self {
            ChunkTree::Leaf { .. } => 0,
            ChunkTree::Internal { left, mid, right, .. } => {
                let l = left.height();
                let m = mid.height();
                let r = right.height();
                1 + if l >= m && l >= r {
                    l
                } else if m >= r {
                    m
                } else {
                    r
                }
            },
        }
    }

    /// Every leaf holds at most `n` bytes.
    pub open spec fn leaves_at_most(&self, n: nat) -> bool
        decreases self,
    {
        match self {
            ChunkTree::Leaf { data } => data@.len() <= n,
            ChunkTree::Internal { left, mid, right, .. } => {
                &&& left.leaves_at_most(n)
                &&& mid.leaves_at_most(n)
                &&& right.leaves_at_most(n)
            },
        }
    }

    fn empty_leaf() -> (r: Arc<ChunkTree<N>>)
        ensures
            r.wf(),
            r@ == Seq::<u8>::empty(),
            r.leaves_at_most(N as nat),
            r.height() == 0,
    {
        let r = Arc::new(ChunkTree::Leaf { data: Vec::new() });
        assert(r@ =~= Seq::<u8>::empty());
        r
    }

    /// Builds a tree over `data` by halving it until each part fits in a leaf
    /// of at most `N` bytes. The tree is a leaf, or has height `h` with
    /// `2^(h-1) * N < data.len()`: its depth is logarithmic in `data.len() / N`.
    pub fn from_slice(data: &[u8]) -> (r: Arc<ChunkTree<N>>)
        requires
            N > 0,
        ensures
            r.wf(),
            r@ == data@,
            r.leaves_at_most(N as nat),
            r.height() == 0 || two_to((r.height() - 1) as nat) * N < data@.len(),
        decreases data@.len(),
    {
        if data.len() <= N {
            return Arc::new(ChunkTree::Leaf { data: vstd::slice::slice_to_vec(data) });
        }
        let mid_index = data.len() / 2;
        let front = &data[0..mid_index];
        let back = &data[mid_index..data.len()];
        let left = Self::from_slice(front);
        let right = Self::from_slice(back);
        let size = data.len();
        let node = ChunkTree::Internal { left, mid: Self::empty_leaf(), right, size };
        assert(node@ =~= data@);
        proof {
            let len = data@.len();
            if left.height() >= right.height() && left.height() >= 1 {
                lemma_height_bound_step(left.height(), front@.len(), len, N as nat);
            } else if right.height() >= 1 {
                lemma_height_bound_step(right.height(), back@.len(), len, N as nat);
            }
        }
        Arc::new(node)
    }

    /// An empty tree.
    pub fn new() -> (r: Arc<ChunkTree<N>>)
        requires
            N > 0,
        ensures
            r.wf(),
            r@ == Seq::<u8>::empty(),
    {
        Self::from_slice(&[])
    }

    pub fn is_empty(&self) -> (r: bool)
        requires
            self.wf(),
        ensures
            r == (self@.len() == 0),
    {
        match self {
            ChunkTree::Leaf { data } => data.len() == 0,
            ChunkTree::Internal { size, .. } => *size == 0,
        }
    }

    /// Inserts `data` as one run at `index`. The result shares every subtree
    /// off the path to `index` with `self`, which stays as it was.
    pub fn insert(&self, index: usize, data: &[u8]) -> (r: Arc<ChunkTree<N>>)
        requires
            N > 0,
            self.wf(),
            index <= self@.len(),
            self@.len() + data@.len() <= usize::MAX,
        ensures
            r.wf(),
            r@ == spliced_in(self@, index as int, data@),
        decreases self,
    {
        match self {
            ChunkTree::Leaf { data: leaf_data } => {
                let leaf = leaf_data.as_slice();
                let left = Self::from_slice(&leaf[0..index]);
                let mid = Self::from_slice(data);
                let right = Self::from_slice(&leaf[index..leaf.len()]);
                let node = ChunkTree::Internal { left, mid, right, size: leaf.len() + data.len() };
                assert(node@ =~= spliced_in(self@, index as int, data@));
                Arc::new(node)
            },
            ChunkTree::Internal { left, mid, right, .. } => {
                let left_size = left.len();
                let mid_size = mid.len();
                if index <= left_size {
                    let new_left = left.insert(index, data);
                    let new_size = new_left.len() + mid_size + right.len();
                    let node = ChunkTree::Internal {
                        left: new_left,
                        mid: mid.clone(),
                        right: right.clone(),
                        size: new_size,
                    };
                    assert(node@ =~= spliced_in(self@, index as int, data@));
                    Arc::new(node)
                } else if index <= left_size + mid_size {
                    let new_mid = mid.insert(index - left_size, data);
                    let new_size = left_size + new_mid.len() + right.len();
                    let node = ChunkTree::Internal {
                        left: left.clone(),
                        mid: new_mid,
                        right: right.clone(),
                        size: new_size,
                    };
                    assert(node@ =~= spliced_in(self@, index as int, data@));
                    Arc::new(node)
                } else {
                    let new_right = right.insert(index - left_size - mid_size, data);
                    let new_size = left_size + mid_size + new_right.len();
                    let node = ChunkTree::Internal {
                        left: left.clone(),
                        mid: mid.clone(),
                        right: new_right,
                        size: new_size,
                    };
                    assert(node@ =~= spliced_in(self@, index as int, data@));
                    Arc::new(node)
                }
            },
        }
    }

    /// `range` moved left by `amount`, each end stopping at zero.
    fn range_shift_left(range: &Range<usize>, amount: usize) -> (r: Range<usize>)
        ensures
            r.start == clamp(range.start - amount, 0, range.start as int),
            r.end == clamp(range.end - amount, 0, range.end as int),
    {
        range.start.saturating_sub(amount)..range.end.saturating_sub(amount)
    }

    /// `range` with each end capped at `max`.
    fn range_cap(range: &Range<usize>, max: usize) -> (r: Range<usize>)
        ensures
            r.start == if range.start <= max { range.start } else { max },
            r.end == if range.end <= max { range.end } else { max },
    {
        range.start.min(max)..range.end.min(max)
    }

    /// Removes the bytes at positions `range`. An empty range on an empty tree
    /// gives an empty tree. Children that the range does not reach are shared.
    pub fn remove(&self, range: Range<usize>) -> (r: Arc<ChunkTree<N>>)
        requires
            N > 0,
            self.wf(),
            removable(self@.len(), range.start as int, range.end as int),
        ensures
            r.wf(),
            r@ == if self@.len() == 0 {
                self@
            } else {
                spliced_out(self@, range.start as int, range.end as int)
            },
        decreases self,
    {
        if self.len() == 0 {
            return Self::empty_leaf();
        }
        assert(range.start <= range.end && range.start < self@.len() && range.end <= self@.len());
        match self {
            ChunkTree::Leaf { data } => {
                let bytes = data.as_slice();
                let node = ChunkTree::Internal {
                    left: Self::from_slice(&bytes[0..range.start]),
                    mid: Self::empty_leaf(),
                    right: Self::from_slice(&bytes[range.end..bytes.len()]),
                    size: bytes.len() - (range.end - range.start),
                };
                assert(node@ =~= spliced_out(self@, range.start as int, range.end as int));
                Arc::new(node)
            },
            ChunkTree::Internal { left, mid, right, .. } => {
                let left_size = left.len();
                let mid_size = mid.len();
                let right_size = right.len();

                let ghost s = range.start as int;
                let ghost e = range.end as int;
                let ghost la = left@.len() as int;
                let ghost lm = mid@.len() as int;
                let ghost lr = right@.len() as int;

                let new_left = if range.start < left_size {
                    left.remove(Self::range_cap(&range, left_size))
                } else {
                    assert(left@.subrange(0, la) + left@.subrange(la, la) =~= left@);
                    left.clone()
                };
                assert(new_left@ == spliced_out(left@, clamp(s, 0, la), clamp(e, 0, la)));

                let mid_range = Self::range_shift_left(&range, left_size);
                let new_mid = if mid_range.start < mid_size {
                    mid.remove(Self::range_cap(&mid_range, mid_size))
                } else {
                    assert(mid@.subrange(0, lm) + mid@.subrange(lm, lm) =~= mid@);
                    mid.clone()
                };
                assert(new_mid@ == spliced_out(mid@, clamp(s - la, 0, lm), clamp(e - la, 0, lm)));

                let right_range = Self::range_shift_left(&range, left_size + mid_size);
                let new_right = if right_range.start < right_size {
                    right.remove(Self::range_cap(&right_range, right_size))
                } else {
                    assert(right@.subrange(0, lr) + right@.subrange(lr, lr) =~= right@);
                    right.clone()
                };
                assert(new_right@ == spliced_out(
                    right@,
                    clamp(s - la - lm, 0, lr),
                    clamp(e - la - lm, 0, lr),
                ));
                proof {
                    lemma_splice_out_parts(left@, mid@, right@, s, e);
                }

                let new_size = new_left.len() + new_mid.len() + new_right.len();
                let node = ChunkTree::Internal {
                    left: new_left,
                    mid: new_mid,
                    right: new_right,
                    size: new_size,
                };
                assert(node@ =~= spliced_out(self@, range.start as int, range.end as int));
                Arc::new(node)
            },
        }
    }

    /// The byte at position `index`, found by walking down from the root.
    pub fn byte_at(&self, index: usize) -> (r: u8)
        requires
            self.wf(),
            index < self@.len(),
        ensures
            r == self@[index as int],
        decreases self,
    {
        match self {
            ChunkTree::Leaf { data } => data[index],
            ChunkTree::Internal { left, mid, right, .. } => {
                let left_size = left.len();
                let mid_size = mid.len();
                if index < left_size {
                    left.byte_at(index)
                } else if index < left_size + mid_size {
                    mid.byte_at(index - left_size)
                } else {
                    right.byte_at(index - left_size - mid_size)
                }
            },
        }
    }

    /// All the bytes of the tree, in order.
    pub fn collect_bytes(&self) -> (r: Vec<u8>)
        requires
            self.wf(),
        ensures
            r@ == self@,
    {
        let mut v = Vec::new();
        self.collect_bytes_into(&mut v);
        assert(v@ =~= self@);
        v
    }

    /// Appends the bytes of the tree to `output`.
    pub fn collect_bytes_into(&self, output: &mut Vec<u8>)
        requires
            self.wf(),
        ensures
            final(output)@ == old(output)@ + self@,
        decreases self,
    {
        match self {
            ChunkTree::Leaf { data } => output.extend_from_slice(data.as_slice()),
            ChunkTree::Internal { left, mid, right, .. } => {
                left.collect_bytes_into(output);
                mid.collect_bytes_into(output);
                right.collect_bytes_into(output);
                assert(output@ =~= old(output)@ + self@);
            },
        }
    }

    pub fn len(&self) -> (r: usize)
        requires
            self.wf(),
        ensures
            r == self@.len(),
    {
        match self {
            ChunkTree::Leaf { data } => data.len(),
            ChunkTree::Internal { size, .. } => *size,
        }
    }
}

} // verus!
