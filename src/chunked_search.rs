//! Overlapping windows over a byte cursor, for searching content of any size
//! without reading all of it at once.
//!
//! Each window after the first starts with the last `overlap` bytes of the
//! window before it, followed by up to `chunk_size` new bytes. `valid_start`
//! marks where the bytes not seen before begin: a searcher that scans the
//! whole window but accepts a match only when it ends after `valid_start`
//! reports each occurrence of a pattern of length `overlap + 1` exactly once,
//! as long as `chunk_size` is at least 1.

use crate::virtual_buffer::ByteIterator;
use vstd::prelude::*;

verus! {

/// One window of the content.
#[derive(Debug)]
pub struct ChunkInfo {
    /// The bytes of the window, including those carried over from the previous one.
    pub buffer: Vec<u8>,
    /// Where the window starts in the content.
    pub absolute_pos: usize,
    /// Offset in `buffer` up to which the previous window already covered the bytes.
    pub valid_start: usize,
}

/// A window as a mathematical value.
pub struct Window {
    pub bytes: Seq<u8>,
    pub absolute_pos: int,
    pub valid_start: int,
}

impl View for ChunkInfo {
    type V = Window;

    open spec fn view(&self) -> Window {
        Window {
            bytes: self.buffer@,
            absolute_pos: self.absolute_pos as int,
            valid_start: self.valid_start as int,
        }
    }
}

/// The state of the window iterator as a mathematical value. Positions are
/// positions in the content; `stream` holds the bytes the cursor yields from
/// `start` on.
pub struct Scan {
    pub stream: Seq<u8>,
    pub start: int,
    pub end: int,
    pub chunk_size: int,
    pub overlap: int,
    pub read: int,
    pub buf_start: int,
    pub first: bool,
}

pub open spec fn min(a: int, b: int) -> int {
    if a <= b {
        a
    } else {
        b
    }
}

pub open spec fn max(a: int, b: int) -> int {
    if a >= b {
        a
    } else {
        b
    }
}

/// How far reading can go: to `end`, or to where the cursor runs out.
pub open spec fn limit(s: Scan) -> int {
    if s.end <= s.start {
        s.start
    } else {
        min(s.end, s.start + s.stream.len())
    }
}

/// The scan as it stands before the first window.
pub open spec fn initial_scan(
    stream: Seq<u8>,
    start: int,
    end: int,
    chunk_size: int,
    overlap: int,
) -> Scan {
    Scan { stream, start, end, chunk_size, overlap, read: start, buf_start: start, first: true }
}

/// Filling the buffer for the next window: whether new bytes came, and the
/// scan after it. The first window takes up to `chunk_size` bytes; a later one
/// keeps the last `overlap` bytes and adds up to `chunk_size` more. Once a fill
/// brings nothing, no later fill brings anything.
pub open spec fn fill(s: Scan) -> (bool, Scan) {
    if s.first {
        let r = min(s.read + s.chunk_size, limit(s));
        (r > s.read, Scan { read: r, first: false, ..s })
    } else if s.read >= s.end || s.read == s.buf_start {
        (false, s)
    } else {
        let keep = min(s.read - s.buf_start, s.overlap);
        let b = s.read - keep;
        let r = min(s.read + (s.overlap + s.chunk_size - keep), limit(s));
        (r > s.read, Scan { read: r, buf_start: b, ..s })
    }
}

/// The window shown after a fill that took `before` to `after`.
pub open spec fn window_of(before: Scan, after: Scan) -> Window {
    Window {
        bytes: after.stream.subrange(after.buf_start - after.start, after.read - after.start),
        absolute_pos: after.buf_start,
        valid_start: if before.first {
            0
        } else {
            min(after.overlap, after.read - after.buf_start)
        },
    }
}

/// One call of `next`: the window it yields, if any, and the scan after it.
pub open spec fn step(s: Scan) -> (Option<Window>, Scan) {
    let (grew, t) = fill(s);
    if grew {
        (Some(window_of(s, t)), t)
    } else {
        (None, t)
    }
}

pub open spec fn window_opt(c: Option<ChunkInfo>) -> Option<Window> {
    match c {
        Some(c) => Some(c@),
        None => None,
    }
}

/// The bytes a cursor has yet to yield.
pub open spec fn rest_of<const N: usize>(it: ByteIterator<N>) -> Seq<u8> {
    if it.offset() <= it.source().len() {
        it.source().subrange(it.offset() as int, it.source().len() as int)
    } else {
        Seq::empty()
    }
}

/// Every window that calls of `next` yield from scan `s` on, up to the first
/// `None`; after it, every call yields `None`.
pub open spec fn windows(s: Scan) -> Seq<Window>
    decreases limit(s) - s.read + if s.first { 1int } else { 0int },
{
    let (w, t) = step(s);
    match w {
        Some(w) => seq![w] + windows(t),
        None => Seq::empty(),
    }
}

/// The bytes the windows of a scan cover, from its start on.
pub open spec fn scanned(s: Scan) -> Seq<u8> {
    s.stream.subrange(0, limit(s) - s.start)
}

/// `pattern` occurs in `bytes` at offset `p`.
pub open spec fn occurs_at(bytes: Seq<u8>, pattern: Seq<u8>, p: int) -> bool {
    &&& 0 <= p
    &&& p + pattern.len() <= bytes.len()
    &&& bytes.subrange(p, p + pattern.len()) == pattern
}

/// A searcher takes the occurrence of `pattern` at offset `q` of window `w`:
/// it is in the window and ends past `valid_start`.
pub open spec fn accepts(w: Window, pattern: Seq<u8>, q: int) -> bool {
    &&& occurs_at(w.bytes, pattern, q)
    &&& q + pattern.len() > w.valid_start
}

/// The windows of a search for `pattern` with the overlap it needs.
pub open spec fn search_windows(
    stream: Seq<u8>,
    start: int,
    end: int,
    chunk_size: int,
    pattern: Seq<u8>,
) -> Seq<Window> {
    windows(initial_scan(stream, start, end, chunk_size, pattern.len() - 1))
}

/// What holds of every scan that `new` and `next` can reach.
spec fn reachable(s: Scan) -> bool {
    &&& s.chunk_size >= 0
    &&& s.overlap >= 0
    &&& s.start <= s.buf_start <= s.read <= limit(s)
    &&& s.first ==> s.buf_start == s.read
}

/// What holds of such a scan after its first window, when each window adds
/// at least one byte.
spec fn settled(s: Scan) -> bool {
    &&& reachable(s)
    &&& !s.first
    &&& s.chunk_size >= 1
    &&& s.read - s.buf_start >= s.overlap || s.buf_start == s.start
    &&& s.buf_start < s.read || s.read == limit(s)
}

/// The end of the last occurrence that the windows so far have taken.
spec fn frontier(s: Scan) -> int {
    max(s.read, s.start + s.overlap)
}

/// Each window is the piece of the scanned bytes at its position.
proof fn lemma_windows_are_pieces(s: Scan)
    requires
        reachable(s),
    ensures
        forall|i: int|
            0 <= i < windows(s).len() ==> {
                let w = #[trigger] windows(s)[i];
                &&& s.start <= w.absolute_pos
                &&& w.absolute_pos + w.bytes.len() <= limit(s)
                &&& w.bytes == s.stream.subrange(
                    w.absolute_pos - s.start,
                    w.absolute_pos - s.start + w.bytes.len(),
                )
            },
    decreases limit(s) - s.read + if s.first { 1int } else { 0int },
{
    let (w, t) = step(s);
    if w is Some {
        assert(reachable(t));
        lemma_windows_are_pieces(t);
        assert forall|i: int| 0 <= i < windows(s).len() implies {
            let w = #[trigger] windows(s)[i];
            &&& s.start <= w.absolute_pos
            &&& w.absolute_pos + w.bytes.len() <= limit(s)
            &&& w.bytes == s.stream.subrange(
                w.absolute_pos - s.start,
                w.absolute_pos - s.start + w.bytes.len(),
            )
        } by {
            if i > 0 {
                assert(windows(s)[i] == windows(t)[i - 1]);
            }
        }
    }
}

/// After the first window, the windows take exactly the occurrences that end
/// past the frontier, each once.
proof fn lemma_settled_windows(s: Scan, pattern: Seq<u8>, p: int)
    requires
        settled(s),
        s.overlap == pattern.len() - 1,
        occurs_at(s.stream, pattern, p),
        s.start + p + pattern.len() <= limit(s),
    ensures
        s.start + p + pattern.len() > frontier(s) ==> exists|i: int|
            0 <= i < windows(s).len() && #[trigger] accepts(
                windows(s)[i],
                pattern,
                s.start + p - windows(s)[i].absolute_pos,
            ),
        forall|i: int|
            0 <= i < windows(s).len() && #[trigger] accepts(
                windows(s)[i],
                pattern,
                s.start + p - windows(s)[i].absolute_pos,
            ) ==> s.start + p + pattern.len() > frontier(s),
        forall|i: int, j: int|
            0 <= i < windows(s).len() && 0 <= j < windows(s).len() && #[trigger] accepts(
                windows(s)[i],
                pattern,
                s.start + p - windows(s)[i].absolute_pos,
            ) && #[trigger] accepts(
                windows(s)[j],
                pattern,
                s.start + p - windows(s)[j].absolute_pos,
            ) ==> i == j,
    decreases limit(s) - s.read,
{
    let e = s.start + p + pattern.len();
    let (w, t) = step(s);
    match w {
        Some(w) => {
            assert(settled(t));
            assert(frontier(s) <= frontier(t));
            let q = s.start + p - w.absolute_pos;
            assert(accepts(w, pattern, q) <==> frontier(s) < e <= frontier(t)) by {
                if frontier(s) < e <= frontier(t) {
                    assert(w.bytes.subrange(q, q + pattern.len()) =~= s.stream.subrange(
                        p,
                        p + pattern.len(),
                    ));
                }
            }
            lemma_settled_windows(t, pattern, p);
            let ws = windows(s);
            assert(ws[0] == w);
            assert forall|i: int| 0 < i < ws.len() implies ws[i] == windows(t)[i - 1] by {}
            if e > frontier(s) {
                if e <= frontier(t) {
                    assert(accepts(ws[0], pattern, s.start + p - ws[0].absolute_pos));
                } else {
                    let k = choose|k: int|
                        0 <= k < windows(t).len() && #[trigger] accepts(
                            windows(t)[k],
                            pattern,
                            s.start + p - windows(t)[k].absolute_pos,
                        );
                    assert(ws[k + 1] == windows(t)[k]);
                    assert(accepts(ws[k + 1], pattern, s.start + p - ws[k + 1].absolute_pos));
                }
            }
            assert forall|i: int|
                0 <= i < ws.len() && #[trigger] accepts(
                    ws[i],
                    pattern,
                    s.start + p - ws[i].absolute_pos,
                ) implies e > frontier(s) by {
                if i > 0 {
                    assert(ws[i] == windows(t)[i - 1]);
                }
            }
            assert forall|i: int, j: int|
                0 <= i < ws.len() && 0 <= j < ws.len() && #[trigger] accepts(
                    ws[i],
                    pattern,
                    s.start + p - ws[i].absolute_pos,
                ) && #[trigger] accepts(
                    ws[j],
                    pattern,
                    s.start + p - ws[j].absolute_pos,
                ) implies i == j by {
                if i > 0 {
                    assert(ws[i] == windows(t)[i - 1]);
                }
                if j > 0 {
                    assert(ws[j] == windows(t)[j - 1]);
                }
            }
        },
        None => {
            assert(s.read == limit(s));
        },
    }
}

/// Each match that a window takes is an occurrence in the scanned bytes, at
/// the window's position plus the match's offset in the window.
pub proof fn lemma_accepted_matches_occur(
    stream: Seq<u8>,
    start: nat,
    end: int,
    chunk_size: int,
    pattern: Seq<u8>,
)
    requires
        chunk_size >= 0,
        pattern.len() >= 1,
    ensures
        forall|i: int, q: int|
            0 <= i < search_windows(stream, start as int, end, chunk_size, pattern).len()
                && #[trigger] accepts(
                search_windows(stream, start as int, end, chunk_size, pattern)[i],
                pattern,
                q,
            ) ==> occurs_at(
                scanned(initial_scan(stream, start as int, end, chunk_size, pattern.len() - 1)),
                pattern,
                search_windows(stream, start as int, end, chunk_size, pattern)[i].absolute_pos
                    - start + q,
            ),
{
    let s = initial_scan(stream, start as int, end, chunk_size, pattern.len() - 1);
    let ws = windows(s);
    let src = scanned(s);
    lemma_windows_are_pieces(s);
    assert forall|i: int, q: int| 0 <= i < ws.len() && #[trigger] accepts(ws[i], pattern, q) implies occurs_at(src, pattern, ws[i].absolute_pos - start + q) by {
        let w = ws[i];
        let at = w.absolute_pos - start + q;
        assert(src.subrange(at, at + pattern.len()) =~= w.bytes.subrange(q, q + pattern.len()));
    }
}

/// With an overlap of one less than the pattern's length, each occurrence of
/// the pattern in the scanned bytes is taken by exactly one window, when a
/// window takes only the matches that end past its `valid_start`.
pub proof fn lemma_each_occurrence_taken_once(
    stream: Seq<u8>,
    start: nat,
    end: int,
    chunk_size: int,
    pattern: Seq<u8>,
    p: int,
)
    requires
        pattern.len() >= 1,
        chunk_size >= 1,
        occurs_at(
            scanned(initial_scan(stream, start as int, end, chunk_size, pattern.len() - 1)),
            pattern,
            p,
        ),
    ensures
        exists|i: int|
            0 <= i < search_windows(stream, start as int, end, chunk_size, pattern).len()
                && #[trigger] accepts(
                search_windows(stream, start as int, end, chunk_size, pattern)[i],
                pattern,
                start + p - search_windows(stream, start as int, end, chunk_size, pattern)[i].absolute_pos,
            ),
        forall|i: int, j: int|
            0 <= i < search_windows(stream, start as int, end, chunk_size, pattern).len() && 0 <= j
                < search_windows(stream, start as int, end, chunk_size, pattern).len()
                && #[trigger] accepts(
                search_windows(stream, start as int, end, chunk_size, pattern)[i],
                pattern,
                start + p - search_windows(stream, start as int, end, chunk_size, pattern)[i].absolute_pos,
            ) && #[trigger] accepts(
                search_windows(stream, start as int, end, chunk_size, pattern)[j],
                pattern,
                start + p - search_windows(stream, start as int, end, chunk_size, pattern)[j].absolute_pos,
            ) ==> i == j,
{
    let s = initial_scan(stream, start as int, end, chunk_size, pattern.len() - 1);
    let ws = windows(s);
    assert(ws == search_windows(stream, start as int, end, chunk_size, pattern));
    let src = scanned(s);
    assert(occurs_at(stream, pattern, p)) by {
        assert(stream.subrange(p, p + pattern.len()) =~= src.subrange(p, p + pattern.len()));
    }
    let (w, t) = step(s);
    match w {
        Some(w) => {
            assert(settled(t));
            lemma_settled_windows(t, pattern, p);
            assert(ws[0] == w);
            assert forall|i: int| 0 < i < ws.len() implies ws[i] == windows(t)[i - 1] by {}
            let e = start + p + pattern.len();
            if e <= t.read {
                assert(w.bytes.subrange(p, p + pattern.len()) =~= stream.subrange(p, p + pattern.len()));
                assert(accepts(ws[0], pattern, start + p - ws[0].absolute_pos));
            } else {
                let k = choose|k: int|
                    0 <= k < windows(t).len() && #[trigger] accepts(
                        windows(t)[k],
                        pattern,
                        start + p - windows(t)[k].absolute_pos,
                    );
                assert(ws[k + 1] == windows(t)[k]);
                assert(accepts(ws[k + 1], pattern, start + p - ws[k + 1].absolute_pos));
            }
            assert forall|i: int, j: int|
                0 <= i < ws.len() && 0 <= j < ws.len() && #[trigger] accepts(
                    ws[i],
                    pattern,
                    start + p - ws[i].absolute_pos,
                ) && #[trigger] accepts(ws[j], pattern, start + p - ws[j].absolute_pos) implies i
                == j by {
                if i > 0 {
                    assert(ws[i] == windows(t)[i - 1]);
                }
                if j > 0 {
                    assert(ws[j] == windows(t)[j - 1]);
                }
                if i == 0 && j > 0 {
                    assert(e <= t.read);
                }
                if j == 0 && i > 0 {
                    assert(e <= t.read);
                }
            }
        },
        None => {
            assert(limit(s) == start);
        },
    }
}

/// Searching the windows for a pattern that occurs exactly once in the
/// scanned bytes, with an overlap of one less than the pattern's length and
/// taking only matches that end past `valid_start`, finds it exactly once and
/// at its position in the content.
pub proof fn lemma_single_occurrence_reported_once(
    stream: Seq<u8>,
    start: nat,
    end: int,
    chunk_size: int,
    pattern: Seq<u8>,
    p: int,
)
    requires
        pattern.len() >= 1,
        chunk_size >= 1,
        occurs_at(
            scanned(initial_scan(stream, start as int, end, chunk_size, pattern.len() - 1)),
            pattern,
            p,
        ),
        forall|q: int|
            #[trigger] occurs_at(
                scanned(initial_scan(stream, start as int, end, chunk_size, pattern.len() - 1)),
                pattern,
                q,
            ) ==> q == p,
    ensures
        exists|i: int|
            0 <= i < search_windows(stream, start as int, end, chunk_size, pattern).len()
                && #[trigger] accepts(
                search_windows(stream, start as int, end, chunk_size, pattern)[i],
                pattern,
                start + p - search_windows(stream, start as int, end, chunk_size, pattern)[i].absolute_pos,
            ),
        forall|i: int, q: int|
            0 <= i < search_windows(stream, start as int, end, chunk_size, pattern).len()
                && #[trigger] accepts(
                search_windows(stream, start as int, end, chunk_size, pattern)[i],
                pattern,
                q,
            ) ==> search_windows(stream, start as int, end, chunk_size, pattern)[i].absolute_pos
                + q == start + p,
        forall|i: int, j: int, qi: int, qj: int|
            0 <= i < search_windows(stream, start as int, end, chunk_size, pattern).len() && 0 <= j
                < search_windows(stream, start as int, end, chunk_size, pattern).len()
                && #[trigger] accepts(
                search_windows(stream, start as int, end, chunk_size, pattern)[i],
                pattern,
                qi,
            ) && #[trigger] accepts(
                search_windows(stream, start as int, end, chunk_size, pattern)[j],
                pattern,
                qj,
            ) ==> i == j,
{
    let ws = search_windows(stream, start as int, end, chunk_size, pattern);
    let src = scanned(initial_scan(stream, start as int, end, chunk_size, pattern.len() - 1));
    lemma_accepted_matches_occur(stream, start, end, chunk_size, pattern);
    lemma_each_occurrence_taken_once(stream, start, end, chunk_size, pattern, p);
    assert forall|i: int, q: int| 0 <= i < ws.len() && #[trigger] accepts(ws[i], pattern, q) implies ws[i].absolute_pos + q == start + p by {
        assert(occurs_at(src, pattern, ws[i].absolute_pos - start + q));
    }
    assert forall|i: int, j: int, qi: int, qj: int|
        0 <= i < ws.len() && 0 <= j < ws.len() && #[trigger] accepts(ws[i], pattern, qi)
            && #[trigger] accepts(ws[j], pattern, qj) implies i == j by {
        assert(occurs_at(src, pattern, ws[i].absolute_pos - start + qi));
        assert(occurs_at(src, pattern, ws[j].absolute_pos - start + qj));
        assert(accepts(ws[i], pattern, start + p - ws[i].absolute_pos));
        assert(accepts(ws[j], pattern, start + p - ws[j].absolute_pos));
    }
}

/// Yields overlapping windows of the bytes from `start` up to `end`.
pub struct OverlappingChunks<const N: usize> {
    iter: ByteIterator<N>,
    buffer: Vec<u8>,
    buffer_start_pos: usize,
    current_read_pos: usize,
    end: usize,
    chunk_size: usize,
    overlap: usize,
    first_chunk: bool,
    stream: Ghost<Seq<u8>>,
    start: Ghost<int>,
}

impl<const N: usize> OverlappingChunks<N> {
    /// The state of the scan.
    pub closed spec fn scan(&self) -> Scan {
        Scan {
            stream: self.stream@,
            start: self.start@,
            end: self.end as int,
            chunk_size: self.chunk_size as int,
            overlap: self.overlap as int,
            read: self.current_read_pos as int,
            buf_start: self.buffer_start_pos as int,
            first: self.first_chunk,
        }
    }

    pub closed spec fn wf(&self) -> bool {
        let s = self.scan();
        &&& s.start <= s.buf_start <= s.read <= limit(s)
        &&& s.first ==> s.buf_start == s.read
        &&& self.buffer@ == s.stream.subrange(s.buf_start - s.start, s.read - s.start)
        &&& rest_of(self.iter) == s.stream.subrange(s.read - s.start, s.stream.len() as int)
    }

    /// Windows over the bytes that `iter` yields, taken to lie at positions
    /// `start..end`; each window adds up to `chunk_size` bytes and repeats the
    /// last `overlap` bytes of the one before.
    pub fn new(
        iter: ByteIterator<N>,
        start: usize,
        end: usize,
        chunk_size: usize,
        overlap: usize,
    ) -> (r: Self)
        ensures
            r.wf(),
            r.scan() == initial_scan(
                rest_of(iter),
                start as int,
                end as int,
                chunk_size as int,
                overlap as int,
            ),
    {
        let ghost stream = rest_of(iter);
        assert(stream.subrange(0, stream.len() as int) =~= stream);
        assert(stream.subrange(0, 0) =~= Seq::<u8>::empty());
        OverlappingChunks {
            iter,
            buffer: Vec::new(),
            buffer_start_pos: start,
            current_read_pos: start,
            end,
            chunk_size,
            overlap,
            first_chunk: true,
            stream: Ghost(stream),
            start: Ghost(start as int),
        }
    }

    /// Reads from the cursor until the buffer holds `target_len` bytes or
    /// reading reaches its limit.
    fn read_up_to(&mut self, target_len: usize)
        requires
            old(self).wf(),
            !old(self).scan().first,
        ensures
            final(self).wf(),
            final(self).scan() == (Scan {
                read: max(
                    old(self).scan().read,
                    min(old(self).scan().buf_start + target_len, limit(old(self).scan())),
                ),
                ..old(self).scan()
            }),
    {
        let ghost s0 = self.scan();
        let ghost goal = min(s0.buf_start + target_len, limit(s0));
        let mut more = true;
        while more && self.buffer.len() < target_len && self.current_read_pos < self.end
            invariant
                goal == min(s0.buf_start + target_len, limit(s0)),
                !s0.first,
                self.wf(),
                self.scan() == (Scan { read: self.scan().read, ..s0 }),
                s0.read <= self.scan().read <= max(s0.read, goal),
                self.buffer.len() == self.scan().read - s0.buf_start,
                !more ==> self.scan().read - s0.start >= s0.stream.len(),
            decreases self.end - self.current_read_pos + if more { 1int } else { 0 },
        {
            let ghost s = self.scan();
            let ghost it0 = self.iter;
            match self.iter.next() {
                Some(byte) => {
                    // The cursor had a byte left, so the stream has one at `read`.
                    assert(it0.offset() < it0.source().len());
                    assert(rest_of(it0).len() == it0.source().len() - it0.offset());
                    assert(rest_of(it0)[0] == byte);
                    self.buffer.push(byte);
                    self.current_read_pos = self.current_read_pos + 1;
                    assert(self.buffer@ =~= s.stream.subrange(
                        s.buf_start - s.start,
                        s.read + 1 - s.start,
                    ));
                    assert(rest_of(self.iter) =~= rest_of(it0).subrange(
                        1,
                        rest_of(it0).len() as int,
                    ));
                    assert(rest_of(self.iter) =~= s.stream.subrange(
                        s.read + 1 - s.start,
                        s.stream.len() as int,
                    ));
                },
                None => {
                    assert(rest_of(it0).len() == 0);
                    more = false;
                },
            }
        }
    }

    /// Fills the buffer for the next window; `false` when no new bytes came.
    fn fill_next_chunk(&mut self) -> (r: bool)
        requires
            old(self).wf(),
        ensures
            final(self).wf(),
            (r, final(self).scan()) == fill(old(self).scan()),
    {
        if self.first_chunk {
            self.first_chunk = false;
            let target_len = self.chunk_size;
            self.read_up_to(target_len);
            !self.buffer.is_empty()
        } else {
            if self.current_read_pos >= self.end || self.buffer.is_empty() {
                return false;
            }
            // Keep only the trailing `overlap` bytes.
            if self.buffer.len() > self.overlap {
                let drain_amount = self.buffer.len() - self.overlap;
                let ghost s = self.scan();
                let kept = self.buffer.split_off(drain_amount);
                self.buffer = kept;
                self.buffer_start_pos = self.buffer_start_pos + drain_amount;
                assert(self.buffer@ =~= s.stream.subrange(
                    self.buffer_start_pos - s.start,
                    s.read - s.start,
                ));
            }
            let before_len = self.buffer.len();
            let target_len = self.overlap.saturating_add(self.chunk_size);
            self.read_up_to(target_len);
            self.buffer.len() > before_len
        }
    }

    /// The next window, or `None` once the bytes up to `end`, or the cursor,
    /// are used up.
    pub fn next(&mut self) -> (r: Option<ChunkInfo>)
        requires
            old(self).wf(),
        ensures
            final(self).wf(),
            (window_opt(r), final(self).scan()) == step(old(self).scan()),
    {
        let is_first = self.first_chunk;
        if !self.fill_next_chunk() {
            return None;
        }
        let valid_start = if is_first {
            0
        } else {
            self.overlap.min(self.buffer.len())
        };
        let buffer = self.buffer.clone();
        assert(buffer@ =~= self.buffer@);
        Some(ChunkInfo { buffer, absolute_pos: self.buffer_start_pos, valid_start })
    }
}
} // verus!
