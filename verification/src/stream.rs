//! Splitting a continuous byte stream into delimited frames.
//!
//! The transport delivers bytes in arbitrary chunk sizes with no message
//! boundaries of its own.  `FrameBuffer` accumulates those bytes and
//! surfaces, one at a time, each complete span running from a delimiter
//! byte (0x7E) through the next one.  Bytes before a frame's opening
//! delimiter are protocol garbage and are discarded with the frame; bytes
//! after its closing delimiter stay buffered for the next frame.

use vstd::prelude::*;

verus! {

/// The position of the first frame delimiter byte (0x7E) at or after `i`
/// in `s`, if any.
pub open spec fn flag_index_from(s: Seq<u8>, i: int) -> Option<int>
    recommends
        0 <= i <= s.len(),
    decreases s.len() - i
        when 0 <= i <= s.len()
{
    if i >= s.len() {
        None
    } else if s[i] == 0x7E {
        Some(i)
    } else {
        flag_index_from(s, i + 1)
    }
}

/// A found index is the first delimiter at or after `i`; when none is
/// found, no delimiter stands at or after `i`.
pub proof fn lemma_flag_index_from(s: Seq<u8>, i: int)
    requires
        0 <= i <= s.len(),
    ensures
        match flag_index_from(s, i) {
            Some(j) => i <= j < s.len() && s[j] == 0x7E && (forall|k: int|
                i <= k < j ==> s[k] != 0x7E),
            None => forall|k: int| i <= k < s.len() ==> s[k] != 0x7E,
        },
    decreases s.len() - i,
{
    if i >= s.len() {
    } else if s[i] == 0x7E {
    } else {
        lemma_flag_index_from(s, i + 1);
    }
}

/// The first delimiter at or after `i` is the index `j` that carries a
/// delimiter with none between `i` and `j`.
pub proof fn lemma_flag_index_from_found(s: Seq<u8>, i: int, j: int)
    requires
        0 <= i <= j < s.len(),
        s[j] == 0x7E,
        forall|k: int| i <= k < j ==> s[k] != 0x7E,
    ensures
        flag_index_from(s, i) == Some(j),
    decreases j - i,
{
    if i < j {
        lemma_flag_index_from_found(s, i + 1, j);
    }
}

/// A span without a delimiter at or after `i` has no first delimiter there.
pub proof fn lemma_flag_index_from_none(s: Seq<u8>, i: int)
    requires
        0 <= i <= s.len(),
        forall|k: int| i <= k < s.len() ==> s[k] != 0x7E,
    ensures
        flag_index_from(s, i) == None::<int>,
    decreases s.len() - i,
{
    if i < s.len() {
        lemma_flag_index_from_none(s, i + 1);
    }
}

/// One extraction step on a buffer: the first complete delimited span —
/// from the first delimiter byte through the next one, both included —
/// paired with the bytes after it; or nothing, when the buffer does not
/// yet hold two delimiters.
pub open spec fn extract_step(s: Seq<u8>) -> Option<(Seq<u8>, Seq<u8>)> {
    match flag_index_from(s, 0) {
        None => None,
        Some(i) => match flag_index_from(s, i + 1) {
            None => None,
            Some(j) => Some((s.subrange(i, j + 1), s.subrange(j + 1, s.len() as int))),
        },
    }
}

/// After a successful extraction step the remainder is strictly shorter
/// than the buffer was.
pub proof fn lemma_extract_step_shrinks(s: Seq<u8>)
    ensures
        match extract_step(s) {
            Some(fr) => fr.0.len() >= 2 && fr.1.len() < s.len(),
            None => true,
        },
{
    lemma_flag_index_from(s, 0);
    match flag_index_from(s, 0) {
        None => {},
        Some(i) => {
            lemma_flag_index_from(s, i + 1);
        },
    }
}

/// Every complete frame extractable from the front of `s`, in order.
pub open spec fn extracted_frames(s: Seq<u8>) -> Seq<Seq<u8>>
    decreases s.len()
    via extracted_frames_decreases
{
    match extract_step(s) {
        None => Seq::empty(),
        Some(fr) => seq![fr.0] + extracted_frames(fr.1),
    }
}

#[via_fn]
proof fn extracted_frames_decreases(s: Seq<u8>) {
    lemma_extract_step_shrinks(s);
}

/// What stays in the buffer once every complete frame has been extracted.
pub open spec fn leftover(s: Seq<u8>) -> Seq<u8>
    decreases s.len()
    via leftover_decreases
{
    match extract_step(s) {
        None => s,
        Some(fr) => leftover(fr.1),
    }
}

#[via_fn]
proof fn leftover_decreases(s: Seq<u8>) {
    lemma_extract_step_shrinks(s);
}

/// A drained buffer has no further frame to extract.
pub proof fn lemma_leftover_drained(s: Seq<u8>)
    ensures
        extract_step(leftover(s)) is None,
    decreases s.len(),
{
    match extract_step(s) {
        None => {},
        Some(fr) => {
            lemma_extract_step_shrinks(s);
            lemma_leftover_drained(fr.1);
        },
    }
}

/// A first delimiter found in `a` is still the first when `b` is appended.
proof fn lemma_flag_index_from_prefix(a: Seq<u8>, b: Seq<u8>, i: int, j: int)
    requires
        0 <= i <= a.len(),
        flag_index_from(a, i) == Some(j),
    ensures
        flag_index_from(a + b, i) == Some(j),
{
    lemma_flag_index_from(a, i);
    assert(forall|k: int| i <= k < j ==> (a + b)[k] == a[k]);
    assert((a + b)[j] == a[j]);
    lemma_flag_index_from_found(a + b, i, j);
}

/// A step that succeeds on `a` succeeds identically on `a + b`, with the
/// appended bytes joining the remainder.
pub proof fn lemma_extract_step_extends(a: Seq<u8>, b: Seq<u8>)
    requires
        extract_step(a) is Some,
    ensures
        extract_step(a + b) == Some(
            (extract_step(a)->Some_0.0, extract_step(a)->Some_0.1 + b),
        ),
{
    lemma_flag_index_from(a, 0);
    match flag_index_from(a, 0) {
        None => {},
        Some(i) => {
            lemma_flag_index_from(a, i + 1);
            lemma_flag_index_from_prefix(a, b, 0, i);
            match flag_index_from(a, i + 1) {
                None => {},
                Some(j) => {
                    lemma_flag_index_from_prefix(a, b, i + 1, j);
                    assert((a + b).subrange(i, j + 1) =~= a.subrange(i, j + 1));
                    assert((a + b).subrange(j + 1, (a + b).len() as int) =~= a.subrange(
                        j + 1,
                        a.len() as int,
                    ) + b);
                },
            }
        },
    }
}

/// Law: extraction works online.  Feeding `a`, draining every complete
/// frame, and then feeding `b` surfaces the same frames, in the same
/// order, and leaves the same bytes buffered, as feeding `a + b` at once.
pub proof fn lemma_extraction_online(a: Seq<u8>, b: Seq<u8>)
    ensures
        extracted_frames(a + b) == extracted_frames(a) + extracted_frames(leftover(a) + b),
        leftover(a + b) == leftover(leftover(a) + b),
    decreases a.len(),
{
    match extract_step(a) {
        None => {
            assert(extracted_frames(a) + extracted_frames(a + b) =~= extracted_frames(a + b));
        },
        Some(fr) => {
            lemma_extract_step_shrinks(a);
            lemma_extract_step_extends(a, b);
            lemma_extraction_online(fr.1, b);
            assert(seq![fr.0] + (extracted_frames(fr.1) + extracted_frames(leftover(fr.1) + b))
                =~= (seq![fr.0] + extracted_frames(fr.1)) + extracted_frames(leftover(fr.1) + b));
        },
    }
}

/// The bytes of all chunks, in order.
pub open spec fn concat_chunks(chunks: Seq<Seq<u8>>) -> Seq<u8>
    decreases chunks.len(),
{
    if chunks.len() == 0 {
        Seq::empty()
    } else {
        chunks[0] + concat_chunks(chunks.skip(1))
    }
}

/// The frames surfaced when the chunks are fed one at a time into a buffer
/// holding `buf`, draining every complete frame after each feed.
pub open spec fn chunked_frames(buf: Seq<u8>, chunks: Seq<Seq<u8>>) -> Seq<Seq<u8>>
    decreases chunks.len(),
{
    if chunks.len() == 0 {
        Seq::empty()
    } else {
        extracted_frames(buf + chunks[0]) + chunked_frames(
            leftover(buf + chunks[0]),
            chunks.skip(1),
        )
    }
}

/// The bytes left buffered when the chunks have all been fed and drained.
pub open spec fn chunked_leftover(buf: Seq<u8>, chunks: Seq<Seq<u8>>) -> Seq<u8>
    decreases chunks.len(),
{
    if chunks.len() == 0 {
        buf
    } else {
        chunked_leftover(leftover(buf + chunks[0]), chunks.skip(1))
    }
}

/// Law: extraction is chunking-independent.  Starting from a drained
/// buffer, feeding a byte stream in any sequence of chunks — one byte at a
/// time or all at once — and draining after each feed surfaces the same
/// frames, in the same order, and leaves the same bytes buffered, as
/// feeding the whole stream in a single chunk.
pub proof fn lemma_extraction_chunking_independent(buf: Seq<u8>, chunks: Seq<Seq<u8>>)
    requires
        extract_step(buf) is None,
    ensures
        chunked_frames(buf, chunks) == extracted_frames(buf + concat_chunks(chunks)),
        chunked_leftover(buf, chunks) == leftover(buf + concat_chunks(chunks)),
    decreases chunks.len(),
{
    if chunks.len() == 0 {
        assert(buf + concat_chunks(chunks) =~= buf);
        assert(extracted_frames(buf) =~= Seq::<Seq<u8>>::empty());
    } else {
        let fed = buf + chunks[0];
        let rest = chunks.skip(1);
        lemma_extraction_online(fed, concat_chunks(rest));
        lemma_leftover_drained(fed);
        lemma_extraction_chunking_independent(leftover(fed), rest);
        assert(buf + concat_chunks(chunks) =~= fed + concat_chunks(rest));
    }
}

/// Law: resynchronization.  When garbage bytes without a delimiter precede
/// a complete frame — a delimited span whose interior holds no delimiter —
/// one extraction step discards the garbage and surfaces exactly that
/// frame, keeping the bytes after it buffered.
pub proof fn lemma_resynchronization(garbage: Seq<u8>, frame: Seq<u8>, rest: Seq<u8>)
    requires
        forall|k: int| 0 <= k < garbage.len() ==> garbage[k] != 0x7E,
        frame.len() >= 2,
        frame[0] == 0x7E,
        frame[frame.len() - 1] == 0x7E,
        forall|k: int| 0 < k < frame.len() - 1 ==> frame[k] != 0x7E,
    ensures
        extract_step(garbage + frame + rest) == Some((frame, rest)),
{
    let s = garbage + frame + rest;
    let g = garbage.len() as int;
    let j = g + frame.len() - 1;
    assert(forall|k: int| 0 <= k < g ==> s[k] == garbage[k]);
    assert(s[g] == frame[0]);
    lemma_flag_index_from_found(s, 0, g);
    assert(forall|k: int| g < k < j ==> s[k] == frame[k - g]);
    assert(s[j] == frame[frame.len() - 1]);
    lemma_flag_index_from_found(s, g + 1, j);
    assert(s.subrange(g, j + 1) =~= frame);
    assert(s.subrange(j + 1, s.len() as int) =~= rest);
}

/// An accumulating read buffer that splits a byte stream into delimited
/// frames.  Bytes arrive in arbitrary chunks through `feed`;
/// `try_extract_frame` surfaces the next complete frame, if one is
/// buffered, and otherwise leaves the buffer untouched.
pub struct FrameBuffer {
    buf: Vec<u8>,
}

impl View for FrameBuffer {
    type V = Seq<u8>;

    closed spec fn view(&self) -> Seq<u8> {
        self.buf@
    }
}

impl FrameBuffer {
    /// An empty buffer.
    pub fn new() -> (r: Self)
        ensures
            r@ == Seq::<u8>::empty(),
    {
        FrameBuffer { buf: Vec::new() }
    }

    /// The number of buffered bytes.
    pub fn len(&self) -> (n: usize)
        ensures
            n == self@.len(),
    {
        self.buf.len()
    }

    /// A copy of the buffered bytes, oldest first.
    pub fn contents(&self) -> (r: Vec<u8>)
        ensures
            r@ == self@,
    {
        vstd::slice::slice_to_vec(self.buf.as_slice())
    }

    /// Append newly read bytes at the end of the buffer.
    pub fn feed(&mut self, new_bytes: &[u8])
        ensures
            final(self)@ == old(self)@ + new_bytes@,
    {
        let ghost buf0 = self.buf@;
        let n = new_bytes.len();
        let mut i: usize = 0;
        while i < n
            invariant
                i <= n,
                n == new_bytes@.len(),
                self.buf@ == buf0 + new_bytes@.take(i as int),
            decreases n - i,
        {
            self.buf.push(new_bytes[i]);
            proof {
                assert(new_bytes@.take(i + 1) =~= new_bytes@.take(i as int) + seq![
                    new_bytes@[i as int],
                ]);
                assert(self.buf@ =~= buf0 + new_bytes@.take(i + 1));
            }
            i = i + 1;
        }
        proof {
            assert(new_bytes@.take(n as int) =~= new_bytes@);
        }
    }

    /// Surface the next complete delimited frame, if the buffer holds one:
    /// the span from the first delimiter byte through the next one, both
    /// included.  The surfaced frame, and the garbage bytes before its
    /// opening delimiter, leave the buffer; the bytes after its closing
    /// delimiter stay for the next round.  Without two delimiters in the
    /// buffer no frame is surfaced and nothing changes.
    pub fn try_extract_frame(&mut self) -> (r: Option<Vec<u8>>)
        ensures
            match r {
                Some(f) => extract_step(old(self)@) == Some((f@, final(self)@)),
                None => extract_step(old(self)@) is None && final(self)@ == old(self)@,
            },
    {
        let ghost s = self.buf@;
        let n = self.buf.len();
        let mut i: usize = 0;
        while i < n && self.buf[i] != 0x7E
            invariant
                i <= n,
                n == self.buf@.len(),
                self.buf@ == s,
                forall|k: int| 0 <= k < i ==> s[k] != 0x7E,
            decreases n - i,
        {
            i = i + 1;
        }
        if i == n {
            proof {
                lemma_flag_index_from_none(s, 0);
            }
            return None;
        }
        let mut j = i + 1;
        while j < n && self.buf[j] != 0x7E
            invariant
                i + 1 <= j <= n,
                n == self.buf@.len(),
                self.buf@ == s,
                forall|k: int| i + 1 <= k < j ==> s[k] != 0x7E,
            decreases n - j,
        {
            j = j + 1;
        }
        proof {
            lemma_flag_index_from_found(s, 0, i as int);
        }
        if j == n {
            proof {
                lemma_flag_index_from_none(s, i + 1);
            }
            return None;
        }
        proof {
            lemma_flag_index_from_found(s, i + 1, j as int);
        }
        let frame = vstd::slice::slice_to_vec(
            vstd::slice::slice_subrange(self.buf.as_slice(), i, j + 1),
        );
        let rest = vstd::slice::slice_to_vec(
            vstd::slice::slice_subrange(self.buf.as_slice(), j + 1, n),
        );
        self.buf = rest;
        Some(frame)
    }
}

} // verus!
