//! Frame-boundary scanning over a raw JPEG byte stream.
//!
//! A transcoder writes JPEG images back-to-back, with no length prefixes:
//! boundaries are discovered by content inspection alone.  A complete frame
//! runs from the first start-of-image marker (`FF D8`) to the end of the
//! first end-of-image marker (`FF D9`) after it.  [`StreamReader`] buffers
//! the incoming bytes and hands out each complete span as it appears,
//! discarding the consumed bytes (any garbage before a frame's start
//! included) so the buffer never grows without bound.

use vstd::prelude::*;
use vstd::slice::slice_index_get;
use vstd::slice::slice_subrange;
use vstd::slice::slice_to_vec;

verus! {

/// First byte of every two-byte JPEG marker.
pub const MARKER_PREFIX: u8 = 0xFF;

/// Second byte of the start-of-image marker.
pub const SOI: u8 = 0xD8;

/// Second byte of the end-of-image marker.
pub const EOI: u8 = 0xD9;

/// The two-byte marker `FF m` stands at position `i`.
pub open spec fn marker_at(b: Seq<u8>, m: u8, i: int) -> bool {
    &&& 0 <= i
    &&& i + 1 < b.len()
    &&& b[i] == MARKER_PREFIX
    &&& b[i + 1] == m
}

/// First position at or after `from` where the marker `FF m` stands.
pub open spec fn find_marker(b: Seq<u8>, from: int, m: u8) -> Option<int>
    decreases b.len() - from,
{
    if from + 1 >= b.len() {
        None
    } else if b[from] == MARKER_PREFIX && b[from + 1] == m {
        Some(from)
    } else {
        find_marker(b, from + 1, m)
    }
}

/// The first complete frame in a buffer: from the first start marker to the
/// end of the first end marker after it.  The result is the span's start and
/// its end (one past the end marker).
pub open spec fn frame_bounds(b: Seq<u8>) -> Option<(int, int)> {
    match find_marker(b, 0, SOI) {
        None => None,
        Some(s) => match find_marker(b, s + 2, EOI) {
            None => None,
            Some(e) => Some((s, e + 2)),
        },
    }
}

/// `find_marker` returns the first marker position at or after `from`.
pub proof fn lemma_find_marker_props(b: Seq<u8>, from: int, m: u8)
    requires
        from >= 0,
    ensures
        match find_marker(b, from, m) {
            Some(i) => from <= i && marker_at(b, m, i) && (forall|j: int|
                from <= j < i ==> !marker_at(b, m, j)),
            None => forall|j: int| from <= j ==> !marker_at(b, m, j),
        },
    decreases b.len() - from,
{
    if from + 1 < b.len() && !(b[from] == MARKER_PREFIX && b[from + 1] == m) {
        lemma_find_marker_props(b, from + 1, m);
    }
}

/// Converse characterization: the first marker position is what
/// `find_marker` returns.
pub proof fn lemma_find_marker_of_first(b: Seq<u8>, from: int, m: u8, i: int)
    requires
        0 <= from <= i,
        marker_at(b, m, i),
        forall|j: int| from <= j < i ==> !marker_at(b, m, j),
    ensures
        find_marker(b, from, m) == Some(i),
    decreases i - from,
{
    if from < i {
        assert(!marker_at(b, m, from));
        lemma_find_marker_of_first(b, from + 1, m, i);
    }
}

/// A complete frame's bounds are ordered and lie within the buffer.
pub proof fn lemma_frame_bounds_props(b: Seq<u8>)
    ensures
        frame_bounds(b) matches Some(p) ==> 0 <= p.0 && p.0 + 4 <= p.1 <= b.len(),
{
    lemma_find_marker_props(b, 0, SOI);
    match find_marker(b, 0, SOI) {
        Some(s) => {
            lemma_find_marker_props(b, s + 2, EOI);
        },
        None => {},
    }
}

/// The successive complete frames of a buffer, in order.
pub open spec fn spans_of(b: Seq<u8>) -> Seq<Seq<u8>>
    decreases b.len(),
    via spans_of_decreases
{
    match frame_bounds(b) {
        None => Seq::empty(),
        Some((s, e)) => seq![b.subrange(s, e)] + spans_of(b.subrange(e, b.len() as int)),
    }
}

#[via_fn]
proof fn spans_of_decreases(b: Seq<u8>) {
    lemma_frame_bounds_props(b);
}

/// What remains of a buffer once every complete frame is consumed.
pub open spec fn residue_of(b: Seq<u8>) -> Seq<u8>
    decreases b.len(),
    via residue_of_decreases
{
    match frame_bounds(b) {
        None => b,
        Some((s, e)) => residue_of(b.subrange(e, b.len() as int)),
    }
}

#[via_fn]
proof fn residue_of_decreases(b: Seq<u8>) {
    lemma_frame_bounds_props(b);
}

/// A well-formed frame span: it opens with the start marker, closes with the
/// end marker, and holds the end marker nowhere earlier.
pub open spec fn wf_span(f: Seq<u8>) -> bool {
    &&& f.len() >= 4
    &&& f[0] == MARKER_PREFIX
    &&& f[1] == SOI
    &&& f[f.len() - 2] == MARKER_PREFIX
    &&& f[f.len() - 1] == EOI
    &&& forall|j: int| 0 <= j < f.len() - 2 ==> !marker_at(f, EOI, j)
}

/// A well-formed span at the front of a buffer is exactly the first frame
/// found, whatever follows it.
pub proof fn lemma_span_prefix(f: Seq<u8>, rest: Seq<u8>)
    requires
        wf_span(f),
    ensures
        spans_of(f + rest) == seq![f] + spans_of(rest),
        residue_of(f + rest) == residue_of(rest),
{
    let b = f + rest;
    let n = f.len() as int;
    assert(marker_at(b, SOI, 0));
    lemma_find_marker_of_first(b, 0, SOI, 0);
    assert(marker_at(b, EOI, n - 2));
    assert forall|j: int| 2 <= j < n - 2 implies !marker_at(b, EOI, j) by {
        assert(!marker_at(f, EOI, j));
        assert(b[j] == f[j]);
        assert(b[j + 1] == f[j + 1]);
    }
    lemma_find_marker_of_first(b, 2, EOI, n - 2);
    assert(frame_bounds(b) == Some((0int, n)));
    assert(b.subrange(0, n) =~= f);
    assert(b.subrange(n, b.len() as int) =~= rest);
    assert(seq![b.subrange(0, n)] + spans_of(b.subrange(n, b.len() as int)) == seq![f]
        + spans_of(rest));
}

/// A buffer holding exactly one well-formed span yields that span and
/// nothing more.
pub proof fn lemma_single_span(f: Seq<u8>)
    requires
        wf_span(f),
    ensures
        spans_of(f) == seq![f],
        residue_of(f) == Seq::<u8>::empty(),
{
    let empty = Seq::<u8>::empty();
    assert(f + empty =~= f);
    lemma_span_prefix(f, empty);
    assert(spans_of(empty) =~= Seq::<Seq<u8>>::empty());
    assert(seq![f] + Seq::<Seq<u8>>::empty() =~= seq![f]);
}

/// A stream of complete well-formed spans parses back into exactly those
/// spans, in order, leaving nothing behind.
pub proof fn lemma_wf_spans_parse_exactly(fs: Seq<Seq<u8>>)
    requires
        forall|i: int| 0 <= i < fs.len() ==> wf_span(#[trigger] fs[i]),
    ensures
        spans_of(fs.flatten()) == fs,
        residue_of(fs.flatten()) == Seq::<u8>::empty(),
    decreases fs.len(),
{
    if fs.len() == 0 {
        assert(fs.flatten() =~= Seq::<u8>::empty());
        assert(spans_of(fs.flatten()) =~= Seq::<Seq<u8>>::empty());
    } else {
        lemma_span_prefix(fs[0], fs.drop_first().flatten());
        lemma_wf_spans_parse_exactly(fs.drop_first());
        assert(seq![fs[0]] + fs.drop_first() =~= fs);
    }
}

/// Buffers the byte stream and detects frame boundaries.
pub struct StreamReader {
    buf: Vec<u8>,
}

impl View for StreamReader {
    type V = Seq<u8>;

    closed spec fn view(&self) -> Seq<u8> {
        self.buf@
    }
}

/// Index of the first marker `FF m` at or after `from`, if any.
fn find_marker_pos(b: &Vec<u8>, from: usize, m: u8) -> (r: Option<usize>)
    ensures
        match r {
            Some(i) => find_marker(b@, from as int, m) == Some(i as int) && from <= i && i + 1
                < b@.len(),
            None => find_marker(b@, from as int, m) is None,
        },
{
    let n = b.len();
    if n < 2 {
        return None;
    }
    let mut i = from;
    while i < n - 1
        invariant
            n == b@.len(),
            n >= 2,
            from <= i,
            find_marker(b@, from as int, m) == find_marker(b@, i as int, m),
        decreases n - i,
    {
        if b[i] == MARKER_PREFIX && b[i + 1] == m {
            return Some(i);
        }
        i += 1;
    }
    None
}

/// Bounds of the first complete frame in the buffer, if any.
fn find_frame(buf: &Vec<u8>) -> (r: Option<(usize, usize)>)
    ensures
        match r {
            Some(p) => frame_bounds(buf@) == Some((p.0 as int, p.1 as int)) && p.0 + 4 <= p.1
                <= buf@.len(),
            None => frame_bounds(buf@) is None,
        },
{
    let n = buf.len();
    match find_marker_pos(buf, 0, SOI) {
        None => None,
        Some(s) => {
            proof {
                assert(s + 2 <= n);
            }
            match find_marker_pos(buf, s + 2, EOI) {
                None => None,
                Some(e) => Some((s, e + 2)),
            }
        },
    }
}

/// An owned copy of `b[s..e]`.
fn copy_range(b: &Vec<u8>, s: usize, e: usize) -> (r: Vec<u8>)
    requires
        s <= e <= b@.len(),
    ensures
        r@ == b@.subrange(s as int, e as int),
{
    slice_to_vec(slice_subrange(b.as_slice(), s, e))
}

impl StreamReader {
    /// A reader with an empty buffer.
    pub fn new() -> (r: Self)
        ensures
            r@ == Seq::<u8>::empty(),
    {
        StreamReader { buf: Vec::new() }
    }

    /// Feed one chunk read from the stream.  Every frame completed by it is
    /// returned, in order; the consumed bytes leave the buffer, garbage
    /// before each frame's start included.
    pub fn ingest(&mut self, chunk: &[u8]) -> (spans: Vec<Vec<u8>>)
        ensures
            spans@.map_values(|v: Vec<u8>| v@) == spans_of(old(self)@ + chunk@),
            final(self)@ == residue_of(old(self)@ + chunk@),
    {
        let ghost orig = self.buf@ + chunk@;
        let mut i: usize = 0;
        proof {
            assert(self.buf@ + chunk@.subrange(0, 0) =~= self.buf@);
        }
        while i < chunk.len()
            invariant
                0 <= i <= chunk@.len(),
                self.buf@ == old(self)@ + chunk@.subrange(0, i as int),
            decreases chunk@.len() - i,
        {
            let ghost pre = self.buf@;
            self.buf.push(*slice_index_get(chunk, i));
            i += 1;
            proof {
                assert(pre.push(chunk@[i - 1]) =~= old(self)@ + chunk@.subrange(0, i as int));
            }
        }
        proof {
            assert(self.buf@ =~= orig);
        }
        let mut spans: Vec<Vec<u8>> = Vec::new();
        proof {
            assert(spans@.map_values(|v: Vec<u8>| v@) + spans_of(self.buf@) =~= spans_of(orig));
        }
        loop
            invariant
                spans@.map_values(|v: Vec<u8>| v@) + spans_of(self.buf@) == spans_of(orig),
                residue_of(self.buf@) == residue_of(orig),
            ensures
                spans@.map_values(|v: Vec<u8>| v@) + spans_of(self.buf@) == spans_of(orig),
                residue_of(self.buf@) == residue_of(orig),
                frame_bounds(self.buf@) is None,
            decreases self.buf@.len(),
        {
            match find_frame(&self.buf) {
                None => {
                    break ;
                },
                Some((s, e)) => {
                    let ghost pre = self.buf@;
                    let frame = copy_range(&self.buf, s, e);
                    spans.push(frame);
                    let rest = slice_to_vec(slice_subrange(self.buf.as_slice(), e, self.buf.len()));
                    self.buf = rest;
                    proof {
                        let fm = |v: Vec<u8>| v@;
                        assert(spans@.map_values(fm) =~= spans@.map_values(fm).drop_last().push(
                            frame@,
                        ));
                        assert(spans@.map_values(fm).drop_last().push(frame@) + spans_of(self.buf@)
                            =~= spans@.map_values(fm).drop_last() + (seq![pre.subrange(s as int, e as int)]
                            + spans_of(pre.subrange(e as int, pre.len() as int))));
                    }
                },
            }
        }
        proof {
            assert(spans_of(self.buf@) =~= Seq::<Seq<u8>>::empty());
            assert(spans@.map_values(|v: Vec<u8>| v@) + Seq::<Seq<u8>>::empty() =~= spans@
                .map_values(|v: Vec<u8>| v@));
        }
        spans
    }

    /// How many bytes wait in the buffer.
    pub fn buffered(&self) -> (n: usize)
        ensures
            n == self@.len(),
    {
        self.buf.len()
    }
}

} // verus!
