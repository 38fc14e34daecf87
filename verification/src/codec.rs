//! Wire codec: newline-terminated frames over a byte stream.
//!
//! A frame is a run of bytes without a line feed, followed by one line feed.
//! A read from a stream may end in the middle of a frame, or hold several
//! frames. [`FrameDecoder`] keeps what has arrived and hands out complete
//! frames one by one, whatever the sizes of the reads were.

use vstd::prelude::*;
use crate::text::{NEWLINE, find_byte, lemma_find_byte, lemma_find_byte_bounds, copy_range,
    to_bytes, append_bytes, contains_byte, find};

verus! {

/// Why bytes could not be framed or unframed.
#[derive(Clone, Copy, Debug, PartialEq, Eq, Structural)]
pub enum FramingError {
    /// The text to encode holds a line feed, which would cut it in two.
    EmbeddedNewline,
    /// The next frame of the stream is longer than the decoder's limit.
    FrameTooLong,
}

/// The views of a sequence of byte vectors.
pub open spec fn views(v: Seq<Vec<u8>>) -> Seq<Seq<u8>> {
    Seq::new(v.len(), |i: int| v[i]@)
}

/// The frame that encodes `text`.
pub open spec fn encoded(text: Seq<u8>) -> Seq<u8> {
    text.push(NEWLINE)
}

/// Whether `buf` starts with a complete frame of at most `max` bytes.
pub open spec fn frame_ready(buf: Seq<u8>, max: nat) -> bool {
    find_byte(buf, NEWLINE) < buf.len() && find_byte(buf, NEWLINE) <= max
}

/// Whether the first frame of `buf`, complete or not, is longer than `max`.
pub open spec fn frame_too_long(buf: Seq<u8>, max: nat) -> bool {
    find_byte(buf, NEWLINE) > max
}

/// The first frame of `buf`, without its line feed.
pub open spec fn first_frame(buf: Seq<u8>) -> Seq<u8> {
    buf.take(find_byte(buf, NEWLINE) as int)
}

/// What follows the first frame of `buf` and its line feed.
pub open spec fn after_first_frame(buf: Seq<u8>) -> Seq<u8> {
    buf.skip(find_byte(buf, NEWLINE) as int + 1)
}

/// The frames that a decoder with limit `max` hands out from `buf`, in order:
/// every complete frame up to the first one that is too long.
pub open spec fn ready_frames(buf: Seq<u8>, max: nat) -> Seq<Seq<u8>>
    decreases buf.len(),
{
    if frame_ready(buf, max) {
        seq![first_frame(buf)] + ready_frames(after_first_frame(buf), max)
    } else {
        Seq::empty()
    }
}

/// What stays in the decoder once `ready_frames` have been handed out: an
/// incomplete frame, or everything from a frame that is too long onwards.
pub open spec fn leftover(buf: Seq<u8>, max: nat) -> Seq<u8>
    decreases buf.len(),
{
    if frame_ready(buf, max) {
        leftover(after_first_frame(buf), max)
    } else {
        buf
    }
}

/// Whether decoding `buf` ends at a frame that is too long.
pub open spec fn overflows(buf: Seq<u8>, max: nat) -> bool {
    frame_too_long(leftover(buf, max), max)
}

/// The stream that carries `frames` one after the other.
pub open spec fn joined(frames: Seq<Seq<u8>>) -> Seq<u8>
    decreases frames.len(),
{
    if frames.len() == 0 {
        Seq::empty()
    } else {
        encoded(frames[0]) + joined(frames.skip(1))
    }
}

/// Encodes `text` as one frame. Text that holds a line feed is refused.
pub fn encode(text: &[u8]) -> (r: Result<Vec<u8>, FramingError>)
    ensures
        text@.contains(NEWLINE) ==> r == Err::<Vec<u8>, FramingError>(
            FramingError::EmbeddedNewline,
        ),
        !text@.contains(NEWLINE) ==> r is Ok && r->Ok_0@ == encoded(text@),
{
    if contains_byte(text, NEWLINE) {
        return Err(FramingError::EmbeddedNewline);
    }
    let mut out = to_bytes(text);
    out.push(NEWLINE);
    Ok(out)
}

/// Buffer that turns the reads of one connection into frames.
#[derive(Debug)]
pub struct FrameDecoder {
    buf: Vec<u8>,
    head: usize,
    max_frame: usize,
}

impl FrameDecoder {
    /// The internal invariant: the read position lies within the buffer.
    pub closed spec fn wf(&self) -> bool {
        self.head <= self.buf@.len()
    }

    /// The bytes received and not yet handed out.
    pub closed spec fn buffered(&self) -> Seq<u8> {
        self.buf@.skip(self.head as int)
    }

    /// The longest frame, in bytes without the line feed, that is accepted.
    pub closed spec fn limit(&self) -> nat {
        self.max_frame as nat
    }

    /// A decoder with nothing buffered that accepts frames of up to
    /// `max_frame` bytes.
    pub fn new(max_frame: usize) -> (d: FrameDecoder)
        ensures
            d.wf(),
            d.buffered() == Seq::<u8>::empty(),
            d.limit() == max_frame,
    {
        let d = FrameDecoder { buf: Vec::new(), head: 0, max_frame };
        assert(d.buf@.skip(0) =~= Seq::<u8>::empty());
        d
    }

    /// The longest frame that is accepted.
    pub fn max_frame(&self) -> (m: usize)
        ensures
            m == self.limit(),
    {
        self.max_frame
    }

    /// Number of bytes received and not yet handed out.
    pub fn buffered_len(&self) -> (n: usize)
        requires
            self.wf(),
        ensures
            n == self.buffered().len(),
    {
        self.buf.len() - self.head
    }

    /// Takes in the bytes of one read.
    pub fn push(&mut self, bytes: &[u8])
        requires
            old(self).wf(),
        ensures
            final(self).wf(),
            final(self).buffered() == old(self).buffered() + bytes@,
            final(self).limit() == old(self).limit(),
    {
        if self.head > 0 {
            let rest = copy_range(self.buf.as_slice(), self.head, self.buf.len());
            self.buf = rest;
            self.head = 0;
        }
        assert(self.buf@ =~= old(self).buffered());
        append_bytes(&mut self.buf, bytes);
        assert(self.buf@.skip(0) =~= self.buf@);
    }

    /// Hands out the next complete frame, without its line feed.
    ///
    /// Returns `Ok(None)` while the next frame is incomplete, and
    /// `FrameTooLong` as soon as the next frame, complete or not, is longer
    /// than the limit. A frame that is too long stays in the buffer, so every
    /// later call fails in the same way.
    pub fn next_frame(&mut self) -> (r: Result<Option<Vec<u8>>, FramingError>)
        requires
            old(self).wf(),
        ensures
            final(self).wf(),
            final(self).limit() == old(self).limit(),
            frame_too_long(old(self).buffered(), old(self).limit()) ==> r == Err::<
                Option<Vec<u8>>,
                FramingError,
            >(FramingError::FrameTooLong) && final(self).buffered() == old(self).buffered(),
            frame_ready(old(self).buffered(), old(self).limit()) ==> r is Ok && r->Ok_0 is Some
                && r->Ok_0->Some_0@ == first_frame(old(self).buffered())
                && final(self).buffered() == after_first_frame(old(self).buffered()),
            !frame_too_long(old(self).buffered(), old(self).limit()) && !frame_ready(
                old(self).buffered(),
                old(self).limit(),
            ) ==> r == Ok::<Option<Vec<u8>>, FramingError>(None) && final(self).buffered() == old(
                self,
            ).buffered(),
    {
        let rest = vstd::slice::slice_subrange(self.buf.as_slice(), self.head, self.buf.len());
        assert(rest@ =~= self.buffered());
        let at: usize = find(rest, NEWLINE);
        if at > self.max_frame {
            return Err(FramingError::FrameTooLong);
        }
        if at == rest.len() {
            return Ok(None);
        }
        let frame = copy_range(rest, 0, at);
        assert(frame@ =~= first_frame(rest@));
        self.head = self.head + at + 1;
        assert(self.buffered() =~= after_first_frame(old(self).buffered()));
        Ok(Some(frame))
    }

    /// Takes in the bytes of one read and hands out every frame that is now
    /// complete, together with the error that stopped decoding, if any.
    pub fn feed(&mut self, bytes: &[u8]) -> (r: Decoded)
        requires
            old(self).wf(),
        ensures
            final(self).wf(),
            final(self).limit() == old(self).limit(),
            views(r.frames@) == ready_frames(old(self).buffered() + bytes@, old(self).limit()),
            final(self).buffered() == leftover(old(self).buffered() + bytes@, old(self).limit()),
            overflows(old(self).buffered() + bytes@, old(self).limit()) ==> r.error == Some(
                FramingError::FrameTooLong,
            ),
            !overflows(old(self).buffered() + bytes@, old(self).limit()) ==> r.error
                == None::<FramingError>,
    {
        self.push(bytes);
        let ghost stream = self.buffered();
        let ghost max = self.limit();
        let mut frames: Vec<Vec<u8>> = Vec::new();
        let mut error: Option<FramingError> = None;
        assert(views(frames@) =~= Seq::<Seq<u8>>::empty());
        loop
            invariant_except_break
                error == None::<FramingError>,
            invariant
                self.wf(),
                self.limit() == max,
                ready_frames(stream, max) == views(frames@) + ready_frames(self.buffered(), max),
                leftover(stream, max) == leftover(self.buffered(), max),
            ensures
                views(frames@) == ready_frames(stream, max),
                self.buffered() == leftover(stream, max),
                error == if overflows(stream, max) {
                    Some(FramingError::FrameTooLong)
                } else {
                    None::<FramingError>
                },
            decreases self.buffered().len(),
        {
            let ghost before = self.buffered();
            let ghost done = views(frames@);
            proof {
                lemma_find_byte_bounds(before, NEWLINE);
            }
            match self.next_frame() {
                Ok(Some(frame)) => {
                    frames.push(frame);
                    proof {
                        assert(views(frames@) =~= done + seq![first_frame(before)]);
                        assert(views(frames@) + ready_frames(self.buffered(), max) =~= done
                            + ready_frames(before, max));
                    }
                },
                Ok(None) => {
                    proof {
                        assert(done + ready_frames(before, max) =~= done);
                    }
                    break ;
                },
                Err(e) => {
                    error = Some(e);
                    proof {
                        assert(done + ready_frames(before, max) =~= done);
                    }
                    break ;
                },
            }
        }
        Decoded { frames, error }
    }
}

/// What one call of [`FrameDecoder::feed`] produced.
#[derive(Clone, Debug, PartialEq, Eq)]
pub struct Decoded {
    /// The frames that became complete, in stream order, without line feeds.
    pub frames: Vec<Vec<u8>>,
    /// Set when decoding stopped at a frame longer than the limit.
    pub error: Option<FramingError>,
}

/// Decoding does not depend on how the stream was cut into reads: the frames
/// of `a + b` are the frames of `a`, then the frames of what `a` left behind
/// followed by `b`, and the same bytes stay buffered at the end.
pub proof fn lemma_decode_in_parts(a: Seq<u8>, b: Seq<u8>, max: nat)
    ensures
        ready_frames(a + b, max) == ready_frames(a, max) + ready_frames(leftover(a, max) + b, max),
        leftover(a + b, max) == leftover(leftover(a, max) + b, max),
    decreases a.len(),
{
    lemma_find_byte_bounds(a, NEWLINE);
    if frame_ready(a, max) {
        let i = find_byte(a, NEWLINE) as int;
        assert forall|j: int| 0 <= j < i implies #[trigger] (a + b)[j] != NEWLINE by {
            assert((a + b)[j] == a[j]);
        }
        assert((a + b)[i] == a[i]);
        lemma_find_byte(a + b, NEWLINE, i);
        let rest = after_first_frame(a);
        assert(after_first_frame(a + b) =~= rest + b);
        assert(first_frame(a + b) =~= first_frame(a));
        lemma_decode_in_parts(rest, b, max);
        assert(ready_frames(a + b, max) =~= ready_frames(a, max) + ready_frames(
            leftover(a, max) + b,
            max,
        ));
    } else {
        assert(ready_frames(a, max) + ready_frames(a + b, max) =~= ready_frames(a + b, max));
    }
}

/// Nothing is lost or invented: the frames handed out, each with its line
/// feed, followed by what stays buffered, are the stream. No frame holds a
/// line feed or is longer than the limit.
pub proof fn lemma_decode_partition(buf: Seq<u8>, max: nat)
    ensures
        joined(ready_frames(buf, max)) + leftover(buf, max) == buf,
        forall|k: int|
            0 <= k < ready_frames(buf, max).len() ==> !(#[trigger] ready_frames(buf, max)[k])
                .contains(NEWLINE) && ready_frames(buf, max)[k].len() <= max,
        !overflows(buf, max) ==> !leftover(buf, max).contains(NEWLINE) && leftover(buf, max).len()
            <= max,
    decreases buf.len(),
{
    lemma_find_byte_bounds(buf, NEWLINE);
    if frame_ready(buf, max) {
        let rest = after_first_frame(buf);
        let fs = ready_frames(buf, max);
        lemma_decode_partition(rest, max);
        assert(fs.skip(1) =~= ready_frames(rest, max));
        assert(fs[0] == first_frame(buf));
        assert(encoded(first_frame(buf)) + rest =~= buf);
        assert(joined(fs) + leftover(buf, max) =~= encoded(first_frame(buf)) + (joined(
            ready_frames(rest, max),
        ) + leftover(rest, max)));
        assert forall|k: int| 0 <= k < fs.len() implies !(#[trigger] fs[k]).contains(NEWLINE)
            && fs[k].len() <= max by {
            if k > 0 {
                assert(fs[k] == ready_frames(rest, max)[k - 1]);
            }
        }
    } else {
        assert(joined(ready_frames(buf, max)) + buf =~= buf);
        if !overflows(buf, max) {
            lemma_find_byte_bounds(buf, NEWLINE);
        }
    }
}

/// What `encode` writes, a decoder reads back: text without a line feed and
/// within the limit comes out as exactly one frame, with nothing left over.
pub proof fn lemma_encode_then_decode(text: Seq<u8>, max: nat)
    requires
        !text.contains(NEWLINE),
        text.len() <= max,
    ensures
        ready_frames(encoded(text), max) == seq![text],
        leftover(encoded(text), max) == Seq::<u8>::empty(),
        !overflows(encoded(text), max),
{
    let e = encoded(text);
    assert forall|j: int| 0 <= j < text.len() implies #[trigger] e[j] != NEWLINE by {
        assert(e[j] == text[j]);
        assert(text.contains(text[j]));
    }
    lemma_find_byte(e, NEWLINE, text.len() as int);
    assert(first_frame(e) =~= text);
    let rest = after_first_frame(e);
    assert(rest =~= Seq::<u8>::empty());
    assert(frame_ready(e, max));
    assert(!frame_ready(rest, max));
    assert(ready_frames(rest, max) =~= Seq::<Seq<u8>>::empty());
    assert(leftover(rest, max) == rest);
    assert(ready_frames(e, max) =~= seq![text]);
}

} // verus!
