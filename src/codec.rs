//! Delimiter framing of the incoming byte stream.
use vstd::prelude::*;
use crate::error::{LssError, ProtocolError, lift};
use crate::response::LssResponse;
use crate::wire::{FRAME_END, REPLY_START, span, lemma_span_at};

verus! {

/// Bytes the codec holds without a frame end before it gives up on the link.
pub const MAX_FRAME_LEN: usize = 128;

pub open spec fn not_end() -> spec_fn(u8) -> bool {
    |b: u8| b != FRAME_END
}

/// Index of the first frame end in `buf`, or its length when there is none.
pub open spec fn frame_len(buf: Seq<u8>) -> nat {
    span(buf, not_end())
}

/// Whether `buf` holds a complete frame.
pub open spec fn has_frame(buf: Seq<u8>) -> bool {
    frame_len(buf) < buf.len()
}

pub open spec fn not_marker() -> spec_fn(u8) -> bool {
    |b: u8| b != REPLY_START
}

/// A frame's text: the bytes after its start marker `*` (after the first,
/// if there are several) up to its terminator; the whole frame when it has
/// no marker.
pub open spec fn payload(frame: Seq<u8>) -> Seq<u8> {
    let m = span(frame, not_marker());
    if m < frame.len() {
        frame.skip(m + 1int)
    } else {
        frame
    }
}

/// What one look at the buffer `buf` yields: the text of its first frame, or
/// nothing yet, or a failure once the bound is reached without a frame end.
pub open spec fn poll_outcome(buf: Seq<u8>) -> Result<Option<Seq<u8>>, ProtocolError> {
    if has_frame(buf) {
        Ok(Some(payload(buf.take(frame_len(buf) as int))))
    } else if buf.len() >= MAX_FRAME_LEN {
        Err(ProtocolError::FrameTooLong)
    } else {
        Ok(None)
    }
}

/// The buffer after that look: what follows the consumed terminator; nothing
/// after an overflow; unchanged while no frame is complete.
pub open spec fn poll_rest(buf: Seq<u8>) -> Seq<u8> {
    if has_frame(buf) {
        buf.skip(frame_len(buf) + 1int)
    } else if buf.len() >= MAX_FRAME_LEN {
        Seq::empty()
    } else {
        buf
    }
}

/// Fragmentation does not matter: when one frame reaches the codec in two
/// reads split at any byte, the first part yields nothing and stays
/// buffered, and after the second the codec yields the same frame and keeps
/// the same leftover as after a single read of the whole frame.
pub proof fn lemma_split_read(frame: Seq<u8>, k: int)
    requires
        0 < k < frame.len() <= MAX_FRAME_LEN,
        single_frame(frame),
    ensures
        poll_outcome(frame.take(k)) == Ok::<_, ProtocolError>(None::<Seq<u8>>),
        poll_rest(frame.take(k)) == frame.take(k),
        poll_outcome(poll_rest(frame.take(k)) + frame.skip(k)) == poll_outcome(frame),
        poll_rest(poll_rest(frame.take(k)) + frame.skip(k)) == poll_rest(frame),
{
    let head = frame.take(k);
    assert forall|j: int| 0 <= j < k implies not_end()(#[trigger] head[j]) by {
        assert(head[j] == frame.drop_last()[j]);
    }
    lemma_span_at(head, not_end(), k);
    assert(head + frame.skip(k) =~= frame);
}

/// A single frame: its terminator is its last byte and its only one.
pub open spec fn single_frame(frame: Seq<u8>) -> bool {
    frame.len() > 0 && frame.last() == FRAME_END && !frame.drop_last().contains(FRAME_END)
}

/// The first frame of `frame` followed by anything is found at its terminator.
proof fn lemma_first_frame(frame: Seq<u8>, tail: Seq<u8>)
    requires
        single_frame(frame),
    ensures
        has_frame(frame + tail),
        frame_len(frame + tail) == frame.len() - 1,
        (frame + tail).take(frame.len() - 1) == frame.drop_last(),
        (frame + tail).skip(frame.len() as int) == tail,
{
    let buf = frame + tail;
    let n = frame.len() - 1;
    assert forall|j: int| 0 <= j < n implies not_end()(#[trigger] buf[j]) by {
        assert(buf[j] == frame.drop_last()[j]);
    }
    assert(buf[n] == frame.last());
    lemma_span_at(buf, not_end(), n);
    assert(buf.take(n) =~= frame.drop_last());
    assert(buf.skip(frame.len() as int) =~= tail);
}

/// Frames that arrive together come out one by one, in order: the first
/// look at a buffer holding two frames yields the first and keeps exactly
/// the second, and the next look yields the second and leaves nothing.
pub proof fn lemma_two_frames(first: Seq<u8>, second: Seq<u8>)
    requires
        single_frame(first),
        single_frame(second),
    ensures
        poll_outcome(first + second) == Ok::<_, ProtocolError>(Some(payload(first.drop_last()))),
        poll_rest(first + second) == second,
        poll_outcome(poll_rest(first + second)) == Ok::<_, ProtocolError>(
            Some(payload(second.drop_last())),
        ),
        poll_rest(poll_rest(first + second)) == Seq::<u8>::empty(),
{
    lemma_first_frame(first, second);
    lemma_first_frame(second, Seq::empty());
    assert(second + Seq::<u8>::empty() =~= second);
}

/// The texts of the frames that a result carries.
pub open spec fn frame_view(r: Result<Option<LssResponse>, LssError>) -> Result<
    Option<Seq<u8>>,
    LssError,
> {
    match r {
        Ok(Some(resp)) => Ok(Some(resp@)),
        Ok(None) => Ok(None),
        Err(e) => Err(e),
    }
}

/// The buffer of bytes read but not yet returned as frames.
pub struct FrameCodec {
    buffer: Vec<u8>,
}

impl View for FrameCodec {
    type V = Seq<u8>;

    closed spec fn view(&self) -> Seq<u8> {
        self.buffer@
    }
}

impl FrameCodec {
    /// A codec with an empty buffer.
    pub fn new() -> (r: FrameCodec)
        ensures
            r@ == Seq::<u8>::empty(),
    {
        FrameCodec { buffer: Vec::new() }
    }

    /// Number of buffered bytes.
    pub fn buffered_len(&self) -> (r: usize)
        ensures
            r == self@.len(),
    {
        self.buffer.len()
    }

    /// Appends what the transport delivered.
    pub fn push_bytes(&mut self, chunk: Vec<u8>)
        ensures
            final(self)@ == old(self)@ + chunk@,
    {
        let mut chunk = chunk;
        self.buffer.append(&mut chunk);
    }

    /// Takes the first complete frame out of the buffer, if there is one.
    ///
    /// The scan starts at the front of the buffer every time, and what follows
    /// the terminator stays for the next call.
    pub fn next_frame(&mut self) -> (r: Result<Option<LssResponse>, LssError>)
        ensures
            frame_view(r) == lift(poll_outcome(old(self)@)),
            final(self)@ == poll_rest(old(self)@),
    {
        let len = self.buffer.len();
        let mut t: usize = 0;
        while t < len && self.buffer[t] != FRAME_END
            invariant
                t <= len == self.buffer@.len(),
                forall|j: int| 0 <= j < t ==> #[trigger] self.buffer@[j] != FRAME_END,
            decreases len - t,
        {
            t = t + 1;
        }
        proof {
            lemma_span_at(self.buffer@, not_end(), t as int);
        }
        if t < len {
            let ghost whole = self.buffer@;
            let mut frame = self.buffer.split_off(t + 1);
            core::mem::swap(&mut self.buffer, &mut frame);
            frame.pop();
            assert(frame@ =~= whole.take(t as int));
            let flen = frame.len();
            let mut m: usize = 0;
            while m < flen && frame[m] != REPLY_START
                invariant
                    m <= flen == frame@.len(),
                    forall|j: int| 0 <= j < m ==> #[trigger] frame@[j] != REPLY_START,
                decreases flen - m,
            {
                m = m + 1;
            }
            proof {
                lemma_span_at(frame@, not_marker(), m as int);
            }
            if m < flen {
                frame = frame.split_off(m + 1);
            }
            Ok(Some(LssResponse::from_bytes(frame)))
        } else if len >= MAX_FRAME_LEN {
            self.buffer.clear();
            Err(LssError::Protocol(ProtocolError::FrameTooLong))
        } else {
            Ok(None)
        }
    }
}

} // verus!
