//! Request/response framing over a transport.
use vstd::prelude::*;
use crate::codec::{FrameCodec, MAX_FRAME_LEN, has_frame, poll_outcome, poll_rest};
use crate::command::LssCommand;
use crate::error::{LssError, ProtocolError};
use crate::response::LssResponse;
use crate::transport::Transport;

verus! {

/// Room left in the codec's buffer before it must give up on the link.
pub open spec fn room(len: nat) -> nat {
    if len < MAX_FRAME_LEN {
        (MAX_FRAME_LEN - len) as nat
    } else {
        0
    }
}

/// Where reads settle: starting from the buffer `buf` and appending the
/// chunks `chunks` one per read, the first buffer on which a look yields a
/// frame or an error, with the number of reads it took; `None` when the
/// chunks run out first.
pub open spec fn settle(buf: Seq<u8>, chunks: Seq<Seq<u8>>) -> Option<(Seq<u8>, nat)>
    decreases chunks.len(),
{
    if poll_outcome(buf) != Ok::<_, ProtocolError>(None::<Seq<u8>>) {
        Some((buf, 0))
    } else if chunks.len() == 0 {
        None
    } else {
        match settle(buf + chunks[0], chunks.skip(1)) {
            Some((s, k)) => Some((s, k + 1)),
            None => None,
        }
    }
}

/// A transport together with the buffer of bytes it has delivered and that
/// have not yet been returned as frames.
pub struct FramedDriver<T: Transport> {
    transport: T,
    codec: FrameCodec,
    sent: Ghost<Seq<Seq<u8>>>,
    received: Ghost<Seq<u8>>,
}

impl<T: Transport> FramedDriver<T> {
    /// The transport.
    pub closed spec fn link(&self) -> T {
        self.transport
    }

    /// The buffered bytes.
    pub closed spec fn buffer(&self) -> Seq<u8> {
        self.codec@
    }

    /// Every byte string handed to the transport, in order.
    pub closed spec fn sent_log(&self) -> Seq<Seq<u8>> {
        self.sent@
    }

    /// Every byte the transport delivered, in order.
    pub closed spec fn received_log(&self) -> Seq<u8> {
        self.received@
    }

    /// The bytes that `self` delivered on top of what `earlier` had.
    pub open spec fn read_since(&self, earlier: &Self) -> Seq<u8> {
        self.received_log().skip(earlier.received_log().len() as int)
    }

    /// `self` came from `earlier` by reads only: the log grew at its end.
    pub open spec fn extends(&self, earlier: &Self) -> bool {
        &&& self.received_log().len() >= earlier.received_log().len()
        &&& self.received_log().take(earlier.received_log().len() as int)
            == earlier.received_log()
    }

    /// Since `earlier`, the transport delivered bytes that completed the
    /// frame whose text is `text`, and that frame left the buffer.
    pub open spec fn replied(&self, earlier: &Self, text: Seq<u8>) -> bool {
        let seen = earlier.buffer() + self.read_since(earlier);
        &&& self.extends(earlier)
        &&& poll_outcome(seen) == Ok::<_, ProtocolError>(Some(text))
        &&& self.buffer() == poll_rest(seen)
    }

    /// Since `earlier`, exactly `frame` was handed to the transport and
    /// nothing was read.
    pub open spec fn sent_only(&self, earlier: &Self, frame: Seq<u8>) -> bool {
        &&& self.sent_log() == earlier.sent_log().push(frame)
        &&& self.buffer() == earlier.buffer()
        &&& self.received_log() == earlier.received_log()
    }

    /// Where a `receive` settles over the deliveries that the transport
    /// knows in advance (see `settle`).
    pub open spec fn settled(&self) -> Option<(Seq<u8>, nat)> {
        settle(self.buffer(), self.link().deliveries())
    }

    /// A driver over `transport` with an empty buffer.
    pub fn new(transport: T) -> (r: FramedDriver<T>)
        ensures
            r.link() == transport,
            r.buffer() == Seq::<u8>::empty(),
            r.sent_log() == Seq::<Seq<u8>>::empty(),
            r.received_log() == Seq::<u8>::empty(),
    {
        FramedDriver {
            transport,
            codec: FrameCodec::new(),
            sent: Ghost(Seq::empty()),
            received: Ghost(Seq::empty()),
        }
    }

    /// The transport, to look at.
    pub fn transport(&self) -> (r: &T)
        ensures
            *r == self.link(),
    {
        &self.transport
    }

    /// Number of bytes buffered but not yet returned as frames.
    pub fn buffered_len(&self) -> (r: usize)
        ensures
            r == self.buffer().len(),
    {
        self.codec.buffered_len()
    }

    /// Writes the frame of `command` to the transport in one call.
    pub fn send(&mut self, command: &LssCommand) -> (r: Result<(), LssError>)
        ensures
            final(self).sent_log() == old(self).sent_log().push(command.wire()),
            final(self).buffer() == old(self).buffer(),
            final(self).received_log() == old(self).received_log(),
            r == Ok::<(), LssError>(()) || r == Err::<(), LssError>(LssError::Io),
            r is Ok ==> final(self).link().wrote(&old(self).link(), command.wire()),
            old(self).link().accepts_all_writes() ==> r == Ok::<(), LssError>(()),
            old(self).link().rejects_all_writes() ==> r == Err::<(), LssError>(LssError::Io),
            final(self).link().accepts_all_writes() == old(self).link().accepts_all_writes(),
            final(self).link().rejects_all_writes() == old(self).link().rejects_all_writes(),
            final(self).link().deliveries() == old(self).link().deliveries(),
    {
        let bytes = command.serialize();
        self.sent = Ghost(self.sent@.push(bytes@));
        match self.transport.send_bytes(bytes.as_slice()) {
            Ok(()) => Ok(()),
            Err(_) => Err(LssError::Io),
        }
    }

    /// Waits for the next reply frame.
    ///
    /// A frame already in the buffer is returned without a read. Otherwise
    /// reads are appended to the buffer until it holds a frame end, or until
    /// it reaches `MAX_FRAME_LEN` bytes without one, or until a read fails.
    pub fn receive(&mut self) -> (r: Result<LssResponse, LssError>)
        ensures
            final(self).extends(&*old(self)),
            final(self).sent_log() == old(self).sent_log(),
            has_frame(old(self).buffer()) ==> final(self).received_log() == old(self).received_log()
                && final(self).link() == old(self).link(),
            old(self).settled() matches Some((s, k)) ==> !(r matches Err(LssError::Io)) && old(
                self,
            ).buffer() + final(self).read_since(&*old(self)) == s && final(self).link().deliveries()
                == old(self).link().deliveries().skip(k as int),
            old(self).buffer().len() >= MAX_FRAME_LEN && !has_frame(old(self).buffer()) ==> (r matches Err(
                LssError::Protocol(ProtocolError::FrameTooLong),
            ) && final(self).received_log() == old(self).received_log()),
            final(self).link().accepts_all_writes() == old(self).link().accepts_all_writes(),
            final(self).link().rejects_all_writes() == old(self).link().rejects_all_writes(),
            ({
                let seen = old(self).buffer() + final(self).read_since(&*old(self));
                match r {
                    Ok(resp) => poll_outcome(seen) == Ok::<_, ProtocolError>(Some(resp@))
                        && final(self).buffer() == poll_rest(seen),
                    Err(LssError::Protocol(e)) => poll_outcome(seen) == Err::<Option<Seq<u8>>, _>(e)
                        && final(self).buffer() == poll_rest(seen),
                    Err(LssError::Io) => poll_outcome(seen) == Ok::<_, ProtocolError>(
                        None::<Seq<u8>>,
                    ) && final(self).buffer() == seen,
                }
            }),
    {
        let ghost start_buf = self.codec@;
        let ghost start_log = self.received@;
        let ghost chunks = self.transport.deliveries();
        let ghost mut reads: int = 0;
        assert(chunks.skip(0) =~= chunks);
        loop
            invariant
                self.received@.len() >= start_log.len(),
                self.received@.take(start_log.len() as int) == start_log,
                self.codec@ == start_buf + self.received@.skip(start_log.len() as int),
                self.sent@ == old(self).sent@,
                start_buf == old(self).codec@,
                start_log == old(self).received@,
                (has_frame(start_buf) || start_buf.len() >= MAX_FRAME_LEN) ==> (self.received@
                    == start_log && self.transport == old(self).transport),
                self.received@ == start_log ==> self.transport == old(self).transport,
                self.transport.accepts_all_writes() == old(self).transport.accepts_all_writes(),
                self.transport.rejects_all_writes() == old(self).transport.rejects_all_writes(),
                chunks == old(self).transport.deliveries(),
                old(self).settled() matches Some((s, kk)) ==> (0 <= reads <= kk && reads
                    <= chunks.len() && settle(
                    self.codec@,
                    chunks.skip(reads),
                ) == Some((s, (kk - reads) as nat)) && self.transport.deliveries() == chunks.skip(
                    reads,
                )),
            decreases room(self.codec@.len()),
        {
            proof {
                if self.received@ == start_log {
                    assert(self.received@.skip(start_log.len() as int) =~= Seq::<u8>::empty());
                    assert(self.codec@ =~= start_buf);
                }
            }
            match self.codec.next_frame() {
                Ok(Some(resp)) => {
                    return Ok(resp);
                },
                Err(e) => {
                    return Err(e);
                },
                Ok(None) => {},
            }
            let ghost rest = chunks.skip(reads);
            proof {
                if old(self).settled() is Some {
                    assert(rest.len() > 0);
                    assert(0 <= reads < chunks.len());
                }
            }
            match self.transport.read_chunk() {
                Ok(chunk) => {
                    proof {
                        if old(self).settled() is Some {
                            assert(rest.skip(1) =~= chunks.skip(reads + 1));
                        }
                        reads = reads + 1;
                    }
                    let ghost before = self.received@;
                    self.received = Ghost(self.received@ + chunk@);
                    assert(self.received@.take(start_log.len() as int) =~= before.take(
                        start_log.len() as int,
                    ));
                    assert(self.received@.skip(start_log.len() as int) =~= before.skip(
                        start_log.len() as int,
                    ) + chunk@);
                    self.codec.push_bytes(chunk);
                },
                Err(_) => {
                    return Err(LssError::Io);
                },
            }
        }
    }
}

} // verus!
