//! The byte transport under the codec, and a scripted stand-in for tests.
use vstd::prelude::*;
use vstd::slice::slice_to_vec;
use crate::error::IoError;

verus! {

/// A byte stream to the servos: a serial line, a socket, or a test double.
pub trait Transport: Sized {
    /// Whether every write on this link succeeds. By default nothing is
    /// known of that.
    open spec fn accepts_all_writes(&self) -> bool {
        false
    }

    /// Whether every write on this link fails. By default nothing is known
    /// of that.
    open spec fn rejects_all_writes(&self) -> bool {
        false
    }

    /// Whether going from `before` to `self` put exactly `bytes` on the
    /// link. By default this says nothing.
    open spec fn wrote(&self, before: &Self, bytes: Seq<u8>) -> bool {
        true
    }

    /// The chunks that the next reads deliver, one per read, as far as they
    /// are known in advance. By default none is.
    open spec fn deliveries(&self) -> Seq<Seq<u8>> {
        Seq::empty()
    }

    /// Whether opening `port` at `baud_rate` is known to succeed. By default
    /// it is not.
    open spec fn opens(port: Seq<char>, baud_rate: u32) -> bool {
        false
    }

    /// Whether the link was opened as `port` at `baud_rate`. By default
    /// nothing is recorded, and this says nothing.
    open spec fn opened_on(&self, port: Seq<char>, baud_rate: u32) -> bool {
        true
    }

    /// Opens the link called `port` at `baud_rate` bits per second.
    fn open(port: &str, baud_rate: u32) -> (r: Result<Self, IoError>)
        ensures
            r matches Ok(t) ==> t.opened_on(port@, baud_rate),
            Self::opens(port@, baud_rate) ==> r is Ok,
    ;

    /// Writes all of `bytes`, retrying partial writes, or fails.
    fn send_bytes(&mut self, bytes: &[u8]) -> (r: Result<(), IoError>)
        ensures
            r is Ok ==> final(self).wrote(&*old(self), bytes@),
            old(self).accepts_all_writes() ==> r is Ok,
            old(self).rejects_all_writes() ==> r is Err,
            final(self).accepts_all_writes() == old(self).accepts_all_writes(),
            final(self).rejects_all_writes() == old(self).rejects_all_writes(),
            final(self).deliveries() == old(self).deliveries(),
    ;

    /// Waits for bytes from the link and returns those that arrived: at
    /// least one, and any number of frames or parts of frames. A link that
    /// stays silent keeps the caller waiting here.
    fn read_chunk(&mut self) -> (r: Result<Vec<u8>, IoError>)
        ensures
            r matches Ok(chunk) ==> chunk@.len() > 0,
            old(self).deliveries().len() > 0 ==> (r matches Ok(chunk) && chunk@
                == old(self).deliveries()[0] && final(self).deliveries() == old(
                self,
            ).deliveries().skip(1)),
            final(self).accepts_all_writes() == old(self).accepts_all_writes(),
            final(self).rejects_all_writes() == old(self).rejects_all_writes(),
    ;
}

/// The non-empty chunks of `chunks`, in order.
pub open spec fn nonempty_chunks(chunks: Seq<Seq<u8>>) -> Seq<Seq<u8>>
    decreases chunks.len(),
{
    if chunks.len() == 0 {
        Seq::empty()
    } else if chunks[0].len() > 0 {
        seq![chunks[0]] + nonempty_chunks(chunks.skip(1))
    } else {
        nonempty_chunks(chunks.skip(1))
    }
}

proof fn lemma_nonempty_chunks_at(chunks: Seq<Seq<u8>>, k: int)
    requires
        0 <= k < chunks.len(),
        chunks[k].len() > 0,
        forall|j: int| 0 <= j < k ==> (#[trigger] chunks[j]).len() == 0,
    ensures
        nonempty_chunks(chunks) == seq![chunks[k]] + nonempty_chunks(chunks.skip(k + 1)),
    decreases k,
{
    if k > 0 {
        assert forall|j: int| 0 <= j < k - 1 implies (#[trigger] chunks.skip(1)[j]).len() == 0 by {
            assert(chunks.skip(1)[j] == chunks[j + 1]);
        }
        lemma_nonempty_chunks_at(chunks.skip(1), k - 1);
        assert(chunks.skip(1).skip(k) =~= chunks.skip(k + 1));
    }
}

proof fn lemma_nonempty_chunks_none(chunks: Seq<Seq<u8>>)
    requires
        forall|j: int| 0 <= j < chunks.len() ==> (#[trigger] chunks[j]).len() == 0,
    ensures
        nonempty_chunks(chunks) == Seq::<Seq<u8>>::empty(),
    decreases chunks.len(),
{
    if chunks.len() > 0 {
        assert forall|j: int| 0 <= j < chunks.len() - 1 implies (#[trigger] chunks.skip(1)[j]).len()
            == 0 by {
            assert(chunks.skip(1)[j] == chunks[j + 1]);
        }
        lemma_nonempty_chunks_none(chunks.skip(1));
    }
}

/// A transport that replays chunks given in advance and records what was sent.
pub struct ScriptedTransport {
    incoming: Vec<Vec<u8>>,
    sent: Vec<Vec<u8>>,
    opened: Option<(String, u32)>,
    refuses_writes: bool,
}

pub open spec fn bytes_of(chunks: Seq<Vec<u8>>) -> Seq<Seq<u8>> {
    chunks.map_values(|c: Vec<u8>| c@)
}

impl ScriptedTransport {
    /// Chunks still to be delivered, in order.
    pub closed spec fn pending(&self) -> Seq<Seq<u8>> {
        bytes_of(self.incoming@)
    }

    /// Byte strings written so far, in order.
    pub closed spec fn sent_spec(&self) -> Seq<Seq<u8>> {
        bytes_of(self.sent@)
    }

    /// A transport that will deliver `incoming`, one chunk per read.
    pub fn new(incoming: Vec<Vec<u8>>) -> (r: ScriptedTransport)
        ensures
            r.pending() == bytes_of(incoming@),
            r.sent_spec() == Seq::<Seq<u8>>::empty(),
            r.accepts_all_writes(),
            r.deliveries() == nonempty_chunks(bytes_of(incoming@)),
    {
        let r = ScriptedTransport { incoming, sent: Vec::new(), opened: None, refuses_writes: false };
        assert(r.sent_spec() =~= Seq::<Seq<u8>>::empty());
        r
    }

    /// A transport that will deliver `incoming`, one chunk per read, and
    /// refuses every write.
    pub fn refusing_writes(incoming: Vec<Vec<u8>>) -> (r: ScriptedTransport)
        ensures
            r.pending() == bytes_of(incoming@),
            r.sent_spec() == Seq::<Seq<u8>>::empty(),
            r.rejects_all_writes(),
            r.deliveries() == nonempty_chunks(bytes_of(incoming@)),
    {
        let r = ScriptedTransport { incoming, sent: Vec::new(), opened: None, refuses_writes: true };
        assert(r.sent_spec() =~= Seq::<Seq<u8>>::empty());
        r
    }

    /// Copies of the byte strings written so far.
    pub fn sent(&self) -> (r: &Vec<Vec<u8>>)
        ensures
            bytes_of(r@) == self.sent_spec(),
    {
        &self.sent
    }

    /// Number of chunks not yet delivered.
    pub fn pending_len(&self) -> (r: usize)
        ensures
            r == self.pending().len(),
    {
        self.incoming.len()
    }

    /// Records a write.
    pub fn record(&mut self, bytes: &[u8])
        ensures
            final(self).sent_spec() == old(self).sent_spec().push(bytes@),
            final(self).pending() == old(self).pending(),
            final(self).accepts_all_writes() == old(self).accepts_all_writes(),
            final(self).rejects_all_writes() == old(self).rejects_all_writes(),
    {
        self.sent.push(slice_to_vec(bytes));
        assert(final(self).sent_spec() =~= old(self).sent_spec().push(bytes@));
    }

    /// Delivers the next non-empty chunk of the script, skipping empty ones;
    /// `None` once the script is used up.
    pub fn next_chunk(&mut self) -> (r: Option<Vec<u8>>)
        ensures
            final(self).sent_spec() == old(self).sent_spec(),
            final(self).accepts_all_writes() == old(self).accepts_all_writes(),
            final(self).rejects_all_writes() == old(self).rejects_all_writes(),
            match r {
                Some(c) => c@.len() > 0 && exists|k: int|
                    0 <= k < old(self).pending().len() && c@ == old(self).pending()[k]
                        && final(self).pending() == old(self).pending().skip(k + 1) && forall|
                        j: int,
                    | 0 <= j < k ==> (#[trigger] old(self).pending()[j]).len() == 0,
                None => final(self).pending().len() == 0 && forall|j: int|
                    0 <= j < old(self).pending().len() ==> (
                    #[trigger] old(self).pending()[j]).len() == 0,
            },
    {
        let ghost start = self.pending();
        let ghost mut k: int = 0;
        while self.incoming.len() > 0
            invariant
                0 <= k <= start.len(),
                self.pending() == start.skip(k),
                self.sent_spec() == old(self).sent_spec(),
                self.refuses_writes == old(self).refuses_writes,
                start == old(self).pending(),
                forall|j: int| 0 <= j < k ==> (#[trigger] start[j]).len() == 0,
            decreases self.incoming@.len(),
        {
            let ghost before = self.incoming@;
            assert(bytes_of(before).len() == before.len());
            assert(bytes_of(before)[0] == before[0]@);
            assert(start.skip(k)[0] == start[k]);
            let chunk = self.incoming.remove(0);
            assert(bytes_of(self.incoming@) =~= bytes_of(before).skip(1));
            assert(start.skip(k).skip(1) =~= start.skip(k + 1));
            if chunk.len() > 0 {
                return Some(chunk);
            }
            proof {
                k = k + 1;
            }
        }
        assert(k == start.len());
        None
    }
}

impl Transport for ScriptedTransport {
    /// Unless it was made to refuse them, every write is recorded.
    closed spec fn accepts_all_writes(&self) -> bool {
        !self.refuses_writes
    }

    closed spec fn rejects_all_writes(&self) -> bool {
        self.refuses_writes
    }

    /// The non-empty chunks still in the script.
    closed spec fn deliveries(&self) -> Seq<Seq<u8>> {
        nonempty_chunks(bytes_of(self.incoming@))
    }

    /// The write left the script alone and was recorded after the others.
    closed spec fn wrote(&self, before: &Self, bytes: Seq<u8>) -> bool {
        self.sent_spec() == before.sent_spec().push(bytes) && self.pending() == before.pending()
    }

    /// Opening by name always succeeds.
    open spec fn opens(port: Seq<char>, baud_rate: u32) -> bool {
        true
    }

    /// The name and speed it was opened with, if it was opened by name.
    closed spec fn opened_on(&self, port: Seq<char>, baud_rate: u32) -> bool {
        self.opened matches Some((p, b)) && p@ == port && b == baud_rate
    }

    /// A scripted transport opened by name starts with an empty script.
    fn open(port: &str, baud_rate: u32) -> (r: Result<ScriptedTransport, IoError>) {
        Ok(
            ScriptedTransport {
                incoming: Vec::new(),
                sent: Vec::new(),
                opened: Some((port.to_owned(), baud_rate)),
                refuses_writes: false,
            },
        )
    }

    fn send_bytes(&mut self, bytes: &[u8]) -> (r: Result<(), IoError>) {
        if self.refuses_writes {
            return Err(IoError);
        }
        self.record(bytes);
        Ok(())
    }

    fn read_chunk(&mut self) -> (r: Result<Vec<u8>, IoError>) {
        let ghost start = self.pending();
        match self.next_chunk() {
            Some(c) => {
                proof {
                    let k = choose|k: int|
                        0 <= k < start.len() && c@ == start[k] && self.pending() == start.skip(k + 1)
                            && forall|j: int| 0 <= j < k ==> (#[trigger] start[j]).len() == 0;
                    lemma_nonempty_chunks_at(start, k);
                    assert(self.pending() == start.skip(k + 1));
                    assert((seq![start[k]] + nonempty_chunks(start.skip(k + 1))).skip(1)
                        =~= nonempty_chunks(start.skip(k + 1)));
                }
                Ok(c)
            },
            None => {
                proof {
                    lemma_nonempty_chunks_none(start);
                }
                Err(IoError)
            },
        }
    }
}

} // verus!
