//! One peer as its worker sees it: what readiness it waits for, the bytes
//! queued for it, and the decoder for the bytes it sends. The socket itself
//! stays with whoever drives the event loop, which reports what each read and
//! write did; what follows from that is decided here.

use crate::chunker::{concat, Chunker};
use crate::frame::{split_frames, views, DecodeError};
use vstd::prelude::*;
use vstd::slice::slice_subrange;

verus! {

/// A set of readiness kinds: what a connection waits for, or what an event
/// reports.
#[derive(Debug, Clone, Copy, PartialEq, Eq, Structural)]
pub struct EventSet {
    pub readable: bool,
    pub writable: bool,
    pub error: bool,
    pub hup: bool,
}

impl EventSet {
    /// The set that holds every kind of either set.
    pub open spec fn union(self, other: EventSet) -> EventSet {
        EventSet {
            readable: self.readable || other.readable,
            writable: self.writable || other.writable,
            error: self.error || other.error,
            hup: self.hup || other.hup,
        }
    }

    /// The set that holds the kinds of `self` that `other` lacks.
    pub open spec fn minus(self, other: EventSet) -> EventSet {
        EventSet {
            readable: self.readable && !other.readable,
            writable: self.writable && !other.writable,
            error: self.error && !other.error,
            hup: self.hup && !other.hup,
        }
    }

    /// Whether every kind of `other` is in `self`.
    pub open spec fn includes(self, other: EventSet) -> bool {
        &&& other.readable ==> self.readable
        &&& other.writable ==> self.writable
        &&& other.error ==> self.error
        &&& other.hup ==> self.hup
    }

    pub open spec fn spec_none() -> EventSet {
        EventSet { readable: false, writable: false, error: false, hup: false }
    }

    pub open spec fn spec_readable() -> EventSet {
        EventSet { readable: true, writable: false, error: false, hup: false }
    }

    pub open spec fn spec_writable() -> EventSet {
        EventSet { readable: false, writable: true, error: false, hup: false }
    }

    pub open spec fn spec_error() -> EventSet {
        EventSet { readable: false, writable: false, error: true, hup: false }
    }

    pub open spec fn spec_hup() -> EventSet {
        EventSet { readable: false, writable: false, error: false, hup: true }
    }

    #[verifier::when_used_as_spec(spec_none)]
    pub fn none() -> (s: EventSet)
        ensures
            s == Self::spec_none(),
    {
        EventSet { readable: false, writable: false, error: false, hup: false }
    }

    #[verifier::when_used_as_spec(spec_readable)]
    pub fn readable() -> (s: EventSet)
        ensures
            s == Self::spec_readable(),
    {
        EventSet { readable: true, writable: false, error: false, hup: false }
    }

    #[verifier::when_used_as_spec(spec_writable)]
    pub fn writable() -> (s: EventSet)
        ensures
            s == Self::spec_writable(),
    {
        EventSet { readable: false, writable: true, error: false, hup: false }
    }

    #[verifier::when_used_as_spec(spec_error)]
    pub fn error() -> (s: EventSet)
        ensures
            s == Self::spec_error(),
    {
        EventSet { readable: false, writable: false, error: true, hup: false }
    }

    #[verifier::when_used_as_spec(spec_hup)]
    pub fn hup() -> (s: EventSet)
        ensures
            s == Self::spec_hup(),
    {
        EventSet { readable: false, writable: false, error: false, hup: true }
    }

    pub fn is_readable(&self) -> (b: bool)
        ensures
            b == self.readable,
    {
        self.readable
    }

    pub fn is_writable(&self) -> (b: bool)
        ensures
            b == self.writable,
    {
        self.writable
    }

    pub fn is_error(&self) -> (b: bool)
        ensures
            b == self.error,
    {
        self.error
    }

    pub fn is_hup(&self) -> (b: bool)
        ensures
            b == self.hup,
    {
        self.hup
    }

    /// Adds the kinds of `other`.
    pub fn insert(&mut self, other: EventSet)
        ensures
            *final(self) == old(self).union(other),
    {
        self.readable = self.readable || other.readable;
        self.writable = self.writable || other.writable;
        self.error = self.error || other.error;
        self.hup = self.hup || other.hup;
    }

    /// Takes out the kinds of `other`.
    pub fn remove(&mut self, other: EventSet)
        ensures
            *final(self) == old(self).minus(other),
    {
        self.readable = self.readable && !other.readable;
        self.writable = self.writable && !other.writable;
        self.error = self.error && !other.error;
        self.hup = self.hup && !other.hup;
    }

    pub fn contains(&self, other: EventSet) -> (b: bool)
        ensures
            b == self.includes(other),
    {
        (!other.readable || self.readable) && (!other.writable || self.writable) && (!other.error
            || self.error) && (!other.hup || self.hup)
    }
}

/// What to hand to the event loop to arm a connection: readiness fires once
/// per change (`edge`) and must be armed again after each event (`oneshot`).
#[derive(Debug, Clone, Copy, PartialEq, Eq, Structural)]
pub struct Registration {
    pub token: usize,
    pub interest: EventSet,
    pub edge: bool,
    pub oneshot: bool,
}

/// What a non-blocking read or write on the socket did.
#[derive(Debug, Clone, Copy, PartialEq, Eq, Structural)]
pub enum IoOutcome {
    /// Nothing could be moved now.
    WouldBlock,
    /// This many bytes were moved.
    Moved(usize),
    /// The socket failed.
    Failed,
}

/// What to do after a write was reported.
#[derive(Debug, Clone, Copy, PartialEq, Eq, Structural)]
pub enum WriteStep {
    /// A buffer went out whole and another waits: write again.
    Continue,
    /// Stop writing and arm the connection again.
    Rearm,
    /// The connection is broken: remove it.
    Reset,
}

pub struct Connection {
    token: usize,
    interest: EventSet,
    send_queue: Vec<Vec<u8>>,
    sent: usize,
    chunker: Chunker,
}

impl Connection {
    pub closed spec fn spec_token(&self) -> usize {
        self.token
    }

    /// The identifier under which the connection is registered.
    #[verifier::when_used_as_spec(spec_token)]
    pub fn token(&self) -> (t: usize)
        ensures
            t == self.token(),
    {
        self.token
    }

    /// The readiness kinds the connection waits for.
    pub closed spec fn interest(&self) -> EventSet {
        self.interest
    }

    /// The queued buffers, oldest first.
    pub closed spec fn queue(&self) -> Seq<Seq<u8>> {
        views(self.send_queue@)
    }

    /// How many bytes of the oldest buffer have been written already.
    pub closed spec fn sent(&self) -> int {
        self.sent as int
    }

    /// The received bytes that the decoder still holds.
    pub closed spec fn buffered(&self) -> Seq<u8> {
        self.chunker@
    }

    pub closed spec fn decoder_wf(&self) -> bool {
        self.chunker.wf()
    }

    /// The bytes still to be written, in the order in which they will go out.
    pub open spec fn outstanding(&self) -> Seq<u8> {
        concat(self.queue()).skip(self.sent())
    }

    /// The invariant of a connection: it always waits for hang-up and for
    /// readability, it waits for writability exactly while something is
    /// queued, and the written part of the oldest buffer lies within it.
    pub open spec fn wf(&self) -> bool {
        &&& self.decoder_wf()
        &&& self.interest().hup
        &&& self.interest().readable
        &&& !self.interest().error
        &&& self.interest().writable == (self.queue().len() > 0)
        &&& if self.queue().len() > 0 {
            0 <= self.sent() <= self.queue()[0].len()
        } else {
            self.sent() == 0
        }
    }

    /// What `new` returns for `token`.
    pub open spec fn is_new(&self, token: usize) -> bool {
        &&& self.wf()
        &&& self.token() == token
        &&& self.interest() == EventSet::spec_hup().union(EventSet::spec_readable())
        &&& self.queue() == Seq::<Seq<u8>>::empty()
        &&& self.buffered() == Seq::<u8>::empty()
    }

    /// A connection that nothing was sent to or received from yet. It waits
    /// for hang-up and for readability, and its decoder is at a header.
    pub fn new(token: usize) -> (c: Connection)
        ensures
            c.is_new(token),
    {
        let mut interest = EventSet::hup();
        interest.insert(EventSet::readable());
        let c = Connection {
            token,
            interest,
            send_queue: Vec::new(),
            sent: 0,
            chunker: Chunker::new(),
        };
        assert(c.queue() =~= Seq::<Seq<u8>>::empty());
        c
    }

    /// Says how to arm the connection for the first time: for what it waits
    /// for, edge-triggered, one shot. The connection is left as it is.
    pub fn register(&mut self) -> (r: Registration)
        requires
            old(self).wf(),
        ensures
            *final(self) == *old(self),
            r == (Registration {
                token: old(self).token(),
                interest: old(self).interest(),
                edge: true,
                oneshot: true,
            }),
    {
        Registration { token: self.token, interest: self.interest, edge: true, oneshot: true }
    }

    /// Says how to arm the connection again, with what it waits for now.
    pub fn reregister(&self) -> (r: Registration)
        ensures
            r == (Registration {
                token: self.token(),
                interest: self.interest(),
                edge: true,
                oneshot: true,
            }),
    {
        Registration { token: self.token, interest: self.interest, edge: true, oneshot: true }
    }

    /// Queues `message` behind everything queued before and starts waiting
    /// for writability.
    pub fn send_message(&mut self, message: Vec<u8>)
        requires
            old(self).wf(),
        ensures
            final(self).wf(),
            final(self).queue() == old(self).queue().push(message@),
            final(self).outstanding() == old(self).outstanding() + message@,
            final(self).interest() == old(self).interest().union(EventSet::spec_writable()),
            final(self).token() == old(self).token(),
            final(self).sent() == old(self).sent(),
            final(self).buffered() == old(self).buffered(),
    {
        proof {
            lemma_concat_push(self.queue(), message@);
            lemma_concat_first(self.queue());
        }
        self.send_queue.push(message);
        self.interest.insert(EventSet::writable());
        proof {
            assert(self.queue() =~= old(self).queue().push(message@));
            assert(self.outstanding() =~= old(self).outstanding() + message@);
        }
    }

    /// The bytes to offer to the socket next: the unwritten part of the oldest
    /// buffer. `None` when nothing is queued.
    pub fn next_write(&self) -> (r: Option<&[u8]>)
        requires
            self.wf(),
        ensures
            r is None <==> self.queue().len() == 0,
            r matches Some(bytes) ==> bytes@ == self.queue()[0].skip(self.sent()) && bytes@
                == self.outstanding().take(bytes@.len() as int),
    {
        if self.send_queue.len() == 0 {
            None
        } else {
            let head = &self.send_queue[0];
            let bytes = slice_subrange(head.as_slice(), self.sent, head.len());
            proof {
                lemma_concat_first(self.queue());
                assert(bytes@ =~= self.queue()[0].skip(self.sent()));
                assert(bytes@ =~= self.outstanding().take(bytes@.len() as int));
            }
            Some(bytes)
        }
    }

    /// Takes note of what writing `next_write()` to the socket did. Written
    /// bytes leave the front of `outstanding()`; a buffer that went out whole
    /// leaves the queue; when the queue runs empty the connection stops
    /// waiting for writability. A would-block or a partial write ends the
    /// round; a failure, or a count beyond what was offered, asks for reset.
    pub fn writable(&mut self, outcome: IoOutcome) -> (step: WriteStep)
        requires
            old(self).wf(),
        ensures
            final(self).wf(),
            final(self).token() == old(self).token(),
            final(self).buffered() == old(self).buffered(),
            wrote(*old(self), outcome, *final(self), step),
    {
        match outcome {
            IoOutcome::Failed => WriteStep::Reset,
            IoOutcome::WouldBlock => WriteStep::Rearm,
            IoOutcome::Moved(n) => {
                if self.send_queue.len() == 0 {
                    return WriteStep::Rearm;
                }
                let head_len = self.send_queue[0].len();
                if n > head_len - self.sent {
                    return WriteStep::Reset;
                }
                proof {
                    lemma_concat_first(self.queue());
                }
                if self.sent + n < head_len {
                    self.sent = self.sent + n;
                    assert(self.outstanding() =~= old(self).outstanding().skip(n as int));
                    WriteStep::Rearm
                } else {
                    let _ = self.send_queue.remove(0);
                    self.sent = 0;
                    proof {
                        assert(self.queue() =~= old(self).queue().skip(1));
                        assert(self.outstanding() =~= old(self).outstanding().skip(n as int));
                    }
                    if self.send_queue.len() == 0 {
                        self.interest.remove(EventSet::writable());
                        WriteStep::Rearm
                    } else {
                        WriteStep::Continue
                    }
                }
            },
        }
    }

    /// Takes in bytes that were read from the socket and returns the bodies
    /// of the frames that they complete, in the order of the stream.
    pub fn readable(&mut self, data: &[u8]) -> (r: Result<Vec<Vec<u8>>, DecodeError>)
        requires
            old(self).wf(),
        ensures
            final(self).wf(),
            final(self).token() == old(self).token(),
            final(self).interest() == old(self).interest(),
            final(self).queue() == old(self).queue(),
            final(self).sent() == old(self).sent(),
            match split_frames(old(self).buffered() + data@) {
                Some((bodies, rest)) => r matches Ok(out) && views(out@) == bodies
                    && final(self).buffered() == rest,
                None => r == Err::<Vec<Vec<u8>>, DecodeError>(DecodeError::FrameTooLarge)
                    && final(self).buffered() == Seq::<u8>::empty(),
            },
    {
        self.chunker.feed(data)
    }

    /// Whether to read again after a read returned `read` bytes into a buffer
    /// of `capacity`: only a read that filled the buffer may have left more.
    /// A short read, and end of stream (zero bytes), end the round.
    pub fn read_again(read: usize, capacity: usize) -> (again: bool)
        ensures
            again == (read > 0 && read >= capacity),
    {
        read > 0 && read >= capacity
    }

    /// A connection waits for writability exactly while bytes are queued
    /// for it.
    pub proof fn lemma_write_interest(&self)
        requires
            self.wf(),
        ensures
            self.interest().writable <==> self.queue().len() > 0,
    {
    }
}

/// How a connection and the next step follow from the report of a write:
/// `after` and `step` are what `before` makes of `outcome`.
pub open spec fn wrote(
    before: Connection,
    outcome: IoOutcome,
    after: Connection,
    step: WriteStep,
) -> bool {
    match outcome {
        IoOutcome::Failed => step == WriteStep::Reset && after == before,
        IoOutcome::WouldBlock => step == WriteStep::Rearm && after == before,
        IoOutcome::Moved(n) => if before.queue().len() == 0 {
            step == WriteStep::Rearm && after == before
        } else if n > before.queue()[0].len() - before.sent() {
            step == WriteStep::Reset && after == before
        } else {
            let whole = before.sent() + n == before.queue()[0].len();
            &&& after.token() == before.token()
            &&& after.buffered() == before.buffered()
            &&& after.outstanding() == before.outstanding().skip(n as int)
            &&& after.queue() == if whole {
                before.queue().skip(1)
            } else {
                before.queue()
            }
            &&& after.sent() == if whole {
                0
            } else {
                before.sent() + n
            }
            &&& after.interest() == if after.queue().len() == 0 {
                before.interest().minus(EventSet::spec_writable())
            } else {
                before.interest()
            }
            &&& step == if whole && after.queue().len() > 0 {
                WriteStep::Continue
            } else {
                WriteStep::Rearm
            }
        },
    }
}

/// Queueing a buffer puts its bytes behind all bytes queued before.
pub proof fn lemma_concat_push(queue: Seq<Seq<u8>>, buf: Seq<u8>)
    ensures
        concat(queue.push(buf)) == concat(queue) + buf,
    decreases queue.len(),
{
    if queue.len() == 0 {
        assert(queue.push(buf).skip(1) =~= Seq::<Seq<u8>>::empty());
        assert(concat(Seq::<Seq<u8>>::empty()) =~= Seq::<u8>::empty());
        assert(concat(queue.push(buf)) =~= concat(queue) + buf);
    } else {
        lemma_concat_push(queue.skip(1), buf);
        assert(queue.push(buf).skip(1) =~= queue.skip(1).push(buf));
        assert(concat(queue.push(buf)) =~= concat(queue) + buf);
    }
}

/// The bytes of two queues, one behind the other, are the bytes of the first
/// followed by those of the second.
pub proof fn lemma_concat_append(first: Seq<Seq<u8>>, second: Seq<Seq<u8>>)
    ensures
        concat(first + second) == concat(first) + concat(second),
    decreases second.len(),
{
    if second.len() == 0 {
        assert(first + second =~= first);
        assert(concat(first) + concat(second) =~= concat(first));
    } else {
        let most = second.drop_last();
        lemma_concat_append(first, most);
        lemma_concat_push(first + most, second.last());
        lemma_concat_push(most, second.last());
        assert((first + most).push(second.last()) =~= first + second);
        assert(most.push(second.last()) =~= second);
        assert(concat(first + second) =~= concat(first) + concat(second));
    }
}

/// The bytes of a queue begin with those of its oldest buffer.
pub proof fn lemma_concat_first(queue: Seq<Seq<u8>>)
    ensures
        queue.len() > 0 ==> concat(queue) == queue[0] + concat(queue.skip(1)),
        queue.len() == 0 ==> concat(queue) == Seq::<u8>::empty(),
{
}

} // verus!
