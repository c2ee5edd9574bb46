//! The frame decoder: a state machine that is fed the bytes of a connection
//! in whatever pieces they arrive and hands out the bodies of the frames
//! that have become complete.

use crate::frame::{
    all_fit, announced, frame, frames, le32, len32_value, lemma_le32, lemma_split_append,
    lemma_split_frames_of, split_frames, views, DecodeError, MAX_FRAME,
};
use vstd::prelude::*;

verus! {

/// Decoder state. Either the header is being collected (`len_buffer` holds
/// fewer than four bytes) or a body of `msg_len` bytes is (`msg_buffer` holds
/// fewer than `msg_len`).
pub struct Chunker {
    is_reading_length: bool,
    len_buffer: Vec<u8>,
    msg_len: usize,
    msg_buffer: Vec<u8>,
}

impl View for Chunker {
    type V = Seq<u8>;

    /// The bytes received and not yet handed out: those of the unfinished frame.
    closed spec fn view(&self) -> Seq<u8> {
        if self.is_reading_length {
            self.len_buffer@
        } else {
            le32(self.msg_len as u32) + self.msg_buffer@
        }
    }
}

/// All of `chunks`, one after the other.
pub open spec fn concat(chunks: Seq<Seq<u8>>) -> Seq<u8>
    decreases chunks.len(),
{
    if chunks.len() == 0 {
        Seq::empty()
    } else {
        chunks[0] + concat(chunks.skip(1))
    }
}

/// What a decoder that holds `pending` hands out when it is fed `chunks` one
/// call after the other: everything the calls return, in order, and what the
/// decoder holds in the end. `None` when one of the calls fails.
pub open spec fn feed_all(pending: Seq<u8>, chunks: Seq<Seq<u8>>) -> Option<
    (Seq<Seq<u8>>, Seq<u8>),
>
    decreases chunks.len(),
{
    if chunks.len() == 0 {
        Some((Seq::empty(), pending))
    } else {
        match split_frames(pending + chunks[0]) {
            Some((bodies, rest)) => match feed_all(rest, chunks.skip(1)) {
                Some((more, left)) => Some((bodies + more, left)),
                None => None,
            },
            None => None,
        }
    }
}

impl Chunker {
    /// The representation invariant.
    pub closed spec fn wf(&self) -> bool {
        if self.is_reading_length {
            self.len_buffer@.len() < 4 && self.msg_buffer@.len() == 0
        } else {
            &&& self.len_buffer@.len() == 0
            &&& 0 < self.msg_len <= MAX_FRAME
            &&& self.msg_buffer@.len() < self.msg_len
        }
    }

    /// A decoder that has received nothing.
    pub fn new() -> (c: Chunker)
        ensures
            c.wf(),
            c@ == Seq::<u8>::empty(),
    {
        Chunker {
            is_reading_length: true,
            len_buffer: Vec::new(),
            msg_len: 0,
            msg_buffer: Vec::new(),
        }
    }

    /// What a decoder holds is always an unfinished frame: no body can be
    /// taken from it yet.
    pub proof fn lemma_holds_unfinished(&self)
        requires
            self.wf(),
        ensures
            split_frames(self@) == Some((Seq::<Seq<u8>>::empty(), self@)),
    {
        if !self.is_reading_length {
            lemma_le32(self.msg_len as u32, Seq::empty());
        }
    }

    /// Takes in the next bytes of the stream and returns the bodies that they
    /// complete, in stream order. The bodies are those of the stream's frames
    /// whatever the pieces in which the stream arrived. A header that
    /// announces more than `MAX_FRAME` fails the call: the bodies completed
    /// earlier in the same chunk are dropped and the decoder is emptied.
    pub fn feed(&mut self, chunk: &[u8]) -> (r: Result<Vec<Vec<u8>>, DecodeError>)
        requires
            old(self).wf(),
        ensures
            final(self).wf(),
            match split_frames(old(self)@ + chunk@) {
                Some((bodies, rest)) => r matches Ok(out) && views(out@) == bodies && final(self)@
                    == rest,
                None => r == Err::<Vec<Vec<u8>>, DecodeError>(DecodeError::FrameTooLarge)
                    && final(self)@ == Seq::<u8>::empty(),
            },
    {
        let mut out: Vec<Vec<u8>> = Vec::new();
        let mut i: usize = 0;
        proof {
            self.lemma_holds_unfinished();
            assert(old(self)@ + chunk@.take(0) =~= old(self)@);
            assert(views(out@) =~= Seq::<Seq<u8>>::empty());
        }
        while i < chunk.len()
            invariant
                i <= chunk@.len(),
                self.wf(),
                split_frames(old(self)@ + chunk@.take(i as int)) == Some((views(out@), self@)),
            decreases chunk@.len() - i,
        {
            let byte = chunk[i];
            let ghost before = old(self)@ + chunk@.take(i as int);
            let ghost held = self@;
            let ghost found = views(out@);
            proof {
                lemma_le32(self.msg_len as u32, held + seq![byte]);
                lemma_split_append(before, seq![byte]);
                assert(before + seq![byte] =~= old(self)@ + chunk@.take(i + 1));
                assert(found + Seq::<Seq<u8>>::empty() =~= found);
            }
            if self.is_reading_length {
                self.len_buffer.push(byte);
                assert(self.len_buffer@ =~= held + seq![byte]);
                if self.len_buffer.len() == 4 {
                    let n = len32_value(self.len_buffer.as_slice());
                    let ghost header = self.len_buffer@;
                    assert(announced(header) == n);
                    self.len_buffer.clear();
                    if n > MAX_FRAME {
                        proof {
                            let whole = old(self)@ + chunk@;
                            lemma_split_append(old(self)@ + chunk@.take(i + 1), chunk@.skip(i + 1));
                            assert((old(self)@ + chunk@.take(i + 1)) + chunk@.skip(i + 1) =~= whole);
                        }
                        return Err(DecodeError::FrameTooLarge);
                    }
                    if n == 0 {
                        out.push(Vec::new());
                        proof {
                            assert(header.subrange(4, 4) =~= Seq::<u8>::empty());
                            assert(header.skip(4) =~= Seq::<u8>::empty());
                            assert(split_frames(Seq::<u8>::empty()) == Some(
                                (Seq::<Seq<u8>>::empty(), Seq::<u8>::empty()),
                            ));
                            assert(views(out@) =~= found + (seq![Seq::<u8>::empty()]
                                + Seq::<Seq<u8>>::empty()));
                        }
                    } else {
                        self.msg_len = n as usize;
                        self.is_reading_length = false;
                        assert(self@ =~= header);
                    }
                }
            } else {
                let ghost header = le32(self.msg_len as u32);
                self.msg_buffer.push(byte);
                proof {
                    assert(held + seq![byte] =~= header + self.msg_buffer@);
                }
                if self.msg_buffer.len() == self.msg_len {
                    let mut body: Vec<u8> = Vec::new();
                    std::mem::swap(&mut body, &mut self.msg_buffer);
                    self.is_reading_length = true;
                    out.push(body);
                    proof {
                        let grown = held + seq![byte];
                        assert(grown.subrange(4, 4 + self.msg_len as int) =~= body@);
                        assert(grown.skip(4 + self.msg_len as int) =~= Seq::<u8>::empty());
                        assert(split_frames(Seq::<u8>::empty()) == Some(
                            (Seq::<Seq<u8>>::empty(), Seq::<u8>::empty()),
                        ));
                        assert(views(out@) =~= found + (seq![body@] + Seq::<Seq<u8>>::empty()));
                    }
                }
            }
            i += 1;
        }
        assert(chunk@.take(i as int) =~= chunk@);
        Ok(out)
    }
}

/// What is left over after splitting is itself an unfinished frame.
pub proof fn lemma_rest_unfinished(s: Seq<u8>)
    ensures
        split_frames(s) matches Some((_, rest)) ==> split_frames(rest) == Some(
            (Seq::<Seq<u8>>::empty(), rest),
        ),
    decreases s.len(),
{
    if s.len() >= 4 && announced(s) <= MAX_FRAME && s.len() >= 4 + announced(s) {
        lemma_rest_unfinished(s.skip(4 + announced(s)));
    }
}

/// The pieces in which a stream arrives do not matter: feeding `chunks` one
/// after the other hands out what splitting the whole stream gives, and fails
/// when that does.
pub proof fn lemma_chunking(pending: Seq<u8>, chunks: Seq<Seq<u8>>)
    requires
        split_frames(pending) == Some((Seq::<Seq<u8>>::empty(), pending)),
    ensures
        feed_all(pending, chunks) == split_frames(pending + concat(chunks)),
    decreases chunks.len(),
{
    if chunks.len() == 0 {
        assert(pending + concat(chunks) =~= pending);
    } else {
        let first = chunks[0];
        let others = chunks.skip(1);
        assert(pending + concat(chunks) =~= (pending + first) + concat(others));
        lemma_split_append(pending + first, concat(others));
        lemma_rest_unfinished(pending + first);
        match split_frames(pending + first) {
            Some((bodies, rest)) => {
                lemma_chunking(rest, others);
            },
            None => {},
        }
    }
}

/// Round trip: the frames of `bodies`, cut into pieces anywhere (down to
/// single bytes) and fed to a fresh decoder piece by piece, come out as
/// exactly `bodies`, in order, and the decoder is empty again.
pub proof fn lemma_round_trip(bodies: Seq<Seq<u8>>, chunks: Seq<Seq<u8>>)
    requires
        all_fit(bodies),
        concat(chunks) == frames(bodies),
    ensures
        feed_all(Seq::<u8>::empty(), chunks) == Some((bodies, Seq::<u8>::empty())),
{
    lemma_chunking(Seq::<u8>::empty(), chunks);
    lemma_split_frames_of(bodies);
    assert(Seq::<u8>::empty() + concat(chunks) =~= concat(chunks));
}

/// `s` cut into pieces of one byte each.
pub open spec fn bytewise(s: Seq<u8>) -> Seq<Seq<u8>> {
    Seq::new(s.len(), |i: int| seq![s[i]])
}

/// The pieces of one byte each make up the stream they were cut from.
pub proof fn lemma_concat_bytewise(s: Seq<u8>)
    ensures
        concat(bytewise(s)) == s,
    decreases s.len(),
{
    if s.len() > 0 {
        lemma_concat_bytewise(s.skip(1));
        assert(bytewise(s).skip(1) =~= bytewise(s.skip(1)));
        assert(concat(bytewise(s)) =~= s);
    } else {
        assert(concat(bytewise(s)) =~= s);
    }
}

/// A stream of frames that arrives one byte at a time still comes out as
/// the bodies that were framed.
pub proof fn lemma_round_trip_bytewise(bodies: Seq<Seq<u8>>)
    requires
        all_fit(bodies),
    ensures
        feed_all(Seq::<u8>::empty(), bytewise(frames(bodies))) == Some(
            (bodies, Seq::<u8>::empty()),
        ),
{
    lemma_concat_bytewise(frames(bodies));
    lemma_round_trip(bodies, bytewise(frames(bodies)));
}

/// The same body framed `k` times.
pub open spec fn repeated(body: Seq<u8>, k: nat) -> Seq<Seq<u8>> {
    Seq::new(k, |i: int| body)
}

/// One body framed `k` times and fed in any pieces comes out `k` times.
pub proof fn lemma_round_trip_repeated(body: Seq<u8>, k: nat, chunks: Seq<Seq<u8>>)
    requires
        body.len() <= MAX_FRAME,
        concat(chunks) == frames(repeated(body, k)),
    ensures
        feed_all(Seq::<u8>::empty(), chunks) == Some((repeated(body, k), Seq::<u8>::empty())),
{
    lemma_round_trip(repeated(body, k), chunks);
}

/// A header that announces zero bytes is a whole frame: it yields one empty
/// body.
pub proof fn lemma_empty_body()
    ensures
        split_frames(frame(Seq::<u8>::empty())) == Some(
            (seq![Seq::<u8>::empty()], Seq::<u8>::empty()),
        ),
{
    let bodies = seq![Seq::<u8>::empty()];
    lemma_split_frames_of(bodies);
    assert(frames(bodies.skip(1)) =~= Seq::<u8>::empty());
    assert(frames(bodies) =~= frame(Seq::<u8>::empty()));
}

} // verus!
