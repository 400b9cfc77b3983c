//! Per-connection state: the accumulating read buffer, the FIFO queue of
//! outbound byte buffers with the front buffer's write cursor, the response
//! in flight, and the close-after-write flag. All socket work stays with
//! the caller; this state machine only consumes and produces plain bytes.
use vstd::prelude::*;

use std::collections::VecDeque;

use crate::request::{decode, spec_decode, DecodeResult, ParsedRequest, SpecDecode};
use crate::response::{next_chunk, ResponseStream};

verus! {

broadcast use vstd::prelude::Seq::lemma_flatten_push;

/// Drop the first `n` bytes of a concatenation: when they all come out of
/// `a`, what is left is the rest of `a` and then `b`.
pub proof fn lemma_skip_concat(a: Seq<u8>, b: Seq<u8>, n: int)
    requires
        0 <= n <= a.len(),
    ensures
        (a + b).skip(n) == a.skip(n) + b,
{
    assert((a + b).skip(n) =~= a.skip(n) + b);
}

pub struct Connection {
    /// Unconsumed bytes read from the socket; may hold the start of a
    /// pipelined next request after one request is consumed.
    pub buffer: Vec<u8>,
    /// Outbound byte buffers, written strictly front first.
    pub outgoing: VecDeque<Vec<u8>>,
    /// How many bytes of the front outgoing buffer are already written.
    pub front_offset: usize,
    /// The response in flight, if any; while one is active no further
    /// request is decoded from the buffer.
    pub response: Option<ResponseStream>,
    /// Tear the connection down once the outgoing queue drains.
    pub close_after_write: bool,
}

impl Connection {
    /// The queue never holds an empty buffer, and the front cursor always
    /// points strictly inside the front buffer.
    pub open spec fn wf(self) -> bool {
        &&& self.outgoing@.len() == 0 ==> self.front_offset == 0
        &&& self.outgoing@.len() > 0 ==> self.front_offset < self.outgoing@[0]@.len()
        &&& forall|i: int| 0 <= i < self.outgoing@.len() ==> self.outgoing@[i]@.len() > 0
    }

    /// The outbound buffers still to write, the front one already shorn of
    /// its written prefix.
    pub open spec fn out_chunks(self) -> Seq<Seq<u8>> {
        let q = self.outgoing.deep_view();
        if q.len() == 0 {
            q
        } else {
            q.update(0, q[0].skip(self.front_offset as int))
        }
    }

    /// Every byte still to write, in exactly the order it was enqueued.
    pub open spec fn out_bytes(self) -> Seq<u8> {
        self.out_chunks().flatten()
    }

    pub fn new() -> (r: Connection)
        ensures
            r.wf(),
            r.buffer@ == Seq::<u8>::empty(),
            r.out_bytes() == Seq::<u8>::empty(),
            r.response is None,
            !r.close_after_write,
    {
        let r = Connection {
            buffer: Vec::new(),
            outgoing: VecDeque::new(),
            front_offset: 0,
            response: None,
            close_after_write: false,
        };
        proof {
            assert(r.out_chunks() =~= Seq::<Seq<u8>>::empty());
            assert(r.out_bytes() =~= Seq::<u8>::empty());
        }
        r
    }

    /// Append bytes drained from the socket to the read buffer.
    pub fn feed(&mut self, data: &[u8])
        ensures
            final(self).buffer@ == old(self).buffer@ + data@,
            final(self).outgoing == old(self).outgoing,
            final(self).front_offset == old(self).front_offset,
            final(self).response == old(self).response,
            final(self).close_after_write == old(self).close_after_write,
    {
        crate::bytes::append_bytes(&mut self.buffer, data);
    }

    /// Queue one outbound buffer behind everything already queued; empty
    /// buffers vanish.
    pub fn enqueue(&mut self, piece: Vec<u8>)
        requires
            old(self).wf(),
        ensures
            final(self).wf(),
            final(self).out_bytes() == old(self).out_bytes() + piece@,
            final(self).buffer == old(self).buffer,
            final(self).response == old(self).response,
            final(self).close_after_write == old(self).close_after_write,
    {
        if piece.len() == 0 {
            proof {
                assert(old(self).out_bytes() + piece@ =~= old(self).out_bytes());
            }
            return;
        }
        let ghost oldq = self.out_chunks();
        self.outgoing.push_back(piece);
        proof {
            assert(self.out_chunks() =~~= oldq.push(piece@));
            assert(self.out_chunks().flatten() == oldq.flatten() + piece@);
        }
    }

    /// Try to decode one request from the read buffer, as `spec_decode`
    /// describes. While a response is in flight nothing is decoded: the
    /// server keeps a single outstanding response per connection. On
    /// success exactly the consumed bytes leave the buffer; the remainder —
    /// the start of a pipelined next request — stays for the next poll.
    pub fn poll_request(&mut self) -> (r: PollOutcome)
        ensures
            final(self).outgoing == old(self).outgoing,
            final(self).front_offset == old(self).front_offset,
            final(self).response == old(self).response,
            final(self).close_after_write == old(self).close_after_write,
            old(self).response is Some ==> r is Blocked && final(self).buffer
                == old(self).buffer,
            old(self).response is None ==> match spec_decode(old(self).buffer@) {
                SpecDecode::Complete { req, consumed } => (match r {
                    PollOutcome::Request(q) => q@ == req && final(self).buffer@ == old(
                        self,
                    ).buffer@.skip(consumed),
                    _ => false,
                }),
                SpecDecode::Incomplete => r is NeedMore && final(self).buffer == old(
                    self,
                ).buffer,
                SpecDecode::Malformed => r is Malformed && final(self).buffer == old(
                    self,
                ).buffer,
            },
    {
        if self.response.is_some() {
            return PollOutcome::Blocked;
        }
        match decode(&self.buffer) {
            DecodeResult::Complete(req, consumed) => {
                let rest = self.buffer.split_off(consumed);
                self.buffer = rest;
                proof {
                    assert(old(self).buffer@.subrange(consumed as int, old(self).buffer@.len() as int)
                        =~= old(self).buffer@.skip(consumed as int));
                }
                PollOutcome::Request(req)
            },
            DecodeResult::Incomplete => PollOutcome::NeedMore,
            DecodeResult::Malformed => PollOutcome::Malformed,
        }
    }

    /// Whether any outbound bytes wait in the queue.
    pub fn has_pending_write(&self) -> (r: bool)
        ensures
            r == (self.out_chunks().len() > 0),
    {
        self.outgoing.len() > 0
    }

    /// Record that the caller wrote `n` bytes of the front outgoing buffer
    /// to the socket: the queue loses exactly its first `n` bytes, and
    /// nothing is reordered. A fully written front buffer leaves the queue.
    pub fn record_written(&mut self, n: usize)
        requires
            old(self).wf(),
            old(self).out_chunks().len() > 0,
            n <= old(self).out_chunks()[0].len(),
        ensures
            final(self).wf(),
            final(self).out_bytes() == old(self).out_bytes().skip(n as int),
            final(self).buffer == old(self).buffer,
            final(self).response == old(self).response,
            final(self).close_after_write == old(self).close_after_write,
    {
        let ghost q = old(self).out_chunks();
        let remaining = self.outgoing[0].len() - self.front_offset;
        proof {
            lemma_flatten_head(q);
        }
        if n < remaining {
            self.front_offset = self.front_offset + n;
            proof {
                let q2 = self.out_chunks();
                assert(q2 =~~= q.update(0, q[0].skip(n as int)));
                lemma_flatten_head(q2);
                assert(q2.drop_first() =~= q.drop_first());
                lemma_skip_concat(q[0], q.drop_first().flatten(), n as int);
                assert(q2.flatten() =~= q.flatten().skip(n as int));
            }
        } else {
            self.outgoing.pop_front();
            self.front_offset = 0;
            proof {
                let q2 = self.out_chunks();
                assert(q2 =~~= q.drop_first());
                lemma_skip_concat(q[0], q.drop_first().flatten(), n as int);
                assert(q[0].skip(n as int) =~= Seq::<u8>::empty());
                assert(Seq::<u8>::empty() + q.drop_first().flatten() =~= q.drop_first().flatten());
                assert(q2.flatten() =~= q.flatten().skip(n as int));
            }
        }
    }

    /// Whether the reactor should keep write readiness registered: bytes
    /// wait in the queue or a response is still active.
    pub fn wants_write(&self) -> (r: bool)
        ensures
            r == (self.out_chunks().len() > 0 || self.response is Some),
    {
        self.outgoing.len() > 0 || self.response.is_some()
    }

    /// Whether the connection is due for teardown: the close-after-write
    /// flag is set and every outbound byte has been written.
    pub fn should_close(&self) -> (r: bool)
        ensures
            r == (self.close_after_write && self.out_chunks().len() == 0),
    {
        self.close_after_write && self.outgoing.len() == 0
    }

    /// Whether the drained queue leaves an active response to advance.
    pub fn needs_advance(&self) -> (r: bool)
        ensures
            r == (self.out_chunks().len() == 0 && self.response is Some),
    {
        self.outgoing.len() == 0 && self.response.is_some()
    }

    /// Queue a just-prepared response: its initial framed pieces go behind
    /// any bytes still unwritten, the stream state is installed, and the
    /// close-after-write flag follows the persistence decision when the
    /// response is already finished.
    pub fn install_response(&mut self, pending: Vec<Vec<u8>>, stream: ResponseStream)
        requires
            old(self).wf(),
            old(self).response is None,
        ensures
            final(self).wf(),
            final(self).out_bytes() == old(self).out_bytes() + pending.deep_view().flatten(),
            final(self).response == Some(stream),
            final(self).close_after_write == (!stream.keep_alive && stream.finished),
            final(self).buffer == old(self).buffer,
    {
        let ghost all = pending.deep_view();
        let mut rest = pending;
        proof {
            assert(old(self).out_bytes() + all.take(0).flatten() =~= old(self).out_bytes());
            assert(all.take(0).flatten() =~= Seq::<u8>::empty());
            assert(all.skip(0) =~= all);
        }
        let ghost mut done: int = 0;
        while rest.len() > 0
            invariant
                self.wf(),
                0 <= done <= all.len(),
                rest.deep_view() =~= all.skip(done),
                self.out_bytes() == old(self).out_bytes() + all.take(done).flatten(),
                self.buffer == old(self).buffer,
                self.response == old(self).response,
                self.close_after_write == old(self).close_after_write,
            decreases rest@.len(),
        {
            proof {
                assert(rest.deep_view().len() == rest@.len());
                assert(done < all.len());
            }
            let ghost prevv = rest@;
            let ghost prevd = rest.deep_view();
            let piece = rest.remove(0);
            proof {
                prevv.remove_ensures(0);
                assert forall|k: int| 0 <= k < rest.deep_view().len() implies rest.deep_view()[k]
                    == all.skip(done + 1)[k] by {
                    assert(rest@[k] == prevv[k + 1]);
                    assert(rest.deep_view()[k] == rest@[k].deep_view());
                    assert(prevd[k + 1] == prevv[k + 1].deep_view());
                    assert(prevd[k + 1] == all[done + 1 + k]);
                }
                assert(rest.deep_view() =~= all.skip(done + 1));
                assert(piece.deep_view() == prevd[0]);
                assert(piece@ =~= piece.deep_view());
                assert(piece@ == all[done]);
                lemma_take_one_more(all, done);
            }
            self.enqueue(piece);
            proof {
                done = done + 1;
            }
        }
        proof {
            assert(all.take(all.len() as int) =~= all);
        }
        self.response = Some(stream);
        self.close_after_write = !stream.keep_alive && stream.finished;
    }

    /// Advance a drained connection's response by one pulled body chunk,
    /// handing `next_chunk`'s piece to the outgoing queue. When the stream
    /// has nothing further, the persistence decision settles the
    /// close-after-write flag and the response slot empties. Without an
    /// active response nothing changes.
    pub fn advance_response(&mut self, produced: Option<Vec<u8>>)
        requires
            old(self).wf(),
            (match produced {
                Some(c) => c@.len() > 0,
                None => true,
            }),
        ensures
            final(self).wf(),
            final(self).buffer == old(self).buffer,
            old(self).response is None ==> final(self).out_bytes() == old(self).out_bytes()
                && final(self).response is None && final(self).close_after_write == old(
                self,
            ).close_after_write,
            match old(self).response {
                Some(s) => {
                    if s.finished || !s.has_producer {
                        &&& final(self).out_bytes() == old(self).out_bytes()
                        &&& final(self).response is None
                        &&& final(self).close_after_write == !s.keep_alive
                    } else {
                        match produced {
                            Some(c) => {
                                &&& final(self).out_bytes() == old(self).out_bytes() + (if s.chunked {
                                    crate::chunked::wrapped_chunk(c@)
                                } else {
                                    c@
                                })
                                &&& final(self).response == old(self).response
                                &&& final(self).close_after_write == old(
                                    self,
                                ).close_after_write
                            },
                            None => {
                                if s.chunked {
                                    &&& final(self).out_bytes() == old(self).out_bytes()
                                        + crate::lit::lit_chunk_term()
                                    &&& final(self).response == Some(
                                        ResponseStream {
                                            finished: true,
                                            ..s
                                        },
                                    )
                                    &&& final(self).close_after_write == old(
                                        self,
                                    ).close_after_write
                                } else {
                                    &&& final(self).out_bytes() == old(self).out_bytes()
                                    &&& final(self).response is None
                                    &&& final(self).close_after_write == !s.keep_alive
                                }
                            },
                        }
                    }
                },
                None => true,
            },
    {
        let mut stream = match self.response.take() {
            Some(s) => s,
            None => {
                return ;
            },
        };
        match next_chunk(&mut stream, produced) {
            Some(bytes) => {
                self.enqueue(bytes);
                self.response = Some(stream);
            },
            None => {
                if stream.finished {
                    self.close_after_write = !stream.keep_alive;
                    self.response = None;
                } else {
                    self.response = Some(stream);
                }
            },
        }
    }
}

/// Outcome of one `poll_request` attempt.
pub enum PollOutcome {
    /// A response is in flight: back-pressure, nothing was decoded.
    Blocked,
    /// A complete request came off the buffer.
    Request(ParsedRequest),
    /// The buffer holds only a prefix of a request.
    NeedMore,
    /// The buffered bytes are not a well-formed request; the caller closes
    /// this connection and only this connection.
    Malformed,
}

/// `flatten` of a non-empty sequence of chunks: the first chunk, then the
/// rest flattened.
pub proof fn lemma_flatten_head(q: Seq<Seq<u8>>)
    requires
        q.len() > 0,
    ensures
        q.flatten() == q[0] + q.drop_first().flatten(),
{
}

proof fn lemma_take_one_more(q: Seq<Seq<u8>>, i: int)
    requires
        0 <= i < q.len(),
    ensures
        q.take(i + 1).flatten() == q.take(i).flatten() + q[i],
    decreases i + 1,
{
    broadcast use vstd::prelude::Seq::lemma_flatten_push;

    assert(q.take(i + 1) =~= q.take(i).push(q[i]));
}

} // verus!
