//! The connection table and the per-event steps the reactor takes. Slots
//! are dense and append-only: a torn-down connection leaves an empty slot
//! that is never reused within one run. Every step touches exactly one
//! slot, so a failure on one connection can never reach another — the
//! contracts say so.
use vstd::prelude::*;

use crate::conn::{Connection, PollOutcome};
use crate::request::{spec_decode, ParsedRequest, SpecDecode};
use crate::response::ResponseStream;

verus! {

/// The reactor's table of connection slots.
pub struct ConnTable {
    pub slots: Vec<Option<Connection>>,
}

/// Outcome of feeding freshly read bytes to one connection.
pub enum ReadOutcome {
    /// The slot is already empty.
    Gone,
    /// A response is in flight: nothing was decoded (back-pressure).
    Busy,
    /// A complete request came off this connection's buffer; the caller
    /// invokes the application and then installs the response.
    Dispatch(ParsedRequest),
    /// The buffer still holds only a prefix of a request.
    Pending,
    /// The bytes were malformed: this slot, and only this slot, was torn
    /// down.
    Closed,
}

impl ConnTable {
    /// Every present connection is well-formed.
    pub open spec fn wf(self) -> bool {
        forall|j: int|
            0 <= j < self.slots@.len() ==> match #[trigger] self.slots@[j] {
                Some(c) => c.wf(),
                None => true,
            }
    }

    pub fn new() -> (r: ConnTable)
        ensures
            r.wf(),
            r.slots@.len() == 0,
    {
        ConnTable { slots: Vec::new() }
    }

    pub fn len(&self) -> (r: usize)
        ensures
            r == self.slots@.len(),
    {
        self.slots.len()
    }

    /// A newly accepted connection takes the next fresh slot; no existing
    /// slot moves.
    pub fn add(&mut self, conn: Connection) -> (idx: usize)
        requires
            old(self).wf(),
            conn.wf(),
        ensures
            final(self).wf(),
            final(self).slots@ == old(self).slots@.push(Some(conn)),
            idx == old(self).slots@.len(),
    {
        let idx = self.slots.len();
        self.slots.push(Some(conn));
        idx
    }

    /// Tear one connection down: its slot empties and stays empty; every
    /// other slot keeps its state untouched.
    pub fn close(&mut self, i: usize)
        requires
            old(self).wf(),
            i < old(self).slots@.len(),
        ensures
            final(self).wf(),
            final(self).slots@ == old(self).slots@.update(i as int, None),
    {
        let slot = &mut self.slots[i];
        *slot = None;
    }

    /// Feed bytes read from connection `i`'s socket and try to decode one
    /// request, as `Connection::feed` and `Connection::poll_request`
    /// describe. A malformed request closes slot `i` alone: whatever
    /// happens, no other slot changes.
    pub fn on_readable(&mut self, i: usize, data: &[u8]) -> (r: ReadOutcome)
        requires
            old(self).wf(),
            i < old(self).slots@.len(),
        ensures
            final(self).wf(),
            final(self).slots@.len() == old(self).slots@.len(),
            forall|j: int|
                0 <= j < old(self).slots@.len() && j != i ==> final(self).slots@[j] == old(self).slots@[j],
            match old(self).slots@[i as int] {
                None => r is Gone && final(self).slots@ == old(self).slots@,
                Some(c) => {
                    let fed = c.buffer@ + data@;
                    if c.response is Some {
                        &&& r is Busy
                        &&& (match final(self).slots@[i as int] {
                            Some(c2) => c2.buffer@ == fed && c2.response == c.response
                                && c2.out_bytes() == c.out_bytes() && c2.close_after_write
                                == c.close_after_write,
                            None => false,
                        })
                    } else {
                        match spec_decode(fed) {
                            SpecDecode::Complete { req, consumed } => (match r {
                                ReadOutcome::Dispatch(q) => q@ == req && (match final(self).slots@[i as int] {
                                    Some(c2) => c2.buffer@ == fed.skip(consumed)
                                        && c2.response is None && c2.out_bytes()
                                        == c.out_bytes() && c2.close_after_write
                                        == c.close_after_write,
                                    None => false,
                                }),
                                _ => false,
                            }),
                            SpecDecode::Incomplete => r is Pending && (match final(self).slots@[i as int] {
                                Some(c2) => c2.buffer@ == fed && c2.response is None
                                    && c2.out_bytes() == c.out_bytes() && c2.close_after_write
                                    == c.close_after_write,
                                None => false,
                            }),
                            SpecDecode::Malformed => r is Closed && final(self).slots@[i as int] is None,
                        }
                    }
                },
            },
    {
        let slot = &mut self.slots[i];
        match slot {
            None => ReadOutcome::Gone,
            Some(conn) => {
                conn.feed(data);
                match conn.poll_request() {
                    PollOutcome::Blocked => ReadOutcome::Busy,
                    PollOutcome::Request(req) => ReadOutcome::Dispatch(req),
                    PollOutcome::NeedMore => ReadOutcome::Pending,
                    PollOutcome::Malformed => {
                        *slot = None;
                        ReadOutcome::Closed
                    },
                }
            },
        }
    }

    /// Install the application's framed response on connection `i`, as
    /// `Connection::install_response` describes; no other slot changes.
    pub fn on_response(&mut self, i: usize, pending: Vec<Vec<u8>>, stream: ResponseStream)
        requires
            old(self).wf(),
            i < old(self).slots@.len(),
            (match old(self).slots@[i as int] {
                Some(c) => c.response is None,
                None => false,
            }),
        ensures
            final(self).wf(),
            final(self).slots@.len() == old(self).slots@.len(),
            forall|j: int|
                0 <= j < old(self).slots@.len() && j != i ==> final(self).slots@[j] == old(self).slots@[j],
            match old(self).slots@[i as int] {
                Some(c) => (match final(self).slots@[i as int] {
                    Some(c2) => c2.out_bytes() == c.out_bytes() + pending.deep_view().flatten()
                        && c2.response == Some(stream) && c2.buffer == c.buffer
                        && c2.close_after_write == (!stream.keep_alive && stream.finished),
                    None => false,
                }),
                None => false,
            },
    {
        let slot = &mut self.slots[i];
        match slot {
            Some(conn) => {
                conn.install_response(pending, stream);
            },
            None => {},
        }
    }

    /// Advance connection `i`'s drained response by one pulled body chunk,
    /// as `Connection::advance_response` describes; no other slot changes.
    pub fn on_advance(&mut self, i: usize, produced: Option<Vec<u8>>)
        requires
            old(self).wf(),
            i < old(self).slots@.len(),
            (match produced {
                Some(c) => c@.len() > 0,
                None => true,
            }),
        ensures
            final(self).wf(),
            final(self).slots@.len() == old(self).slots@.len(),
            forall|j: int|
                0 <= j < old(self).slots@.len() && j != i ==> final(self).slots@[j] == old(self).slots@[j],
            match old(self).slots@[i as int] {
                None => final(self).slots@ == old(self).slots@,
                Some(c) => (match final(self).slots@[i as int] {
                    Some(c2) => c2.buffer == c.buffer && (match c.response {
                        None => c2.out_bytes() == c.out_bytes() && c2.response is None
                            && c2.close_after_write == c.close_after_write,
                        Some(s) => {
                            if s.finished || !s.has_producer {
                                &&& c2.out_bytes() == c.out_bytes()
                                &&& c2.response is None
                                &&& c2.close_after_write == !s.keep_alive
                            } else {
                                match produced {
                                    Some(ch) => c2.out_bytes() == c.out_bytes() + (if s.chunked {
                                        crate::chunked::wrapped_chunk(ch@)
                                    } else {
                                        ch@
                                    }) && c2.response == c.response && c2.close_after_write
                                        == c.close_after_write,
                                    None => {
                                        if s.chunked {
                                            &&& c2.out_bytes() == c.out_bytes()
                                                + crate::lit::lit_chunk_term()
                                            &&& c2.response == Some(
                                                crate::response::ResponseStream {
                                                    finished: true,
                                                    ..s
                                                },
                                            )
                                            &&& c2.close_after_write == c.close_after_write
                                        } else {
                                            &&& c2.out_bytes() == c.out_bytes()
                                            &&& c2.response is None
                                            &&& c2.close_after_write == !s.keep_alive
                                        }
                                    },
                                }
                            }
                        },
                    }),
                    None => false,
                }),
            },
    {
        let slot = &mut self.slots[i];
        match slot {
            Some(conn) => {
                conn.advance_response(produced);
            },
            None => {},
        }
    }

    /// Record bytes written on connection `i`, as
    /// `Connection::record_written` describes; no other slot changes.
    pub fn on_written(&mut self, i: usize, n: usize)
        requires
            old(self).wf(),
            i < old(self).slots@.len(),
            (match old(self).slots@[i as int] {
                Some(c) => c.out_chunks().len() > 0 && n <= c.out_chunks()[0].len(),
                None => false,
            }),
        ensures
            final(self).wf(),
            final(self).slots@.len() == old(self).slots@.len(),
            forall|j: int|
                0 <= j < old(self).slots@.len() && j != i ==> final(self).slots@[j] == old(self).slots@[j],
            match old(self).slots@[i as int] {
                Some(c) => (match final(self).slots@[i as int] {
                    Some(c2) => c2.out_bytes() == c.out_bytes().skip(n as int) && c2.buffer
                        == c.buffer && c2.response == c.response && c2.close_after_write
                        == c.close_after_write,
                    None => false,
                }),
                None => false,
            },
    {
        let slot = &mut self.slots[i];
        match slot {
            Some(conn) => {
                conn.record_written(n);
            },
            None => {},
        }
    }
}

} // verus!
