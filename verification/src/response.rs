//! The response framer: the persistence and framing decision (keep-alive,
//! chunked, explicit length, or close-delimited), the exact header block it
//! produces, and the streaming state that doles out body chunks.
use vstd::prelude::*;

use crate::bytes::{
    append_bytes, contains, contains_seq, dec_numeral, eq_ignore_case, format_dec, lower,
    matches_at, numeral_value, parse_numeral, to_lower_vec, CR, LF, SP,
};
use crate::chunked::{wrap_chunk, wrapped_chunk};
use crate::lit::{
    bytes_204, bytes_304, bytes_chunk_term, bytes_cl_prefix, bytes_close, bytes_conn_close_line,
    bytes_conn_keep_alive_line, bytes_connection, bytes_content_length, bytes_http1,
    bytes_keep_alive, bytes_te_chunked_line, bytes_transfer_encoding, lit_204, lit_304,
    lit_chunk_term, lit_cl_prefix, lit_close, lit_colon_sp, lit_conn_close_line,
    lit_conn_keep_alive_line, lit_connection, lit_content_length, lit_crlf, lit_http1,
    lit_keep_alive, lit_te_chunked_line, lit_transfer_encoding,
};
use crate::request::{header_lookup, header_value, hviews, Header, HeaderView};

verus! {

/// Whether the request asked for a persistent connection: under HTTP/1.1 the
/// connection persists unless a `Connection` header value contains `close`;
/// under HTTP/1.0 it persists only when one contains `keep-alive`. Matching
/// is case-insensitive; an absent header counts as an empty value.
pub open spec fn spec_keep_alive_requested(minor: u8, headers: Seq<HeaderView>) -> bool {
    let conn = match header_lookup(headers, lit_connection()) {
        Some(v) => lower(v),
        None => Seq::<u8>::empty(),
    };
    if minor == 1 {
        !contains_seq(conn, lit_close())
    } else {
        contains_seq(conn, lit_keep_alive())
    }
}

/// Whether the request asked for a persistent connection, as
/// `spec_keep_alive_requested` describes.
pub fn should_keep_alive(minor: u8, headers: &Vec<Header>) -> (r: bool)
    ensures
        r == spec_keep_alive_requested(minor, hviews(headers@)),
{
    let name = bytes_connection();
    proof {
        assert(lower(lit_connection()) =~= lit_connection());
    }
    let conn_lower: Vec<u8> = match header_value(headers, name.as_slice()) {
        Some(v) => to_lower_vec(v.as_slice()),
        None => Vec::new(),
    };
    if minor == 1 {
        let needle = bytes_close();
        !contains(conn_lower.as_slice(), needle.as_slice())
    } else {
        let needle = bytes_keep_alive();
        contains(conn_lower.as_slice(), needle.as_slice())
    }
}

/// A status line names one of the bodiless status classes: it starts with
/// `204` or `304`.
pub open spec fn spec_no_body_status(status: Seq<u8>) -> bool {
    status.len() >= 3 && (status.take(3) == lit_204() || status.take(3) == lit_304())
}

fn no_body_status(status: &Vec<u8>) -> (r: bool)
    ensures
        r == spec_no_body_status(status@),
{
    if status.len() < 3 {
        return false;
    }
    let l204 = bytes_204();
    let l304 = bytes_304();
    let a = matches_at(status.as_slice(), 0, l204.as_slice());
    let b = matches_at(status.as_slice(), 0, l304.as_slice());
    proof {
        assert(status@.subrange(0, 3) == status@.take(3));
    }
    a || b
}

/// The `Content-Length` the application announced for its response, when
/// that header is present and a plain numeral.
pub open spec fn resp_content_length(hs: Seq<HeaderView>) -> Option<int> {
    match header_lookup(hs, lit_content_length()) {
        Some(v) => numeral_value(v, 10),
        None => None,
    }
}

/// The framing decision for one response, fixed before its first header
/// byte is queued.
#[verifier::ext_equal]
pub ghost struct PlanView {
    pub keep_alive: bool,
    pub chunked: bool,
    /// The length line the framer itself emits, when it emits one.
    pub content_length: Option<int>,
    pub no_body: bool,
}

/// The persistence and framing decision: from the request's minor version
/// and `Connection` header, the response status, the application's
/// `Content-Length` header, whether a lazy body producer exists, and the
/// first materialized chunk.
///
/// Chunked framing applies exactly when persistence was requested, the
/// length is unknown, and the request is HTTP/1.1; an HTTP/1.0 request with
/// unknown length falls back to a close-delimited body. A `204` or `304`
/// status carries no body and no length machinery at all.
pub open spec fn spec_plan(
    minor: u8,
    req_hs: Seq<HeaderView>,
    status: Seq<u8>,
    resp_hs: Seq<HeaderView>,
    has_producer: bool,
    first_chunk: Option<Seq<u8>>,
) -> PlanView {
    let requested = spec_keep_alive_requested(minor, req_hs);
    let no_body = spec_no_body_status(status);
    let cl_hdr = resp_content_length(resp_hs);
    let length_unknown = cl_hdr is None && !no_body;
    let chunked = requested && length_unknown && minor == 1;
    let keep_alive = requested && (!length_unknown || minor == 1);
    let content_length = if chunked || no_body {
        None
    } else if cl_hdr is Some {
        cl_hdr
    } else if !has_producer {
        Some(
            match first_chunk {
                Some(c) => c.len() as int,
                None => 0,
            },
        )
    } else {
        None
    };
    PlanView { keep_alive, chunked, content_length, no_body }
}

/// A response the framer leaves without chunking and without a known length
/// is never kept alive: the downgrade guard such a combination would need
/// can never fire, so nothing emits it.
pub proof fn lemma_no_unknown_length_keep_alive(
    minor: u8,
    req_hs: Seq<HeaderView>,
    status: Seq<u8>,
    resp_hs: Seq<HeaderView>,
    has_producer: bool,
    first_chunk: Option<Seq<u8>>,
)
    ensures
        ({
            let plan = spec_plan(minor, req_hs, status, resp_hs, has_producer, first_chunk);
            let length_unknown = resp_content_length(resp_hs) is None && !spec_no_body_status(
                status,
            );
            !(plan.keep_alive && !plan.chunked && length_unknown)
        }),
{
}

/// The status line: `HTTP/1.<minor> <status>` and CRLF.
pub open spec fn spec_status_line(minor: u8, status: Seq<u8>) -> Seq<u8> {
    lit_http1() + seq![(48 + minor) as u8] + seq![SP] + status + lit_crlf()
}

/// One copied header line: `<name>: <value>` and CRLF.
pub open spec fn spec_header_line(h: HeaderView) -> Seq<u8> {
    h.name + lit_colon_sp() + h.value + lit_crlf()
}

/// Application headers the framer suppresses: any `Connection`,
/// `Transfer-Encoding` when the framer itself chunks, and `Content-Length`
/// when the framer settles the length machinery itself.
pub open spec fn spec_dropped(h: HeaderView, chunked: bool, suppress_cl: bool) -> bool {
    lower(h.name) == lit_connection() || (chunked && lower(h.name) == lit_transfer_encoding()) || (
    suppress_cl && lower(h.name) == lit_content_length())
}

/// The application's header lines, copied through in order minus the
/// suppressed ones.
pub open spec fn spec_copied_headers(hs: Seq<HeaderView>, chunked: bool, suppress_cl: bool) -> Seq<
    u8,
>
    decreases hs.len(),
{
    if hs.len() == 0 {
        Seq::empty()
    } else {
        (if spec_dropped(hs[0], chunked, suppress_cl) {
            Seq::empty()
        } else {
            spec_header_line(hs[0])
        }) + spec_copied_headers(hs.drop_first(), chunked, suppress_cl)
    }
}

proof fn lemma_copied_push(hs: Seq<HeaderView>, h: HeaderView, ch: bool, su: bool)
    ensures
        spec_copied_headers(hs.push(h), ch, su) == spec_copied_headers(hs, ch, su) + (if spec_dropped(
            h,
            ch,
            su,
        ) {
            Seq::<u8>::empty()
        } else {
            spec_header_line(h)
        }),
    decreases hs.len(),
{
    reveal_with_fuel(spec_copied_headers, 3);
    let tail = if spec_dropped(h, ch, su) {
        Seq::<u8>::empty()
    } else {
        spec_header_line(h)
    };
    if hs.len() == 0 {
        assert(hs.push(h).drop_first() =~= Seq::<HeaderView>::empty());
        assert(hs.push(h)[0] == h);
        assert(spec_copied_headers(hs.push(h), ch, su) =~= spec_copied_headers(hs, ch, su) + tail);
    } else {
        let a = if spec_dropped(hs[0], ch, su) {
            Seq::<u8>::empty()
        } else {
            spec_header_line(hs[0])
        };
        assert(hs.push(h).drop_first() =~= hs.drop_first().push(h));
        assert(hs.push(h)[0] == hs[0]);
        lemma_copied_push(hs.drop_first(), h, ch, su);
        assert(spec_copied_headers(hs.push(h), ch, su) == a + spec_copied_headers(
            hs.drop_first().push(h),
            ch,
            su,
        ));
        assert(spec_copied_headers(hs, ch, su) == a + spec_copied_headers(
            hs.drop_first(),
            ch,
            su,
        ));
        assert(a + (spec_copied_headers(hs.drop_first(), ch, su) + tail) =~= (a
            + spec_copied_headers(hs.drop_first(), ch, su)) + tail);
    }
}

/// The `Connection` line the framer always appends, then the framing line:
/// `Transfer-Encoding: chunked`, or the computed `Content-Length`, or
/// nothing for a bodiless or close-delimited response.
pub open spec fn spec_framing_lines(
    keep_alive: bool,
    chunked: bool,
    content_length: Option<int>,
) -> Seq<u8> {
    (if keep_alive {
        lit_conn_keep_alive_line()
    } else {
        lit_conn_close_line()
    }) + (if chunked {
        lit_te_chunked_line()
    } else {
        match content_length {
            Some(n) => lit_cl_prefix() + dec_numeral(n) + lit_crlf(),
            None => Seq::<u8>::empty(),
        }
    })
}

pub open spec fn opt_len(o: Option<usize>) -> Option<int> {
    match o {
        Some(n) => Some(n as int),
        None => None,
    }
}

/// The whole header block of one response, ended by the empty line.
pub open spec fn spec_header_block(
    minor: u8,
    status: Seq<u8>,
    hs: Seq<HeaderView>,
    keep_alive: bool,
    chunked: bool,
    content_length: Option<int>,
    no_body: bool,
) -> Seq<u8> {
    spec_status_line(minor, status) + spec_copied_headers(
        hs,
        chunked,
        content_length is Some || no_body,
    ) + spec_framing_lines(keep_alive, chunked, content_length) + lit_crlf()
}

/// Produce the exact header block bytes for one response, as
/// `spec_header_block` describes.
#[verifier::rlimit(100)]
pub fn build_headers(
    minor: u8,
    status: &Vec<u8>,
    headers: &Vec<Header>,
    keep_alive: bool,
    chunked: bool,
    content_length: Option<usize>,
    no_body: bool,
) -> (r: Vec<u8>)
    requires
        minor == 0 || minor == 1,
    ensures
        r@ == spec_header_block(
            minor,
            status@,
            hviews(headers@),
            keep_alive,
            chunked,
            opt_len(content_length),
            no_body,
        ),
{
    let suppress_cl = content_length.is_some() || no_body;
    let mut out = bytes_http1();
    out.push(48 + minor);
    out.push(SP);
    append_bytes(&mut out, status.as_slice());
    out.push(CR);
    out.push(LF);
    let ghost sline = spec_status_line(minor, status@);
    proof {
        assert(out@ =~= sline);
    }
    let conn_name = bytes_connection();
    let te_name = bytes_transfer_encoding();
    let cl_name = bytes_content_length();
    proof {
        assert(lower(lit_connection()) =~= lit_connection());
        assert(lower(lit_transfer_encoding()) =~= lit_transfer_encoding());
        assert(lower(lit_content_length()) =~= lit_content_length());
        assert(hviews(headers@).take(0) =~= Seq::<HeaderView>::empty());
        assert(sline + Seq::<u8>::empty() =~= sline);
    }
    let n = headers.len();
    let mut i: usize = 0;
    while i < n
        invariant
            i <= n == headers@.len(),
            conn_name@ == lit_connection(),
            te_name@ == lit_transfer_encoding(),
            cl_name@ == lit_content_length(),
            lower(lit_connection()) == lit_connection(),
            lower(lit_transfer_encoding()) == lit_transfer_encoding(),
            lower(lit_content_length()) == lit_content_length(),
            out@ == sline + spec_copied_headers(
                hviews(headers@).take(i as int),
                chunked,
                suppress_cl,
            ),
        decreases n - i,
    {
        let h = &headers[i];
        let is_conn = eq_ignore_case(h.name.as_slice(), conn_name.as_slice());
        let is_te = chunked && eq_ignore_case(h.name.as_slice(), te_name.as_slice());
        let is_cl = suppress_cl && eq_ignore_case(h.name.as_slice(), cl_name.as_slice());
        let ghost hv = hviews(headers@)[i as int];
        proof {
            assert(hv == headers@[i as int]@);
            assert((is_conn || is_te || is_cl) == spec_dropped(hv, chunked, suppress_cl));
            lemma_copied_push(hviews(headers@).take(i as int), hv, chunked, suppress_cl);
            assert(hviews(headers@).take(i as int).push(hv) =~= hviews(headers@).take(i + 1));
        }
        if !(is_conn || is_te || is_cl) {
            let ghost before = out@;
            append_bytes(&mut out, h.name.as_slice());
            append_bytes(&mut out, &[58, 32]);
            append_bytes(&mut out, h.value.as_slice());
            out.push(CR);
            out.push(LF);
            proof {
                assert([58u8, 32u8]@ =~= lit_colon_sp());
                assert(out@ =~= before + spec_header_line(hv));
                assert(before + spec_header_line(hv) =~= sline + (spec_copied_headers(
                    hviews(headers@).take(i as int),
                    chunked,
                    suppress_cl,
                ) + spec_header_line(hv)));
            }
        } else {
            proof {
                assert(out@ =~= sline + (spec_copied_headers(
                    hviews(headers@).take(i as int),
                    chunked,
                    suppress_cl,
                ) + Seq::<u8>::empty()));
            }
        }
        i = i + 1;
    }
    proof {
        assert(hviews(headers@).take(n as int) =~= hviews(headers@));
    }
    let ghost copied = sline + spec_copied_headers(hviews(headers@), chunked, suppress_cl);
    let ghost fr = spec_framing_lines(keep_alive, chunked, opt_len(content_length));
    if keep_alive {
        let line = bytes_conn_keep_alive_line();
        append_bytes(&mut out, line.as_slice());
    } else {
        let line = bytes_conn_close_line();
        append_bytes(&mut out, line.as_slice());
    }
    if chunked {
        let line = bytes_te_chunked_line();
        append_bytes(&mut out, line.as_slice());
        proof {
            assert(out@ =~= copied + fr);
        }
    } else {
        match content_length {
            Some(l) => {
                let prefix = bytes_cl_prefix();
                append_bytes(&mut out, prefix.as_slice());
                let digits = format_dec(l);
                append_bytes(&mut out, digits.as_slice());
                out.push(CR);
                out.push(LF);
                proof {
                    assert(out@ =~= copied + fr);
                }
            },
            None => {
                proof {
                    assert(out@ =~= copied + fr);
                }
            },
        }
    }
    out.push(CR);
    out.push(LF);
    proof {
        assert(out@ =~= (copied + fr) + lit_crlf());
    }
    out
}

/// The streaming state of one response in flight: fixed framing decisions
/// and whether the body producer is exhausted.
#[derive(Clone, Copy)]
pub struct ResponseStream {
    /// Body chunks go out chunk-framed.
    pub chunked: bool,
    /// The connection persists once this response completes.
    pub keep_alive: bool,
    /// No more bytes will be produced (terminator already handed out).
    pub finished: bool,
    /// A lazy body producer exists beyond any first materialized chunk.
    pub has_producer: bool,
}

pub open spec fn opt_seq(o: Option<Vec<u8>>) -> Option<Seq<u8>> {
    match o {
        Some(v) => Some(v@),
        None => None,
    }
}

/// The initial outbound pieces of one response: the header block, then —
/// unless the status carries no body — the first materialized body chunk,
/// wrapped when chunk-framed. Empty first chunks are skipped.
pub open spec fn spec_response_head(
    minor: u8,
    req_hs: Seq<HeaderView>,
    status: Seq<u8>,
    resp_hs: Seq<HeaderView>,
    has_producer: bool,
    first_chunk: Option<Seq<u8>>,
) -> Seq<Seq<u8>> {
    let plan = spec_plan(minor, req_hs, status, resp_hs, has_producer, first_chunk);
    let head = spec_header_block(
        minor,
        status,
        resp_hs,
        plan.keep_alive,
        plan.chunked,
        plan.content_length,
        plan.no_body,
    );
    if plan.no_body {
        seq![head]
    } else {
        match first_chunk {
            Some(c) => if c.len() > 0 {
                seq![
                    head,
                    if plan.chunked {
                        wrapped_chunk(c)
                    } else {
                        c
                    },
                ]
            } else {
                seq![head]
            },
            None => seq![head],
        }
    }
}

/// Make the persistence and framing decision for one response and frame its
/// header block and first body piece, as `spec_plan` and
/// `spec_response_head` describe. The decision is fixed here, before any
/// byte goes out, for the life of the response.
pub fn prepare_response(
    minor: u8,
    req_headers: &Vec<Header>,
    status: &Vec<u8>,
    resp_headers: &Vec<Header>,
    first_chunk: Option<Vec<u8>>,
    has_producer: bool,
) -> (r: (Vec<Vec<u8>>, ResponseStream))
    requires
        minor == 0 || minor == 1,
    ensures
        ({
            let plan = spec_plan(
                minor,
                hviews(req_headers@),
                status@,
                hviews(resp_headers@),
                has_producer,
                opt_seq(first_chunk),
            );
            &&& r.1.chunked == plan.chunked
            &&& r.1.keep_alive == plan.keep_alive
            &&& r.1.has_producer == has_producer
            &&& r.1.finished == !has_producer
            &&& r.0.deep_view() == spec_response_head(
                minor,
                hviews(req_headers@),
                status@,
                hviews(resp_headers@),
                has_producer,
                opt_seq(first_chunk),
            )
        }),
{
    let requested = should_keep_alive(minor, req_headers);
    let no_body = no_body_status(status);
    let cl_name = bytes_content_length();
    proof {
        assert(lower(lit_content_length()) =~= lit_content_length());
    }
    let cl_hdr: Option<usize> = match header_value(resp_headers, cl_name.as_slice()) {
        Some(v) => parse_numeral(v.as_slice(), 10),
        None => None,
    };
    let length_unknown = cl_hdr.is_none() && !no_body;
    let chunked = requested && length_unknown && minor == 1;
    let keep_alive = requested && (!length_unknown || minor == 1);
    let content_length: Option<usize> = if chunked || no_body {
        None
    } else if cl_hdr.is_some() {
        cl_hdr
    } else if !has_producer {
        match &first_chunk {
            Some(c) => Some(c.len()),
            None => Some(0),
        }
    } else {
        None
    };
    let ghost plan = spec_plan(
        minor,
        hviews(req_headers@),
        status@,
        hviews(resp_headers@),
        has_producer,
        opt_seq(first_chunk),
    );
    proof {
        assert(opt_len(cl_hdr) == resp_content_length(hviews(resp_headers@)));
        assert(chunked == plan.chunked);
        assert(keep_alive == plan.keep_alive);
        assert(opt_len(content_length) == plan.content_length);
    }
    let head = build_headers(
        minor,
        status,
        resp_headers,
        keep_alive,
        chunked,
        content_length,
        no_body,
    );
    let mut pending: Vec<Vec<u8>> = Vec::new();
    if no_body {
        pending.push(head);
    } else {
        match first_chunk {
            Some(c) => {
                pending.push(head);
                if c.len() > 0 {
                    if chunked {
                        pending.push(wrap_chunk(&c));
                    } else {
                        pending.push(c);
                    }
                }
            },
            None => {
                pending.push(head);
            },
        }
    }
    let stream = ResponseStream { chunked, keep_alive, finished: !has_producer, has_producer };
    proof {
        assert(pending.deep_view() =~~= spec_response_head(
            minor,
            hviews(req_headers@),
            status@,
            hviews(resp_headers@),
            has_producer,
            opt_seq(first_chunk),
        ));
    }
    (pending, stream)
}

/// Advance a streaming response by one pulled body chunk: wrap it when
/// chunk-framed; on exhaustion (`None`), mark the stream finished and hand
/// out the chunked terminator when one is owed. A response without a
/// producer finishes at once with nothing further to send.
pub fn next_chunk(stream: &mut ResponseStream, produced: Option<Vec<u8>>) -> (r: Option<Vec<u8>>)
    requires
        (match produced {
            Some(c) => c@.len() > 0,
            None => true,
        }),
    ensures
        final(stream).chunked == old(stream).chunked,
        final(stream).keep_alive == old(stream).keep_alive,
        final(stream).has_producer == old(stream).has_producer,
        old(stream).finished ==> final(stream).finished && r is None,
        !old(stream).finished && !old(stream).has_producer ==> final(stream).finished
            && r is None,
        !old(stream).finished && old(stream).has_producer ==> (match produced {
            Some(c) => !final(stream).finished && (match r {
                Some(v) => v@ == (if old(stream).chunked {
                    wrapped_chunk(c@)
                } else {
                    c@
                }),
                None => false,
            }),
            None => final(stream).finished && (match r {
                Some(v) => old(stream).chunked && v@ == lit_chunk_term(),
                None => !old(stream).chunked,
            }),
        }),
{
    if stream.finished {
        return None;
    }
    if !stream.has_producer {
        stream.finished = true;
        return None;
    }
    match produced {
        Some(c) => {
            if stream.chunked {
                Some(wrap_chunk(&c))
            } else {
                Some(c)
            }
        },
        None => {
            stream.finished = true;
            if stream.chunked {
                let term = bytes_chunk_term();
                proof {
                    assert(term@ =~= lit_chunk_term());
                }
                Some(term)
            } else {
                None
            }
        },
    }
}

} // verus!
