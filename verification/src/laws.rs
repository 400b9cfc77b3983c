//! The decoder's and framer's general laws: what one buffer means never
//! changes as more bytes arrive (so split reads decode exactly like one
//! read), no proper prefix of a complete request decodes to anything but
//! "wait", a chunk-wrapped stream de-chunks to the original payload, and a
//! well-formed request line is recovered exactly.
use vstd::prelude::*;

use crate::bytes::{
    all_digits, crlf2_at, crlf_at, digit_val, find_byte, find_crlf, find_crlf2, hex_numeral,
    is_digit, is_ws, lemma_find_byte, lemma_find_crlf, lemma_find_crlf2, num_val, numeral_value,
    trim_end, trim_start, SP,
};
use crate::conn::lemma_flatten_head;
use crate::chunked::{chunk_size_str, spec_chunked, wrapped_chunk, SpecChunked};
use crate::lit::{lit_chunk_term, lit_cl_prefix, lit_content_length, lit_crlf, lit_http1};
use crate::request::{
    content_length_of, header_lookup, is_target, is_tchar, is_token, parse_header_lines_spec,
    parse_request_line_spec, spec_decode, wants_chunked, HeaderView, ReqLine, RequestView,
    SpecDecode, MAX_HEADERS,
};

verus! {

proof fn lemma_find_crlf_is(s: Seq<u8>, from: int, j: int)
    requires
        0 <= from <= j,
        crlf_at(s, j),
        forall|k: int| from <= k < j ==> !crlf_at(s, k),
    ensures
        find_crlf(s, from) == Some(j),
{
    lemma_find_crlf(s, from);
    match find_crlf(s, from) {
        None => {
            assert(false);
        },
        Some(j2) => {
            if j2 < j {
                assert(!crlf_at(s, j2));
                assert(false);
            }
            if j2 > j {
                assert(false);
            }
        },
    }
}

proof fn lemma_find_crlf2_is(s: Seq<u8>, from: int, j: int)
    requires
        0 <= from <= j,
        crlf2_at(s, j),
        forall|k: int| from <= k < j ==> !crlf2_at(s, k),
    ensures
        find_crlf2(s, from) == Some(j),
{
    lemma_find_crlf2(s, from);
    match find_crlf2(s, from) {
        None => {
            assert(false);
        },
        Some(j2) => {
            if j2 < j {
                assert(!crlf2_at(s, j2));
                assert(false);
            }
            if j2 > j {
                assert(false);
            }
        },
    }
}

proof fn lemma_find_byte_is(s: Seq<u8>, x: u8, from: int, j: int)
    requires
        0 <= from <= j < s.len(),
        s[j] == x,
        forall|k: int| from <= k < j ==> s[k] != x,
    ensures
        find_byte(s, x, from) == Some(j),
{
    lemma_find_byte(s, x, from);
    match find_byte(s, x, from) {
        None => {
            assert(false);
        },
        Some(j2) => {
            if j2 < j {
                assert(s[j2] != x);
                assert(false);
            }
            if j2 > j {
                assert(false);
            }
        },
    }
}

/// A CRLF found in `b` is still the first CRLF of `b` extended by `ext`.
proof fn lemma_find_crlf_extend(b: Seq<u8>, ext: Seq<u8>, from: int)
    requires
        0 <= from,
        find_crlf(b, from) is Some,
    ensures
        find_crlf(b + ext, from) == find_crlf(b, from),
{
    lemma_find_crlf(b, from);
    match find_crlf(b, from) {
        Some(j) => {
            let c = b + ext;
            assert(crlf_at(c, j));
            assert forall|k: int| from <= k < j implies !crlf_at(c, k) by {
                assert(!crlf_at(b, k));
                if crlf_at(c, k) {
                    assert(b[k] == 13 && b[k + 1] == 10);
                }
            }
            lemma_find_crlf_is(c, from, j);
        },
        None => {},
    }
}

/// A header-block end found in `b` is still the first one of `b` extended
/// by `ext`.
proof fn lemma_find_crlf2_extend(b: Seq<u8>, ext: Seq<u8>, from: int)
    requires
        0 <= from,
        find_crlf2(b, from) is Some,
    ensures
        find_crlf2(b + ext, from) == find_crlf2(b, from),
{
    lemma_find_crlf2(b, from);
    match find_crlf2(b, from) {
        Some(j) => {
            let c = b + ext;
            assert(crlf2_at(c, j));
            assert forall|k: int| from <= k < j implies !crlf2_at(c, k) by {
                assert(!crlf2_at(b, k));
                if crlf2_at(c, k) {
                    assert(b[k] == 13 && b[k + 1] == 10 && b[k + 2] == 13 && b[k + 3] == 10);
                }
            }
            lemma_find_crlf2_is(c, from, j);
        },
        None => {},
    }
}

/// Header lines that lie wholly inside `b` parse the same once `ext` is
/// appended.
proof fn lemma_header_lines_extend(b: Seq<u8>, ext: Seq<u8>, i: int, end: int)
    requires
        0 <= i <= end <= b.len(),
    ensures
        parse_header_lines_spec(b + ext, i, end) == parse_header_lines_spec(b, i, end),
    decreases end - i,
{
    let c = b + ext;
    if i == end {
    } else {
        lemma_find_crlf(b, i);
        lemma_find_crlf(c, i);
        match find_crlf(b, i) {
            None => {
                match find_crlf(c, i) {
                    None => {},
                    Some(j2) => {
                        if j2 + 2 <= b.len() {
                            assert(crlf_at(b, j2));
                            assert(false);
                        }
                        assert(j2 + 2 > end);
                    },
                }
            },
            Some(j) => {
                lemma_find_crlf_extend(b, ext, i);
                if j + 2 <= end {
                    assert(c.subrange(i, j) =~= b.subrange(i, j));
                    lemma_header_lines_extend(b, ext, j + 2, end);
                }
            },
        }
    }
}

/// Chunk framing decided from `b` alone keeps its meaning once `ext` is
/// appended: a complete body stays that body, malformed stays malformed.
proof fn lemma_chunked_extend(b: Seq<u8>, ext: Seq<u8>, cursor: int, acc: Seq<u8>)
    requires
        0 <= cursor <= b.len(),
    ensures
        spec_chunked(b, cursor, acc) matches SpecChunked::Complete { body, consumed }
            ==> spec_chunked(b + ext, cursor, acc) == (SpecChunked::Complete { body, consumed }),
        spec_chunked(b, cursor, acc) is Malformed ==> spec_chunked(b + ext, cursor, acc)
            is Malformed,
    decreases b.len() - cursor,
{
    let c = b + ext;
    lemma_find_crlf(b, cursor);
    match find_crlf(b, cursor) {
        None => {},
        Some(j) => {
            lemma_find_crlf_extend(b, ext, cursor);
            assert(c.subrange(cursor, j) =~= b.subrange(cursor, j));
            match numeral_value(chunk_size_str(b.subrange(cursor, j)), 16) {
                None => {},
                Some(size) => {
                    crate::bytes::lemma_num_val_nonneg(
                        chunk_size_str(b.subrange(cursor, j)),
                        16,
                    );
                    if size == 0 {
                    } else {
                        if j + 4 + size <= b.len() {
                            assert(c.subrange(j + 2, j + 2 + size) =~= b.subrange(
                                j + 2,
                                j + 2 + size,
                            ));
                            lemma_chunked_extend(b, ext, j + 4 + size, acc + b.subrange(
                                j + 2,
                                j + 2 + size,
                            ));
                        }
                    }
                },
            }
        },
    }
}

/// A `Content-Length` value is never negative.
proof fn lemma_content_length_nonneg(hs: Seq<HeaderView>)
    ensures
        content_length_of(hs) >= 0,
{
    match header_lookup(hs, lit_content_length()) {
        Some(v) => {
            match numeral_value(v, 10) {
                Some(n) => {
                    crate::bytes::lemma_num_val_nonneg(v, 10);
                },
                None => {},
            }
        },
        None => {},
    }
}

/// What a buffer decodes to never changes as more bytes arrive: a complete
/// request stays that request with that consumed count, and a malformed
/// buffer stays malformed. With `decode` being a function of the buffer,
/// this is why feeding a request in any number of pieces ends with the same
/// request as feeding it whole.
pub proof fn lemma_decode_extension(b: Seq<u8>, ext: Seq<u8>)
    ensures
        spec_decode(b) matches SpecDecode::Complete { req, consumed } ==> spec_decode(b + ext)
            == (SpecDecode::Complete { req, consumed }),
        spec_decode(b) is Malformed ==> spec_decode(b + ext) is Malformed,
{
    let c = b + ext;
    match find_crlf2(b, 0) {
        None => {},
        Some(he) => {
            lemma_find_crlf2(b, 0);
            lemma_find_crlf2_extend(b, ext, 0);
            match find_crlf(b, 0) {
                None => {
                    lemma_find_crlf(b, 0);
                    assert(crlf_at(b, he));
                    assert(false);
                },
                Some(j0) => {
                    lemma_find_crlf(b, 0);
                    lemma_find_crlf_extend(b, ext, 0);
                    assert(crlf_at(b, he));
                    assert(j0 <= he);
                    assert(c.take(j0) =~= b.take(j0));
                    match parse_request_line_spec(b.take(j0)) {
                        None => {},
                        Some(rl) => {
                            lemma_header_lines_extend(b, ext, j0 + 2, he + 2);
                            match parse_header_lines_spec(b, j0 + 2, he + 2) {
                                None => {},
                                Some(hs) => {
                                    if hs.len() <= MAX_HEADERS {
                                        if wants_chunked(hs) {
                                            lemma_chunked_extend(b, ext, he + 4, Seq::empty());
                                        } else {
                                            let cl = content_length_of(hs);
                                            lemma_content_length_nonneg(hs);
                                            if he + 4 + cl <= b.len() {
                                                assert(c.subrange(he + 4, he + 4 + cl)
                                                    =~= b.subrange(he + 4, he + 4 + cl));
                                            }
                                        }
                                    }
                                },
                            }
                        },
                    }
                },
            }
        },
    }
}

/// No proper prefix of a request that decodes completely and exactly fills
/// its buffer decodes to anything but "wait for more bytes": under partial
/// reads the decoder never jumps early and never errs on a valid request.
pub proof fn lemma_prefix_incomplete(b: Seq<u8>, req: RequestView, i: int)
    requires
        spec_decode(b) == (SpecDecode::Complete { req, consumed: b.len() as int }),
        0 <= i < b.len(),
    ensures
        spec_decode(b.take(i)) is Incomplete,
{
    let p = b.take(i);
    let rest = b.skip(i);
    assert(p + rest =~= b);
    lemma_decode_extension(p, rest);
    match spec_decode(p) {
        SpecDecode::Complete { req: r2, consumed: n2 } => {
            lemma_decode_consumed_bound(p);
            assert(n2 <= p.len());
            assert(spec_decode(b) == (SpecDecode::Complete { req: r2, consumed: n2 }));
            assert(false);
        },
        SpecDecode::Incomplete => {},
        SpecDecode::Malformed => {
            assert(spec_decode(b) is Malformed);
            assert(false);
        },
    }
}

/// A complete decode never consumes more bytes than the buffer holds.
pub open spec fn spec_decode_consumed_bound(b: Seq<u8>) -> bool {
    match spec_decode(b) {
        SpecDecode::Complete { req, consumed } => consumed <= b.len(),
        _ => true,
    }
}

/// The consumed count of a complete decode never exceeds the buffer.
pub proof fn lemma_decode_consumed_bound(b: Seq<u8>)
    ensures
        spec_decode_consumed_bound(b),
{
    match find_crlf2(b, 0) {
        None => {},
        Some(he) => {
            lemma_find_crlf2(b, 0);
            match find_crlf(b, 0) {
                None => {},
                Some(j0) => {
                    match parse_request_line_spec(b.take(j0)) {
                        None => {},
                        Some(rl) => {
                            match parse_header_lines_spec(b, j0 + 2, he + 2) {
                                None => {},
                                Some(hs) => {
                                    if hs.len() <= MAX_HEADERS && wants_chunked(hs) {
                                        lemma_chunked_consumed_bound(b, he + 4, Seq::empty());
                                    }
                                },
                            }
                        },
                    }
                },
            }
        },
    }
}

proof fn lemma_chunked_consumed_bound(b: Seq<u8>, cursor: int, acc: Seq<u8>)
    requires
        0 <= cursor <= b.len(),
    ensures
        spec_chunked(b, cursor, acc) matches SpecChunked::Complete { body, consumed }
            ==> cursor <= consumed <= b.len(),
    decreases b.len() - cursor,
{
    lemma_find_crlf(b, cursor);
    match find_crlf(b, cursor) {
        None => {},
        Some(j) => {
            match numeral_value(chunk_size_str(b.subrange(cursor, j)), 16) {
                None => {},
                Some(size) => {
                    crate::bytes::lemma_num_val_nonneg(
                        chunk_size_str(b.subrange(cursor, j)),
                        16,
                    );
                    if size != 0 && j + 4 + size <= b.len() {
                        lemma_chunked_consumed_bound(b, j + 4 + size, acc + b.subrange(
                            j + 2,
                            j + 2 + size,
                        ));
                    }
                },
            }
        },
    }
}

/// Every byte of a hexadecimal numeral is a hex digit.
proof fn lemma_hex_numeral_digits(n: int)
    requires
        n >= 0,
    ensures
        hex_numeral(n).len() >= 1,
        all_digits(hex_numeral(n), 16),
    decreases n,
{
    if n < 16 {
    } else {
        lemma_hex_numeral_digits(n / 16);
        let s = hex_numeral(n);
        assert forall|i: int| 0 <= i < s.len() implies is_digit(s[i], 16) by {
            if i < hex_numeral(n / 16).len() {
                assert(s[i] == hex_numeral(n / 16)[i]);
            }
        }
    }
}

/// Writing a number in hexadecimal and reading it back gives the number.
proof fn lemma_hex_roundtrip(n: int)
    requires
        n >= 0,
    ensures
        num_val(hex_numeral(n), 16) == n,
    decreases n,
{
    if n < 16 {
        let s = hex_numeral(n);
        assert(s.drop_last() =~= Seq::<u8>::empty());
        assert(num_val(Seq::<u8>::empty(), 16) == 0);
    } else {
        lemma_hex_roundtrip(n / 16);
        let s = hex_numeral(n);
        assert(s.drop_last() =~= hex_numeral(n / 16));
        assert(s.last() == crate::bytes::hex_digit_rep(n % 16));
    }
}

/// A non-empty run of digits needs no trimming and holds no extension
/// separator: it is its own chunk-size numeral.
proof fn lemma_digits_size_str(s: Seq<u8>)
    requires
        s.len() >= 1,
        all_digits(s, 16),
    ensures
        chunk_size_str(s) == s,
{
    assert(digit_val(s[0]) < 16);
    assert(!is_ws(s[0]));
    assert(digit_val(s.last()) < 16);
    assert(!is_ws(s.last()));
    assert(trim_start(s) == s);
    assert(trim_end(s) == s);
    lemma_find_byte(s, 59, 0);
    match find_byte(s, 59, 0) {
        Some(j) => {
            assert(digit_val(s[j]) < 16);
            assert(false);
        },
        None => {},
    }
}

/// Every byte of a decimal numeral is a decimal digit.
proof fn lemma_dec_numeral_digits(n: int)
    requires
        n >= 0,
    ensures
        crate::bytes::dec_numeral(n).len() >= 1,
        all_digits(crate::bytes::dec_numeral(n), 10),
    decreases n,
{
    if n < 10 {
    } else {
        lemma_dec_numeral_digits(n / 10);
        let s = crate::bytes::dec_numeral(n);
        assert forall|i: int| 0 <= i < s.len() implies is_digit(s[i], 10) by {
            if i < crate::bytes::dec_numeral(n / 10).len() {
                assert(s[i] == crate::bytes::dec_numeral(n / 10)[i]);
            }
        }
    }
}

/// Writing a number in decimal and reading it back gives the number: the
/// `Content-Length` value the framer emits denotes exactly the length it
/// computed.
pub proof fn lemma_length_line_round_trip(n: int)
    requires
        0 <= n <= usize::MAX,
    ensures
        numeral_value(crate::bytes::dec_numeral(n), 10) == Some(n),
    decreases n,
{
    lemma_dec_numeral_digits(n);
    if n < 10 {
        let s = crate::bytes::dec_numeral(n);
        assert(s.drop_last() =~= Seq::<u8>::empty());
        assert(num_val(Seq::<u8>::empty(), 10) == 0);
    } else {
        lemma_length_line_round_trip(n / 10);
        let s = crate::bytes::dec_numeral(n);
        assert(s.drop_last() =~= crate::bytes::dec_numeral(n / 10));
        assert(s.last() == (48 + n % 10) as u8);
    }
}

/// The wire form of a sequence of body chunks: each chunk wrapped, then the
/// terminal zero-size chunk.
pub open spec fn chunk_stream(chunks: Seq<Seq<u8>>) -> Seq<u8> {
    chunks.map_values(|c: Seq<u8>| wrapped_chunk(c)).flatten() + lit_chunk_term()
}

proof fn lemma_stream_decode(b: Seq<u8>, cursor: int, acc: Seq<u8>, chunks: Seq<Seq<u8>>)
    requires
        0 <= cursor <= b.len(),
        b.skip(cursor) == chunk_stream(chunks),
        forall|i: int| 0 <= i < chunks.len() ==> 0 < #[trigger] chunks[i].len() <= usize::MAX,
    ensures
        spec_chunked(b, cursor, acc) == (SpecChunked::Complete {
            body: acc + chunks.flatten(),
            consumed: b.len() as int,
        }),
    decreases chunks.len(),
{
    let suffix = b.skip(cursor);
    let term = lit_chunk_term();
    if chunks.len() == 0 {
        assert(chunks.map_values(|c: Seq<u8>| wrapped_chunk(c)).flatten() =~= Seq::<u8>::empty());
        assert(suffix =~= term);
        assert(b.len() - cursor == 5);
        assert(b[cursor] == 48 && b[cursor + 1] == 13 && b[cursor + 2] == 10 && b[cursor + 3]
            == 13 && b[cursor + 4] == 10);
        assert(crlf_at(b, cursor + 1));
        assert forall|k: int| cursor <= k < cursor + 1 implies !crlf_at(b, k) by {
            assert(b[cursor] == 48);
        }
        lemma_find_crlf_is(b, cursor, cursor + 1);
        let line = b.subrange(cursor, cursor + 1);
        assert(line =~= seq![48u8]);
        assert(all_digits(line, 16));
        lemma_digits_size_str(line);
        assert(line.drop_last() =~= Seq::<u8>::empty());
        assert(num_val(Seq::<u8>::empty(), 16) == 0);
        assert(line.last() == 48);
        assert(num_val(line, 16) == 0);
        assert(numeral_value(line, 16) == Some(0int));
        assert(cursor + 1 + 4 <= b.len());
        assert(spec_chunked(b, cursor, acc) == (SpecChunked::Complete {
            body: acc,
            consumed: cursor + 5,
        }));
        assert(acc + chunks.flatten() =~= acc);
    } else {
        let c0 = chunks[0];
        let l = c0.len() as int;
        let hex = hex_numeral(l);
        let hl = hex.len() as int;
        let w = wrapped_chunk(c0);
        let rest = chunks.drop_first();
        let tail = chunk_stream(rest);
        let mapped = chunks.map_values(|c: Seq<u8>| wrapped_chunk(c));
        lemma_flatten_head(mapped);
        assert(mapped[0] == w);
        assert(mapped.drop_first() =~= rest.map_values(|c: Seq<u8>| wrapped_chunk(c)));
        assert(suffix =~= w + tail);
        lemma_hex_numeral_digits(l);
        lemma_hex_roundtrip(l);
        assert(w =~= hex + lit_crlf() + c0 + lit_crlf());
        assert(w.len() == hl + 2 + l + 2);
        assert forall|t: int| 0 <= t < w.len() implies b[cursor + t] == w[t] by {
            assert(suffix[t] == b[cursor + t]);
            assert((w + tail)[t] == w[t]);
        }
        assert(suffix.len() == b.len() - cursor);
        assert(lit_chunk_term().len() == 5);
        assert(tail.len() >= 5);
        assert(b.len() >= cursor + w.len() + 5);
        assert(crlf_at(b, cursor + hl)) by {
            assert(w[hl] == 13 && w[hl + 1] == 10);
        }
        assert forall|k: int| cursor <= k < cursor + hl implies !crlf_at(b, k) by {
            assert(w[k - cursor] == hex[k - cursor]);
            assert(is_digit(hex[k - cursor], 16));
            assert(digit_val(13) == 255);
        }
        lemma_find_crlf_is(b, cursor, cursor + hl);
        let j = cursor + hl;
        let line = b.subrange(cursor, j);
        assert(line =~= hex);
        lemma_digits_size_str(hex);
        assert(numeral_value(hex, 16) == Some(l));
        assert(l > 0);
        assert(j + 4 + l <= b.len());
        let payload = b.subrange(j + 2, j + 2 + l);
        assert(payload =~= c0) by {
            assert forall|t: int| 0 <= t < l implies b.subrange(j + 2, j + 2 + l)[t] == c0[t] by {
                assert(b[cursor + (hl + 2 + t)] == w[hl + 2 + t]);
                assert(w[hl + 2 + t] == c0[t]);
            }
        }
        assert(b.skip(cursor + w.len()) =~= tail) by {
            assert forall|t: int| 0 <= t < tail.len() implies b.skip(cursor + w.len())[t]
                == tail[t] by {
                assert(b[cursor + w.len() + t] == suffix[w.len() + t]);
                assert((w + tail)[w.len() + t] == tail[t]);
            }
        }
        assert forall|i: int| 0 <= i < rest.len() implies 0 < #[trigger] rest[i].len()
            <= usize::MAX by {
            assert(rest[i] == chunks[i + 1]);
        }
        lemma_stream_decode(b, cursor + w.len(), acc + c0, rest);
        assert(spec_chunked(b, cursor, acc) == spec_chunked(b, j + 4 + l, acc + payload));
        assert(acc + payload =~= acc + c0);
        assert((acc + c0) + rest.flatten() =~= acc + chunks.flatten()) by {
            lemma_flatten_head(chunks);
        }
    }
}

/// Round trip: a body split into non-empty chunks, wrapped by the framer's
/// chunk wrapper and closed with the terminal chunk, de-chunks to exactly
/// the original payload — and consumes exactly the wrapped stream.
pub proof fn lemma_chunked_round_trip(chunks: Seq<Seq<u8>>)
    requires
        forall|i: int| 0 <= i < chunks.len() ==> 0 < #[trigger] chunks[i].len() <= usize::MAX,
    ensures
        spec_chunked(chunk_stream(chunks), 0, Seq::empty()) == (SpecChunked::Complete {
            body: chunks.flatten(),
            consumed: chunk_stream(chunks).len() as int,
        }),
{
    let b = chunk_stream(chunks);
    assert(b.skip(0) =~= b);
    lemma_stream_decode(b, 0, Seq::empty(), chunks);
    assert(Seq::<u8>::empty() + chunks.flatten() =~= chunks.flatten());
}

/// A request line assembled from its parts.
pub open spec fn req_line(m: Seq<u8>, p: Seq<u8>, v: u8) -> Seq<u8> {
    m + seq![SP] + p + seq![SP] + lit_http1() + seq![(48 + v) as u8]
}

/// Every well-formed request line parses back to exactly its method, path
/// and protocol minor version.
pub proof fn lemma_request_line_parses(m: Seq<u8>, p: Seq<u8>, v: u8)
    requires
        is_token(m),
        is_target(p),
        v == 0 || v == 1,
    ensures
        parse_request_line_spec(req_line(m, p, v)) == Some(
            ReqLine { method: m, path: p, minor: v },
        ),
{
    let line = req_line(m, p, v);
    let ml = m.len() as int;
    let pl = p.len() as int;
    assert(line.len() == ml + 1 + pl + 1 + 8);
    assert(line[ml] == SP);
    assert forall|k: int| 0 <= k < ml implies line[k] != SP by {
        assert(line[k] == m[k]);
        assert(is_tchar(m[k]));
    }
    lemma_find_byte_is(line, SP, 0, ml);
    assert(line[ml + 1 + pl] == SP);
    assert forall|k: int| ml + 1 <= k < ml + 1 + pl implies line[k] != SP by {
        assert(line[k] == p[k - ml - 1]);
        assert(crate::request::is_vchar(p[k - ml - 1]));
    }
    lemma_find_byte_is(line, SP, ml + 1, ml + 1 + pl);
    assert(line.take(ml) =~= m);
    assert(line.subrange(ml + 1, ml + 1 + pl) =~= p);
    let proto = line.subrange(ml + 1 + pl + 1, line.len() as int);
    assert(proto =~= lit_http1() + seq![(48 + v) as u8]);
    assert(proto.take(7) =~= lit_http1());
    assert(proto[7] == 48 + v);
}

/// A minimal complete request — a well-formed request line, no headers, no
/// body — decodes to exactly its method, path and minor version, consuming
/// the whole buffer.
pub proof fn lemma_decode_request_line(m: Seq<u8>, p: Seq<u8>, v: u8)
    requires
        is_token(m),
        is_target(p),
        v == 0 || v == 1,
    ensures
        ({
            let b = req_line(m, p, v) + lit_crlf() + lit_crlf();
            spec_decode(b) == (SpecDecode::Complete {
                req: RequestView {
                    method: m,
                    path: p,
                    minor: v,
                    headers: Seq::empty(),
                    body: Seq::empty(),
                },
                consumed: b.len() as int,
            })
        }),
{
    let line = req_line(m, p, v);
    let ll = line.len() as int;
    let b = line + lit_crlf() + lit_crlf();
    assert(b.len() == ll + 4);
    assert forall|k: int| 0 <= k < ll implies b[k] != 13 by {
        assert(b[k] == line[k]);
        lemma_req_line_no_cr(m, p, v, k);
    }
    assert(b[ll] == 13 && b[ll + 1] == 10 && b[ll + 2] == 13 && b[ll + 3] == 10);
    assert(crlf2_at(b, ll));
    assert forall|k: int| 0 <= k < ll implies !crlf2_at(b, k) by {
        assert(b[k] != 13);
    }
    lemma_find_crlf2_is(b, 0, ll);
    assert(crlf_at(b, ll));
    assert forall|k: int| 0 <= k < ll implies !crlf_at(b, k) by {
        assert(b[k] != 13);
    }
    lemma_find_crlf_is(b, 0, ll);
    assert(b.take(ll) =~= line);
    lemma_request_line_parses(m, p, v);
    assert(parse_header_lines_spec(b, ll + 2, ll + 2) == Some(Seq::<HeaderView>::empty()));
    assert(header_lookup(Seq::<HeaderView>::empty(), crate::lit::lit_transfer_encoding())
        is None);
    assert(!wants_chunked(Seq::<HeaderView>::empty()));
    assert(header_lookup(Seq::<HeaderView>::empty(), lit_content_length()) is None);
    assert(content_length_of(Seq::<HeaderView>::empty()) == 0);
    assert(b.subrange(ll + 4, ll + 4) =~= Seq::<u8>::empty());
    assert(spec_decode(b) =~= (SpecDecode::Complete {
        req: RequestView {
            method: m,
            path: p,
            minor: v,
            headers: Seq::empty(),
            body: Seq::empty(),
        },
        consumed: b.len() as int,
    }));
}

/// The bytes of the `Content-Length` header-line prefix, byte by byte: no
/// carriage return, the colon exactly at its separator position, a space
/// after it, token characters before it.
proof fn lemma_cl_prefix_bytes(t: int)
    requires
        0 <= t < 16,
    ensures
        lit_cl_prefix().len() == 16,
        lit_cl_prefix()[t] != 13,
        lit_cl_prefix()[14] == 58,
        lit_cl_prefix()[15] == 32,
        t < 14 ==> lit_cl_prefix()[t] != 58 && is_tchar(lit_cl_prefix()[t]),
{
}

/// A request carrying a `Content-Length`-framed body, assembled from its
/// parts.
pub open spec fn cl_request(m: Seq<u8>, p: Seq<u8>, v: u8, body: Seq<u8>) -> Seq<u8> {
    req_line(m, p, v) + lit_crlf() + lit_cl_prefix() + crate::bytes::dec_numeral(
        body.len() as int,
    ) + lit_crlf() + lit_crlf() + body
}

/// Any well-formed request with a `Content-Length`-framed body — whatever
/// bytes the body holds — decodes to exactly its method, path, minor
/// version and body, consuming the whole buffer.
#[verifier::rlimit(100)]
pub proof fn lemma_decode_cl_request(m: Seq<u8>, p: Seq<u8>, v: u8, body: Seq<u8>)
    requires
        is_token(m),
        is_target(p),
        v == 0 || v == 1,
        body.len() <= usize::MAX,
    ensures
        ({
            let b = cl_request(m, p, v, body);
            spec_decode(b) matches SpecDecode::Complete { req, consumed } && req.method == m
                && req.path == p && req.minor == v && req.body == body && consumed == b.len()
        }),
{
    let b = cl_request(m, p, v, body);
    let line1 = req_line(m, p, v);
    let ll = line1.len() as int;
    let bl = body.len() as int;
    let digits = crate::bytes::dec_numeral(bl);
    let d = digits.len() as int;
    let hline = lit_cl_prefix() + digits;
    let hl = hline.len() as int;
    lemma_dec_numeral_digits(bl);
    lemma_length_line_round_trip(bl);
    lemma_cl_prefix_bytes(0);
    assert(hl == 16 + d);
    let he = ll + 2 + hl;
    assert(b.len() == he + 4 + bl);
    assert(b =~= line1 + lit_crlf() + hline + lit_crlf() + lit_crlf() + body);
    assert forall|k: int| 0 <= k < ll implies b[k] == line1[k] && b[k] != 13 by {
        lemma_req_line_no_cr(m, p, v, k);
    }
    assert(b[ll] == 13 && b[ll + 1] == 10);
    assert forall|t: int| 0 <= t < hl implies b[ll + 2 + t] == hline[t] && hline[t] != 13 by {
        if t < 16 {
            lemma_cl_prefix_bytes(t);
            assert(hline[t] == lit_cl_prefix()[t]);
        } else {
            assert(hline[t] == digits[t - 16]);
            assert(is_digit(digits[t - 16], 10));
        }
    }
    assert(b[he] == 13 && b[he + 1] == 10 && b[he + 2] == 13 && b[he + 3] == 10);

    // The header block ends exactly at the blank line after the header.
    assert(crlf2_at(b, he));
    assert forall|k: int| 0 <= k < he implies !crlf2_at(b, k) by {
        if k < ll {
            assert(b[k] != 13);
        } else if k == ll {
            assert(b[ll + 2] == hline[0]);
            assert(b[ll + 2] != 13);
        } else if k == ll + 1 {
            assert(b[ll + 1] != 13);
        } else {
            assert(b[k] == hline[k - ll - 2]);
            assert(b[k] != 13);
        }
    }
    lemma_find_crlf2_is(b, 0, he);

    // The request line ends at the first CRLF.
    assert(crlf_at(b, ll));
    assert forall|k: int| 0 <= k < ll implies !crlf_at(b, k) by {
        assert(b[k] != 13);
    }
    lemma_find_crlf_is(b, 0, ll);
    assert(b.take(ll) =~= line1);
    lemma_request_line_parses(m, p, v);

    // The single header line ends at the next CRLF.
    assert(crlf_at(b, he));
    assert forall|k: int| ll + 2 <= k < he implies !crlf_at(b, k) by {
        assert(b[k] == hline[k - ll - 2]);
        assert(b[k] != 13);
    }
    lemma_find_crlf_is(b, ll + 2, he);
    assert(b.subrange(ll + 2, he) =~= hline);

    // That line parses to `Content-Length: <digits>`.
    assert forall|k: int| 0 <= k < 14 implies hline[k] != 58 by {
        lemma_cl_prefix_bytes(k);
    }
    assert(hline[14] == 58);
    lemma_find_byte_is(hline, 58, 0, 14);
    let name = hline.take(14);
    assert(name =~= lit_cl_prefix().take(14));
    assert(is_token(name)) by {
        assert forall|k: int| 0 <= k < 14 implies is_tchar(name[k]) by {
            lemma_cl_prefix_bytes(k);
        }
    }
    let raw_value = hline.subrange(15, hl);
    assert(raw_value =~= seq![32u8] + digits);
    assert(raw_value.drop_first() =~= digits);
    assert(trim_start(raw_value) == trim_start(digits));
    assert(digits[0] != 32 && digits[0] != 9) by {
        assert(is_digit(digits[0], 10));
    }
    assert(trim_start(digits) == digits);
    assert(digits.last() != 32 && digits.last() != 9) by {
        assert(is_digit(digits.last(), 10));
    }
    assert(trim_end(digits) == digits);
    let h = crate::request::parse_header_line_spec(hline).unwrap();
    assert(h.name == name && h.value == digits);

    // The header block parses to that single header.
    assert(parse_header_lines_spec(b, he + 2, he + 2) == Some(Seq::<HeaderView>::empty()));
    assert(parse_header_lines_spec(b, ll + 2, he + 2) == Some(seq![h])) by {
        assert(seq![h] + Seq::<HeaderView>::empty() =~= seq![h]);
    }

    // Lookups on that one header: it is a Content-Length, not a
    // Transfer-Encoding.
    assert(crate::bytes::lower(name) =~= lit_content_length());
    assert(header_lookup(seq![h], lit_content_length()) == Some(digits)) by {
        assert(seq![h][0] == h);
    }
    assert(crate::bytes::lower(name) != crate::lit::lit_transfer_encoding()) by {
        assert(crate::bytes::lower(name).len() == 14);
        assert(crate::lit::lit_transfer_encoding().len() == 17);
    }
    assert(header_lookup(seq![h], crate::lit::lit_transfer_encoding()) is None) by {
        assert(seq![h][0] == h);
        assert(crate::bytes::lower(h.name) != crate::lit::lit_transfer_encoding());
        assert(seq![h].drop_first() =~= Seq::<HeaderView>::empty());
        assert(header_lookup(
            Seq::<HeaderView>::empty(),
            crate::lit::lit_transfer_encoding(),
        ) is None);
    }
    assert(!wants_chunked(seq![h]));
    assert(content_length_of(seq![h]) == bl);

    // The body is exactly the trailing bytes.
    assert(b.subrange(he + 4, he + 4 + bl) =~= body);
}

/// No byte of a well-formed request line is a carriage return.
proof fn lemma_req_line_no_cr(m: Seq<u8>, p: Seq<u8>, v: u8, k: int)
    requires
        is_token(m),
        is_target(p),
        v == 0 || v == 1,
        0 <= k < req_line(m, p, v).len(),
    ensures
        req_line(m, p, v)[k] != 13,
{
    let line = req_line(m, p, v);
    let ml = m.len() as int;
    let pl = p.len() as int;
    if k < ml {
        assert(line[k] == m[k]);
        assert(is_tchar(m[k]));
    } else if k == ml {
        assert(line[k] == SP);
    } else if k < ml + 1 + pl {
        assert(line[k] == p[k - ml - 1]);
        assert(crate::request::is_vchar(p[k - ml - 1]));
    } else if k == ml + 1 + pl {
        assert(line[k] == SP);
    } else if k < ml + 1 + pl + 1 + 7 {
        assert(line[k] == lit_http1()[k - ml - pl - 2]);
    } else {
        assert(line[k] == 48 + v);
    }
}

} // verus!
