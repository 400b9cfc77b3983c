//! The request decoder: parses one HTTP/1.x request — request line, header
//! lines, then a body framed by `Content-Length` or by chunked
//! transfer-encoding — incrementally from a connection's accumulated byte
//! buffer. `spec_decode` is the mathematical description; `decode` is the
//! executable decoder, proved to agree with it.
use vstd::prelude::*;

use crate::bytes::{
    contains, contains_seq, eq_ignore_case, find_byte, find_crlf, find_crlf2, lemma_find_crlf,
    lower, matches_at, numeral_value, parse_numeral, scan_byte, scan_crlf, scan_crlf2,
    to_lower_vec, trim_copy, trimmed, SP,
};
use crate::chunked::{decode_chunked, spec_chunked, ChunkedResult, SpecChunked};
use crate::lit::{
    bytes_chunked, bytes_content_length, bytes_http1, bytes_transfer_encoding, lit_chunked,
    lit_content_length, lit_http1, lit_transfer_encoding,
};
use vstd::slice::slice_to_vec;

verus! {

/// No more header lines than this bound are accepted in one request.
pub const MAX_HEADERS: usize = 64;

/// One header line: a name and a value, original casing preserved.
pub struct Header {
    pub name: Vec<u8>,
    pub value: Vec<u8>,
}

#[verifier::ext_equal]
pub ghost struct HeaderView {
    pub name: Seq<u8>,
    pub value: Seq<u8>,
}

impl View for Header {
    type V = HeaderView;

    open spec fn view(&self) -> HeaderView {
        HeaderView { name: self.name@, value: self.value@ }
    }
}

/// A complete decoded request, body already de-chunked if it arrived
/// chunk-framed. The header sequence may hold duplicate names; lookup is
/// case-insensitive and the first match wins.
pub struct ParsedRequest {
    pub method: Vec<u8>,
    pub path: Vec<u8>,
    /// Protocol minor version: 0 or 1.
    pub minor: u8,
    pub headers: Vec<Header>,
    pub body: Vec<u8>,
}

#[verifier::ext_equal]
pub ghost struct RequestView {
    pub method: Seq<u8>,
    pub path: Seq<u8>,
    pub minor: u8,
    pub headers: Seq<HeaderView>,
    pub body: Seq<u8>,
}

pub open spec fn hviews(hs: Seq<Header>) -> Seq<HeaderView> {
    hs.map_values(|h: Header| h@)
}

impl View for ParsedRequest {
    type V = RequestView;

    open spec fn view(&self) -> RequestView {
        RequestView {
            method: self.method@,
            path: self.path@,
            minor: self.minor,
            headers: hviews(self.headers@),
            body: self.body@,
        }
    }
}

/// Token characters of the HTTP grammar (method and header names).
pub open spec fn is_tchar(b: u8) -> bool {
    (48 <= b && b <= 57) || (65 <= b && b <= 90) || (97 <= b && b <= 122) || b == 33 || (35 <= b
        && b <= 39) || b == 42 || b == 43 || b == 45 || b == 46 || b == 94 || b == 95 || b == 96
        || b == 124 || b == 126
}

/// A non-empty run of token characters.
pub open spec fn is_token(s: Seq<u8>) -> bool {
    s.len() > 0 && (forall|i: int| 0 <= i < s.len() ==> is_tchar(s[i]))
}

/// Bytes a request-target may hold: anything visible (no controls, no
/// space).
pub open spec fn is_vchar(b: u8) -> bool {
    b > 32 && b != 127
}

/// A non-empty run of visible bytes.
pub open spec fn is_target(s: Seq<u8>) -> bool {
    s.len() > 0 && (forall|i: int| 0 <= i < s.len() ==> is_vchar(s[i]))
}

#[verifier::ext_equal]
pub ghost struct ReqLine {
    pub method: Seq<u8>,
    pub path: Seq<u8>,
    pub minor: u8,
}

/// What a request line (without its CRLF) means: `METHOD SP PATH SP
/// HTTP/1.<minor>`, the method a token, the path visible bytes, the minor
/// version 0 or 1. Anything else is malformed.
pub open spec fn parse_request_line_spec(line: Seq<u8>) -> Option<ReqLine> {
    match find_byte(line, SP, 0) {
        None => None,
        Some(sp1) => match find_byte(line, SP, sp1 + 1) {
            None => None,
            Some(sp2) => {
                let method = line.take(sp1);
                let path = line.subrange(sp1 + 1, sp2);
                let proto = line.subrange(sp2 + 1, line.len() as int);
                if is_token(method) && is_target(path) && proto.len() == 8 && proto.take(7)
                    == lit_http1() && (proto[7] == 48 || proto[7] == 49) {
                    Some(
                        ReqLine {
                            method,
                            path,
                            minor: if proto[7] == 48 {
                                0
                            } else {
                                1
                            },
                        },
                    )
                } else {
                    None
                }
            },
        },
    }
}

/// What a header line (without its CRLF) means: `NAME ':' VALUE`, the name a
/// token, the value trimmed of surrounding spaces and tabs.
pub open spec fn parse_header_line_spec(line: Seq<u8>) -> Option<HeaderView> {
    match find_byte(line, 58, 0) {
        None => None,
        Some(c) => {
            let name = line.take(c);
            let value = trimmed(line.subrange(c + 1, line.len() as int));
            if is_token(name) {
                Some(HeaderView { name, value })
            } else {
                None
            }
        },
    }
}

/// The header lines of `b` between `i` and `end`, each terminated by CRLF;
/// nothing when any line is malformed or the CRLF structure does not land
/// exactly on `end`.
pub open spec fn parse_header_lines_spec(b: Seq<u8>, i: int, end: int) -> Option<Seq<HeaderView>>
    decreases end - i,
    when i <= end via parse_header_lines_spec_decreases
{
    if i == end {
        Some(Seq::empty())
    } else {
        match find_crlf(b, i) {
            None => None,
            Some(j) => if j + 2 > end {
                None
            } else {
                match parse_header_line_spec(b.subrange(i, j)) {
                    None => None,
                    Some(h) => match parse_header_lines_spec(b, j + 2, end) {
                        None => None,
                        Some(rest) => Some(seq![h] + rest),
                    },
                }
            },
        }
    }
}

#[via_fn]
proof fn parse_header_lines_spec_decreases(b: Seq<u8>, i: int, end: int) {
    if i != end {
        match find_crlf(b, i) {
            None => {},
            Some(j) => {
                if i >= 0 {
                    lemma_find_crlf(b, i);
                }
            },
        }
    }
}

/// First-match-wins, case-insensitive header lookup; `name` is given
/// lower-cased.
pub open spec fn header_lookup(hs: Seq<HeaderView>, name: Seq<u8>) -> Option<Seq<u8>>
    decreases hs.len(),
{
    if hs.len() == 0 {
        None
    } else if lower(hs[0].name) == name {
        Some(hs[0].value)
    } else {
        header_lookup(hs.drop_first(), name)
    }
}

/// The request body arrives chunk-framed when a `Transfer-Encoding` header's
/// value contains `chunked`, case-insensitively.
pub open spec fn wants_chunked(hs: Seq<HeaderView>) -> bool {
    match header_lookup(hs, lit_transfer_encoding()) {
        Some(v) => crate::bytes::contains_seq(lower(v), lit_chunked()),
        None => false,
    }
}

/// The body length a `Content-Length` header announces; 0 when the header is
/// absent or not a plain numeral that fits a `usize`.
pub open spec fn content_length_of(hs: Seq<HeaderView>) -> int {
    match header_lookup(hs, lit_content_length()) {
        Some(v) => match numeral_value(v, 10) {
            Some(n) => n,
            None => 0,
        },
        None => 0,
    }
}

/// Outcome of one decode attempt over an accumulated buffer.
#[verifier::ext_equal]
pub ghost enum SpecDecode {
    Complete { req: RequestView, consumed: int },
    Incomplete,
    Malformed,
}

/// The meaning of a connection's accumulated bytes: a complete request and
/// how many bytes it occupies, a wait for more bytes, or a malformed
/// request.
pub open spec fn spec_decode(b: Seq<u8>) -> SpecDecode {
    match find_crlf2(b, 0) {
        None => SpecDecode::Incomplete,
        Some(he) => {
            let hdr_end = he + 2;
            match find_crlf(b, 0) {
                None => SpecDecode::Malformed,
                Some(j0) => if j0 + 2 > hdr_end {
                    SpecDecode::Malformed
                } else {
                    match parse_request_line_spec(b.take(j0)) {
                        None => SpecDecode::Malformed,
                        Some(rl) => match parse_header_lines_spec(b, j0 + 2, hdr_end) {
                            None => SpecDecode::Malformed,
                            Some(hs) => if hs.len() > MAX_HEADERS {
                                SpecDecode::Malformed
                            } else {
                                spec_decode_body(b, he + 4, rl, hs)
                            },
                        },
                    }
                },
            }
        },
    }
}

/// The body part of `spec_decode`, once the header block ends at
/// `body_start`.
pub open spec fn spec_decode_body(
    b: Seq<u8>,
    body_start: int,
    rl: ReqLine,
    hs: Seq<HeaderView>,
) -> SpecDecode {
    if wants_chunked(hs) {
        match spec_chunked(b, body_start, Seq::empty()) {
            SpecChunked::Complete { body, consumed } => SpecDecode::Complete {
                req: RequestView {
                    method: rl.method,
                    path: rl.path,
                    minor: rl.minor,
                    headers: hs,
                    body,
                },
                consumed,
            },
            SpecChunked::Incomplete => SpecDecode::Incomplete,
            SpecChunked::Malformed => SpecDecode::Malformed,
        }
    } else {
        let cl = content_length_of(hs);
        if body_start + cl <= b.len() {
            SpecDecode::Complete {
                req: RequestView {
                    method: rl.method,
                    path: rl.path,
                    minor: rl.minor,
                    headers: hs,
                    body: b.subrange(body_start, body_start + cl),
                },
                consumed: body_start + cl,
            }
        } else {
            SpecDecode::Incomplete
        }
    }
}

/// Whether one byte is a token character.
pub fn tchar(b: u8) -> (r: bool)
    ensures
        r == is_tchar(b),
{
    (48 <= b && b <= 57) || (65 <= b && b <= 90) || (97 <= b && b <= 122) || b == 33 || (35 <= b
        && b <= 39) || b == 42 || b == 43 || b == 45 || b == 46 || b == 94 || b == 95 || b == 96
        || b == 124 || b == 126
}

fn check_token(v: &[u8]) -> (r: bool)
    ensures
        r == is_token(v@),
{
    let n = v.len();
    if n == 0 {
        return false;
    }
    let mut i: usize = 0;
    while i < n
        invariant
            i <= n == v@.len(),
            forall|k: int| 0 <= k < i ==> is_tchar(v@[k]),
        decreases n - i,
    {
        if !tchar(v[i]) {
            return false;
        }
        i = i + 1;
    }
    true
}

fn check_target(v: &[u8]) -> (r: bool)
    ensures
        r == is_target(v@),
{
    let n = v.len();
    if n == 0 {
        return false;
    }
    let mut i: usize = 0;
    while i < n
        invariant
            i <= n == v@.len(),
            forall|k: int| 0 <= k < i ==> is_vchar(v@[k]),
        decreases n - i,
    {
        let b = v[i];
        if b <= 32 || b == 127 {
            return false;
        }
        i = i + 1;
    }
    true
}

/// Parse one request line (without its CRLF), as `parse_request_line_spec`
/// describes: the method, the raw request-target, and the protocol minor
/// version.
pub fn parse_request_line(line: &[u8]) -> (r: Option<(Vec<u8>, Vec<u8>, u8)>)
    ensures
        match r {
            Some(t) => parse_request_line_spec(line@) == Some(
                ReqLine { method: t.0@, path: t.1@, minor: t.2 },
            ),
            None => parse_request_line_spec(line@) is None,
        },
{
    let n = line.len();
    let sp1 = match scan_byte(line, SP, 0) {
        None => {
            return None;
        },
        Some(x) => x,
    };
    proof {
        crate::bytes::lemma_find_byte(line@, SP, 0);
    }
    let sp2 = match scan_byte(line, SP, sp1 + 1) {
        None => {
            return None;
        },
        Some(x) => x,
    };
    proof {
        crate::bytes::lemma_find_byte(line@, SP, sp1 + 1);
    }
    let method_s = &line[0..sp1];
    let path_s = &line[sp1 + 1..sp2];
    let proto = &line[sp2 + 1..n];
    if !check_token(method_s) {
        return None;
    }
    if !check_target(path_s) {
        return None;
    }
    if proto.len() != 8 {
        return None;
    }
    let http1 = bytes_http1();
    if !matches_at(proto, 0, http1.as_slice()) {
        proof {
            assert(proto@.subrange(0, 7) == proto@.take(7));
        }
        return None;
    }
    let v = proto[7];
    if v != 48 && v != 49 {
        return None;
    }
    proof {
        assert(proto@.subrange(0, 7) == proto@.take(7));
    }
    let minor: u8 = if v == 48 {
        0
    } else {
        1
    };
    Some((slice_to_vec(method_s), slice_to_vec(path_s), minor))
}

/// Parse one header line (without its CRLF), as `parse_header_line_spec`
/// describes.
pub fn parse_header_line(line: &[u8]) -> (r: Option<Header>)
    ensures
        match r {
            Some(h) => parse_header_line_spec(line@) == Some(h@),
            None => parse_header_line_spec(line@) is None,
        },
{
    let n = line.len();
    let c = match scan_byte(line, 58, 0) {
        None => {
            return None;
        },
        Some(x) => x,
    };
    proof {
        crate::bytes::lemma_find_byte(line@, 58, 0);
    }
    let name_s = &line[0..c];
    if !check_token(name_s) {
        return None;
    }
    let value = trim_copy(&line[c + 1..n]);
    Some(Header { name: slice_to_vec(name_s), value })
}

/// Case-insensitive, first-match-wins header lookup, as `header_lookup`
/// describes; `name_lower` is given lower-cased.
pub fn header_value<'a>(headers: &'a Vec<Header>, name_lower: &[u8]) -> (r: Option<&'a Vec<u8>>)
    requires
        lower(name_lower@) == name_lower@,
    ensures
        match r {
            Some(v) => header_lookup(hviews(headers@), name_lower@) == Some(v@),
            None => header_lookup(hviews(headers@), name_lower@) is None,
        },
{
    let n = headers.len();
    proof {
        assert(hviews(headers@).skip(0) =~= hviews(headers@));
    }
    let mut i: usize = 0;
    while i < n
        invariant
            i <= n == headers@.len(),
            lower(name_lower@) == name_lower@,
            header_lookup(hviews(headers@), name_lower@) == header_lookup(
                hviews(headers@).skip(i as int),
                name_lower@,
            ),
        decreases n - i,
    {
        let hd = &headers[i];
        proof {
            assert(*hd == headers@[i as int]);
            assert(hd.name@ == headers@[i as int]@.name);
        }
        let same = eq_ignore_case(hd.name.as_slice(), name_lower);
        proof {
            assert(same == (lower(hd.name@) == lower(name_lower@)));
            assert(lower(name_lower@) == name_lower@);
        }
        if same {
            proof {
                let hs = hviews(headers@);
                let sk = hs.skip(i as int);
                assert(sk.len() > 0);
                assert(sk[0] == hs[i as int]);
                assert(hs[i as int] == headers@[i as int]@);
                assert(lower(sk[0].name) == name_lower@);
                assert(header_lookup(sk, name_lower@) == Some(sk[0].value));
            }
            return Some(&headers[i].value);
        }
        proof {
            let hs = hviews(headers@);
            let sk = hs.skip(i as int);
            assert(sk.len() > 0);
            assert(sk[0] == hs[i as int]);
            assert(hs[i as int] == headers@[i as int]@);
            assert(lower(sk[0].name) != name_lower@);
            assert(header_lookup(sk, name_lower@) == header_lookup(sk.drop_first(), name_lower@));
            assert(sk.drop_first() =~= hs.skip(i + 1));
        }
        i = i + 1;
    }
    None
}

/// Outcome of one executable decode attempt.
pub enum DecodeResult {
    /// A complete request and the count of buffer bytes it occupies.
    Complete(ParsedRequest, usize),
    /// The buffer holds only a prefix of a request: wait for more bytes.
    Incomplete,
    /// The buffered bytes cannot begin a well-formed request.
    Malformed,
}

/// Decode one request from the front of an accumulated buffer, as
/// `spec_decode` describes. Bytes past the reported count are a remainder
/// (the start of a pipelined next request) that the caller keeps.
pub fn decode(buf: &Vec<u8>) -> (r: DecodeResult)
    ensures
        match r {
            DecodeResult::Complete(req, consumed) => spec_decode(buf@) == (SpecDecode::Complete {
                req: req@,
                consumed: consumed as int,
            }) && consumed <= buf@.len(),
            DecodeResult::Incomplete => spec_decode(buf@) is Incomplete,
            DecodeResult::Malformed => spec_decode(buf@) is Malformed,
        },
{
    let n = buf.len();
    let he = match scan_crlf2(buf.as_slice(), 0) {
        None => {
            return DecodeResult::Incomplete;
        },
        Some(x) => x,
    };
    assert(he + 4 <= n);
    let hdr_end = he + 2;
    let j0 = match scan_crlf(buf.as_slice(), 0) {
        None => {
            return DecodeResult::Malformed;
        },
        Some(x) => x,
    };
    if j0 + 2 > hdr_end {
        return DecodeResult::Malformed;
    }
    let rl = match parse_request_line(&buf.as_slice()[0..j0]) {
        None => {
            return DecodeResult::Malformed;
        },
        Some(x) => x,
    };
    let ghost start = j0 + 2;
    let ghost grl = ReqLine { method: rl.0@, path: rl.1@, minor: rl.2 };
    let mut headers: Vec<Header> = Vec::new();
    let mut cur: usize = j0 + 2;
    proof {
        assert(hviews(headers@) =~= Seq::<HeaderView>::empty());
    }
    while cur < hdr_end
        invariant
            start <= cur <= hdr_end <= n,
            n == buf@.len(),
            hdr_end == he + 2,
            he + 4 <= n,
            find_crlf2(buf@, 0) == Some(he as int),
            find_crlf(buf@, 0) == Some(j0 as int),
            start == j0 + 2,
            j0 + 2 <= hdr_end,
            parse_request_line_spec(buf@.take(j0 as int)) == Some(grl),
            match parse_header_lines_spec(buf@, cur as int, hdr_end as int) {
                Some(rest) => parse_header_lines_spec(buf@, start, hdr_end as int) == Some(
                    hviews(headers@) + rest,
                ),
                None => parse_header_lines_spec(buf@, start, hdr_end as int) is None,
            },
        decreases hdr_end - cur,
    {
        let j = match scan_crlf(buf.as_slice(), cur) {
            None => {
                proof {
                    assert(parse_header_lines_spec(buf@, cur as int, hdr_end as int) is None);
                }
                return DecodeResult::Malformed;
            },
            Some(x) => x,
        };
        proof {
            lemma_find_crlf(buf@, cur as int);
        }
        if j + 2 > hdr_end {
            proof {
                assert(parse_header_lines_spec(buf@, cur as int, hdr_end as int) is None);
            }
            return DecodeResult::Malformed;
        }
        let h = match parse_header_line(&buf.as_slice()[cur..j]) {
            None => {
                proof {
                    assert(parse_header_lines_spec(buf@, cur as int, hdr_end as int) is None);
                }
                return DecodeResult::Malformed;
            },
            Some(x) => x,
        };
        proof {
            let b = buf@;
            let rest_spec = parse_header_lines_spec(b, j + 2, hdr_end as int);
            match rest_spec {
                Some(rest) => {
                    assert(parse_header_lines_spec(b, cur as int, hdr_end as int) == Some(
                        seq![h@] + rest,
                    ));
                    assert(hviews(headers@.push(h)) + rest =~= hviews(headers@) + (seq![h@]
                        + rest));
                },
                None => {
                    assert(parse_header_lines_spec(b, cur as int, hdr_end as int) is None);
                },
            }
        }
        headers.push(h);
        cur = j + 2;
    }
    proof {
        assert(hviews(headers@) + Seq::<HeaderView>::empty() =~= hviews(headers@));
    }
    if headers.len() > MAX_HEADERS {
        return DecodeResult::Malformed;
    }
    let ghost hs = hviews(headers@);
    let body_start = he + 4;
    let te_name = bytes_transfer_encoding();
    proof {
        assert(lower(lit_transfer_encoding()) =~= lit_transfer_encoding());
    }
    let is_chunked = match header_value(&headers, te_name.as_slice()) {
        Some(v) => {
            let lv = to_lower_vec(v.as_slice());
            let ch = bytes_chunked();
            contains(lv.as_slice(), ch.as_slice())
        },
        None => false,
    };
    proof {
        assert(is_chunked == wants_chunked(hs));
    }
    if is_chunked {
        match decode_chunked(buf, body_start) {
            ChunkedResult::Complete(body, consumed) => {
                let req = ParsedRequest {
                    method: rl.0,
                    path: rl.1,
                    minor: rl.2,
                    headers,
                    body,
                };
                DecodeResult::Complete(req, consumed)
            },
            ChunkedResult::Incomplete => DecodeResult::Incomplete,
            ChunkedResult::Malformed => DecodeResult::Malformed,
        }
    } else {
        let cl_name = bytes_content_length();
        proof {
            assert(lower(lit_content_length()) =~= lit_content_length());
        }
        let cl: usize = match header_value(&headers, cl_name.as_slice()) {
            Some(v) => match parse_numeral(v.as_slice(), 10) {
                Some(x) => x,
                None => 0,
            },
            None => 0,
        };
        proof {
            assert(cl as int == content_length_of(hs));
        }
        if cl > buf.len() - body_start {
            return DecodeResult::Incomplete;
        }
        let body = slice_to_vec(&buf.as_slice()[body_start..body_start + cl]);
        let req = ParsedRequest {
            method: rl.0,
            path: rl.1,
            minor: rl.2,
            headers,
            body,
        };
        DecodeResult::Complete(req, body_start + cl)
    }
}

} // verus!
