use bjoern::bytes::{contains, eq_ignore_case, format_dec, format_hex, parse_numeral, trim_copy};
use bjoern::chunked::{decode_chunked, wrap_chunk, ChunkedResult};
use bjoern::conn::{Connection, PollOutcome};
use bjoern::reactor::{ConnTable, ReadOutcome};
use bjoern::request::{decode, header_value, parse_request_line, DecodeResult, Header};
use bjoern::response::{build_headers, next_chunk, prepare_response, should_keep_alive};

fn v(b: &[u8]) -> Vec<u8> {
    b.to_vec()
}

fn hdr(name: &[u8], value: &[u8]) -> Header {
    Header { name: v(name), value: v(value) }
}

fn complete(buf: &[u8]) -> (bjoern::request::ParsedRequest, usize) {
    match decode(&v(buf)) {
        DecodeResult::Complete(req, consumed) => (req, consumed),
        DecodeResult::Incomplete => panic!("unexpectedly incomplete"),
        DecodeResult::Malformed => panic!("unexpectedly malformed"),
    }
}

#[test]
fn decode_simple_get() {
    let wire = b"GET /path?q=1 HTTP/1.1\r\nHost: example.com\r\n\r\n";
    let (req, consumed) = complete(wire);
    assert_eq!(req.method, b"GET".to_vec());
    assert_eq!(req.path, b"/path?q=1".to_vec());
    assert_eq!(req.minor, 1);
    assert_eq!(req.headers.len(), 1);
    assert_eq!(req.headers[0].name, b"Host".to_vec());
    assert_eq!(req.headers[0].value, b"example.com".to_vec());
    assert!(req.body.is_empty());
    assert_eq!(consumed, wire.len());
}

#[test]
fn decode_http10_minor_version() {
    let (req, _) = complete(b"GET / HTTP/1.0\r\n\r\n");
    assert_eq!(req.minor, 0);
}

#[test]
fn decode_empty_buffer_incomplete() {
    assert!(matches!(decode(&Vec::new()), DecodeResult::Incomplete));
}

#[test]
fn decode_every_proper_prefix_incomplete() {
    let wire = b"POST /submit HTTP/1.1\r\nContent-Length: 5\r\n\r\nhello";
    for i in 0..wire.len() {
        assert!(
            matches!(decode(&v(&wire[..i])), DecodeResult::Incomplete),
            "prefix of length {i} was not incomplete"
        );
    }
    let (req, consumed) = complete(wire);
    assert_eq!(req.body, b"hello".to_vec());
    assert_eq!(consumed, wire.len());
}

#[test]
fn decode_one_byte_feeds_match_single_shot() {
    let wire = b"POST /a HTTP/1.1\r\nContent-Length: 3\r\n\r\nxyz";
    let (whole, _) = complete(wire);

    let mut conn = Connection::new();
    let mut result = None;
    for (i, byte) in wire.iter().enumerate() {
        conn.feed(&[*byte]);
        match conn.poll_request() {
            PollOutcome::Request(req) => {
                assert_eq!(i, wire.len() - 1, "complete before the final byte");
                result = Some(req);
            }
            PollOutcome::NeedMore => assert!(i < wire.len() - 1),
            _ => panic!("unexpected poll outcome"),
        }
    }
    let piecewise = result.expect("never completed");
    assert_eq!(piecewise.method, whole.method);
    assert_eq!(piecewise.path, whole.path);
    assert_eq!(piecewise.minor, whole.minor);
    assert_eq!(piecewise.body, whole.body);
}

#[test]
fn decode_content_length_default_zero() {
    let wire = b"GET / HTTP/1.1\r\nContent-Length: oops\r\n\r\n";
    let (req, consumed) = complete(wire);
    assert!(req.body.is_empty());
    assert_eq!(consumed, wire.len());

    let wire2 = b"GET / HTTP/1.1\r\nContent-Length: 99999999999999999999\r\n\r\n";
    let (req2, consumed2) = complete(wire2);
    assert!(req2.body.is_empty());
    assert_eq!(consumed2, wire2.len());
}

#[test]
fn decode_chunked_request_body() {
    let wire = b"POST /upload HTTP/1.1\r\nTransfer-Encoding: chunked\r\n\r\n4\r\nWiki\r\n5\r\npedia\r\n0\r\n\r\n";
    let (req, consumed) = complete(wire);
    assert_eq!(req.body, b"Wikipedia".to_vec());
    assert_eq!(consumed, wire.len());
}

#[test]
fn decode_chunked_extensions_and_case() {
    let wire = b"POST / HTTP/1.1\r\ntransfer-encoding: Chunked\r\n\r\n4;ext=1\r\nWiki\r\n0\r\n\r\n";
    let (req, _) = complete(wire);
    assert_eq!(req.body, b"Wiki".to_vec());
}

#[test]
fn decode_chunked_incomplete_waits() {
    let wire = b"POST / HTTP/1.1\r\nTransfer-Encoding: chunked\r\n\r\n4\r\nWi";
    assert!(matches!(decode(&v(wire)), DecodeResult::Incomplete));
}

#[test]
fn decode_malformed_request_line() {
    assert!(matches!(
        decode(&v(b"NOSPACES\r\n\r\n")),
        DecodeResult::Malformed
    ));
    assert!(matches!(
        decode(&v(b"GET / HTTP/2.0\r\n\r\n")),
        DecodeResult::Malformed
    ));
    assert!(matches!(
        decode(&v(b"GET /a b HTTP/1.1\r\n\r\n")),
        DecodeResult::Malformed
    ));
    assert!(matches!(decode(&v(b"\r\n\r\n")), DecodeResult::Malformed));
}

#[test]
fn decode_malformed_header_line() {
    assert!(matches!(
        decode(&v(b"GET / HTTP/1.1\r\nNoColonHere\r\n\r\n")),
        DecodeResult::Malformed
    ));
}

#[test]
fn decode_malformed_chunk_size() {
    let wire = b"POST / HTTP/1.1\r\nTransfer-Encoding: chunked\r\n\r\nxyz\r\n";
    assert!(matches!(decode(&v(wire)), DecodeResult::Malformed));
}

#[test]
fn header_lookup_first_match_case_insensitive() {
    let headers = vec![
        hdr(b"X-One", b"first"),
        hdr(b"CONTENT-type", b"text/a"),
        hdr(b"Content-Type", b"text/b"),
    ];
    let found = header_value(&headers, b"content-type").expect("header missing");
    assert_eq!(found, &b"text/a".to_vec());
    assert!(header_value(&headers, b"absent").is_none());
}

#[test]
fn header_values_are_trimmed() {
    let (req, _) = complete(b"GET / HTTP/1.1\r\nHost: \t padded.example \t \r\n\r\n");
    assert_eq!(req.headers[0].value, b"padded.example".to_vec());
}

#[test]
fn pipelined_remainder_yields_second_request() {
    let first = b"GET /one HTTP/1.1\r\n\r\n".to_vec();
    let second = b"GET /two HTTP/1.1\r\n\r\n".to_vec();
    let mut both = first.clone();
    both.extend_from_slice(&second);

    let mut conn = Connection::new();
    conn.feed(&both);
    match conn.poll_request() {
        PollOutcome::Request(req) => assert_eq!(req.path, b"/one".to_vec()),
        _ => panic!("first request not decoded"),
    }
    assert_eq!(conn.buffer, second, "remainder was not retained");
    match conn.poll_request() {
        PollOutcome::Request(req) => assert_eq!(req.path, b"/two".to_vec()),
        _ => panic!("second request not decoded from the remainder"),
    }
}

#[test]
fn back_pressure_while_response_active() {
    let mut conn = Connection::new();
    conn.feed(b"GET /one HTTP/1.1\r\n\r\n");
    let req_headers: Vec<Header> = Vec::new();
    match conn.poll_request() {
        PollOutcome::Request(_) => {}
        _ => panic!("expected a request"),
    }
    let (pending, stream) = prepare_response(
        1,
        &req_headers,
        &v(b"200 OK"),
        &vec![hdr(b"Content-Length", b"0")],
        None,
        false,
    );
    conn.install_response(pending, stream);
    conn.feed(b"GET /two HTTP/1.1\r\n\r\n");
    assert!(matches!(conn.poll_request(), PollOutcome::Blocked));
}

#[test]
fn wrap_chunk_exact_bytes() {
    assert_eq!(wrap_chunk(&v(b"Wiki")), b"4\r\nWiki\r\n".to_vec());
    let long = vec![b'a'; 26];
    let wrapped = wrap_chunk(&long);
    assert_eq!(&wrapped[..4], b"1A\r\n");
    assert_eq!(wrapped.len(), 4 + 26 + 2);
}

#[test]
fn chunk_round_trip_recovers_payload() {
    let chunks: Vec<Vec<u8>> = vec![v(b"Wiki"), v(b"pedia"), v(b" rocks!")];
    let mut wire = Vec::new();
    for c in &chunks {
        wire.extend_from_slice(&wrap_chunk(c));
    }
    wire.extend_from_slice(b"0\r\n\r\n");

    match decode_chunked(&wire, 0) {
        ChunkedResult::Complete(body, consumed) => {
            assert_eq!(body, b"Wikipedia rocks!".to_vec());
            assert_eq!(consumed, wire.len());
        }
        _ => panic!("round trip did not complete"),
    }
}

#[test]
fn numerals_parse_and_format() {
    assert_eq!(parse_numeral(b"123", 10), Some(123));
    assert_eq!(parse_numeral(b"", 10), None);
    assert_eq!(parse_numeral(b"12a", 10), None);
    assert_eq!(parse_numeral(b"+1", 10), None);
    assert_eq!(parse_numeral(b"1A", 16), Some(26));
    assert_eq!(parse_numeral(b"ff", 16), Some(255));
    assert_eq!(parse_numeral(b"99999999999999999999", 10), None);
    assert_eq!(format_dec(0), b"0".to_vec());
    assert_eq!(format_dec(105), b"105".to_vec());
    assert_eq!(format_hex(26), b"1A".to_vec());
    assert_eq!(format_hex(0), b"0".to_vec());
    for n in [0usize, 1, 9, 10, 4096, usize::MAX] {
        assert_eq!(parse_numeral(&format_dec(n), 10), Some(n));
        assert_eq!(parse_numeral(&format_hex(n), 16), Some(n));
    }
}

#[test]
fn byte_helpers() {
    assert!(eq_ignore_case(b"Keep-Alive", b"keep-ALIVE"));
    assert!(!eq_ignore_case(b"close", b"closed"));
    assert!(contains(b"gzip, chunked", b"chunked"));
    assert!(!contains(b"identity", b"chunked"));
    assert_eq!(trim_copy(b"  a b\t"), b"a b".to_vec());
}

#[test]
fn keep_alive_policy() {
    // HTTP/1.1 persists unless the request says close.
    assert!(should_keep_alive(1, &Vec::new()));
    assert!(!should_keep_alive(1, &vec![hdr(b"Connection", b"Close")]));
    assert!(should_keep_alive(1, &vec![hdr(b"Connection", b"keep-alive")]));
    // HTTP/1.0 closes unless the request asks to persist.
    assert!(!should_keep_alive(0, &Vec::new()));
    assert!(should_keep_alive(0, &vec![hdr(b"Connection", b"Keep-Alive")]));
}

#[test]
fn build_headers_exact_block() {
    let block = build_headers(
        1,
        &v(b"200 OK"),
        &vec![hdr(b"Content-Type", b"text/plain")],
        true,
        false,
        Some(5),
        false,
    );
    let expected = b"HTTP/1.1 200 OK\r\nContent-Type: text/plain\r\nConnection: Keep-Alive\r\nContent-Length: 5\r\n\r\n";
    assert_eq!(block, expected.to_vec());
}

#[test]
fn build_headers_suppresses_application_connection_header() {
    let block = build_headers(
        1,
        &v(b"200 OK"),
        &vec![hdr(b"Connection", b"keep-alive")],
        false,
        false,
        None,
        false,
    );
    let expected = b"HTTP/1.1 200 OK\r\nConnection: close\r\n\r\n";
    assert_eq!(block, expected.to_vec());
}

fn head_of(pending: &[Vec<u8>]) -> String {
    String::from_utf8_lossy(&pending[0]).into_owned()
}

#[test]
fn persistence_matrix_keep_alive_with_length() {
    // HTTP/1.1, no Connection header, application sets Content-Length: 5.
    let (pending, stream) = prepare_response(
        1,
        &Vec::new(),
        &v(b"200 OK"),
        &vec![hdr(b"Content-Length", b"5")],
        Some(v(b"hello")),
        false,
    );
    assert!(stream.keep_alive);
    assert!(!stream.chunked);
    let head = head_of(&pending);
    assert!(head.contains("Connection: Keep-Alive\r\n"));
    assert!(head.contains("Content-Length: 5\r\n"));
    assert!(!head.contains("Transfer-Encoding"));
    assert_eq!(pending[1], b"hello".to_vec());
}

#[test]
fn persistence_matrix_explicit_close() {
    // HTTP/1.1, Connection: close, same application behaviour.
    let (pending, stream) = prepare_response(
        1,
        &vec![hdr(b"Connection", b"close")],
        &v(b"200 OK"),
        &vec![hdr(b"Content-Length", b"5")],
        Some(v(b"hello")),
        false,
    );
    assert!(!stream.keep_alive);
    assert!(!stream.chunked);
    assert!(head_of(&pending).contains("Connection: close\r\n"));
}

#[test]
fn persistence_matrix_http10_close_delimited() {
    // HTTP/1.0, no Connection header, application omits Content-Length.
    let (pending, stream) = prepare_response(
        0,
        &Vec::new(),
        &v(b"200 OK"),
        &Vec::new(),
        Some(v(b"part one")),
        true,
    );
    assert!(!stream.keep_alive);
    assert!(!stream.chunked);
    let head = head_of(&pending);
    assert!(head.contains("Connection: close\r\n"));
    assert!(!head.contains("Content-Length"));
    assert!(!head.contains("Transfer-Encoding"));
    assert_eq!(pending[1], b"part one".to_vec());
}

#[test]
fn persistence_matrix_chunked_keep_alive() {
    // HTTP/1.1, Connection: keep-alive, no Content-Length, three lazy chunks.
    let (pending, mut stream) = prepare_response(
        1,
        &vec![hdr(b"Connection", b"keep-alive")],
        &v(b"200 OK"),
        &Vec::new(),
        Some(v(b"one")),
        true,
    );
    assert!(stream.keep_alive);
    assert!(stream.chunked);
    assert!(head_of(&pending).contains("Transfer-Encoding: chunked\r\n"));

    let mut wire: Vec<u8> = Vec::new();
    for p in &pending[1..] {
        wire.extend_from_slice(p);
    }
    for piece in [next_chunk(&mut stream, Some(v(b"two"))), next_chunk(&mut stream, Some(v(b"three")))] {
        wire.extend_from_slice(&piece.expect("chunk expected"));
    }
    let terminator = next_chunk(&mut stream, None).expect("terminator expected");
    wire.extend_from_slice(&terminator);
    assert!(stream.finished);
    assert!(wire.ends_with(b"0\r\n\r\n"));

    // The de-chunked payload is the original body.
    match decode_chunked(&wire, 0) {
        ChunkedResult::Complete(body, consumed) => {
            assert_eq!(body, b"onetwothree".to_vec());
            assert_eq!(consumed, wire.len());
        }
        _ => panic!("chunked output did not decode"),
    }
}

#[test]
fn status_204_omits_length_machinery() {
    // Application sets Content-Length: 10 but the status is 204.
    let (pending, stream) = prepare_response(
        1,
        &Vec::new(),
        &v(b"204 No Content"),
        &vec![hdr(b"Content-Length", b"10")],
        Some(v(b"0123456789")),
        false,
    );
    let head = head_of(&pending);
    assert!(!head.contains("Content-Length"));
    assert!(!head.contains("Transfer-Encoding"));
    assert!(!stream.chunked);
    assert!(stream.keep_alive);
    assert_eq!(pending.len(), 1, "a 204 response carries no body");
}

#[test]
fn status_304_omits_length_machinery() {
    let (pending, _) = prepare_response(
        1,
        &Vec::new(),
        &v(b"304 Not Modified"),
        &vec![hdr(b"Content-Length", b"10")],
        None,
        false,
    );
    let head = head_of(&pending);
    assert!(!head.contains("Content-Length"));
    assert_eq!(pending.len(), 1);
}

#[test]
fn connection_write_bookkeeping_is_fifo() {
    let mut conn = Connection::new();
    conn.feed(b"GET / HTTP/1.1\r\n\r\n");
    match conn.poll_request() {
        PollOutcome::Request(_) => {}
        _ => panic!("expected a request"),
    }
    let (pending, stream) = prepare_response(
        1,
        &Vec::new(),
        &v(b"200 OK"),
        &vec![hdr(b"Content-Length", b"10")],
        Some(v(b"0123456789")),
        false,
    );
    conn.install_response(pending, stream);
    assert!(conn.has_pending_write());

    // Drain in small steps; bytes come out front first, in order.
    let mut written: Vec<u8> = Vec::new();
    while conn.has_pending_write() {
        let front: Vec<u8> = conn.outgoing[0].clone();
        let off = conn.front_offset;
        let n = std::cmp::min(7, front.len() - off);
        written.extend_from_slice(&front[off..off + n]);
        conn.record_written(n);
    }
    let all = String::from_utf8_lossy(&written).into_owned();
    assert!(all.starts_with("HTTP/1.1 200 OK\r\n"));
    assert!(all.ends_with("\r\n\r\n0123456789"));
}

#[test]
fn finished_response_sets_close_flag_and_clears() {
    let mut conn = Connection::new();
    conn.feed(b"GET / HTTP/1.0\r\n\r\n");
    match conn.poll_request() {
        PollOutcome::Request(_) => {}
        _ => panic!("expected a request"),
    }
    // HTTP/1.0 without keep-alive: the decision is close.
    let (pending, stream) = prepare_response(
        0,
        &Vec::new(),
        &v(b"200 OK"),
        &vec![hdr(b"Content-Length", b"2")],
        Some(v(b"ok")),
        false,
    );
    assert!(!stream.keep_alive);
    conn.install_response(pending, stream);
    assert!(conn.close_after_write);
    // Drain everything; only then is the connection due for teardown.
    assert!(!conn.should_close());
    while conn.has_pending_write() {
        let len = conn.outgoing[0].len() - conn.front_offset;
        conn.record_written(len);
    }
    assert!(conn.should_close());
}

#[test]
fn lazy_producer_exhaustion_without_chunking_closes() {
    let mut conn = Connection::new();
    conn.feed(b"GET / HTTP/1.0\r\n\r\n");
    match conn.poll_request() {
        PollOutcome::Request(_) => {}
        _ => panic!("expected a request"),
    }
    let (pending, stream) = prepare_response(
        0,
        &Vec::new(),
        &v(b"200 OK"),
        &Vec::new(),
        Some(v(b"part")),
        true,
    );
    conn.install_response(pending, stream);
    while conn.has_pending_write() {
        let len = conn.outgoing[0].len() - conn.front_offset;
        conn.record_written(len);
    }
    assert!(conn.needs_advance());
    conn.advance_response(Some(v(b"more")));
    assert!(conn.has_pending_write());
    while conn.has_pending_write() {
        let len = conn.outgoing[0].len() - conn.front_offset;
        conn.record_written(len);
    }
    conn.advance_response(None);
    assert!(conn.response.is_none());
    assert!(conn.close_after_write);
    assert!(conn.should_close());
}

#[test]
fn malformed_connection_closes_only_itself() {
    let mut table = ConnTable::new();
    let a = table.add(Connection::new());
    let b = table.add(Connection::new());

    // B has a pending, so far incomplete, valid request.
    match table.on_readable(b, b"GET /fine HTTP/1.1\r\n") {
        ReadOutcome::Pending => {}
        _ => panic!("expected pending on B"),
    }

    // A sends garbage: only A must be torn down.
    match table.on_readable(a, b"GARBAGE\r\n\r\n") {
        ReadOutcome::Closed => {}
        _ => panic!("expected A to close"),
    }
    assert!(table.slots[a].is_none());
    assert!(table.slots[b].is_some());

    // B finishes its request and gets its correct response.
    let req = match table.on_readable(b, b"\r\n") {
        ReadOutcome::Dispatch(req) => req,
        _ => panic!("expected B to dispatch"),
    };
    assert_eq!(req.path, b"/fine".to_vec());
    let (pending, stream) = prepare_response(
        req.minor,
        &req.headers,
        &v(b"200 OK"),
        &vec![hdr(b"Content-Length", b"2")],
        Some(v(b"ok")),
        false,
    );
    table.on_response(b, pending, stream);
    let conn = table.slots[b].as_ref().expect("B still open");
    assert!(conn.has_pending_write());
    let head: Vec<u8> = conn.outgoing[0].clone();
    assert!(head.starts_with(b"HTTP/1.1 200 OK\r\n"));
}

#[test]
fn request_line_parser_variants() {
    let (m, p, minor) = parse_request_line(b"GET / HTTP/1.0").expect("valid line");
    assert_eq!(m, b"GET".to_vec());
    assert_eq!(p, b"/".to_vec());
    assert_eq!(minor, 0);
    assert!(parse_request_line(b"GET /").is_none());
    assert!(parse_request_line(b"GET / HTTP/1.2").is_none());
    assert!(parse_request_line(b" / HTTP/1.1").is_none());
    assert!(parse_request_line(b"GET  HTTP/1.1").is_none());
}
