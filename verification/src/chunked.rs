//! Chunked transfer-encoding: decoding a chunk-framed body from the read
//! buffer, and wrapping outgoing body chunks on the write side.
use vstd::prelude::*;

use crate::bytes::{
    find_byte, find_crlf, hex_numeral, lemma_find_crlf, lemma_num_val_nonneg, numeral_value,
    parse_numeral, scan_byte, scan_crlf, trim_copy, trimmed, CR, LF,
};
use crate::lit::lit_crlf;

verus! {

/// Outcome of decoding a chunk-framed body.
#[verifier::ext_equal]
pub ghost enum SpecChunked {
    Complete { body: Seq<u8>, consumed: int },
    Incomplete,
    Malformed,
}

/// The hex numeral part of a chunk-size line: everything before the first
/// `;` (chunk extensions are discarded), trimmed of spaces and tabs.
pub open spec fn chunk_size_str(line: Seq<u8>) -> Seq<u8> {
    match find_byte(line, 59, 0) {
        Some(s) => trimmed(line.take(s)),
        None => trimmed(line),
    }
}

/// The meaning of the bytes from `cursor` on as chunk framing: repeated
/// size-line + payload segments, ended by a zero-size chunk and its trailing
/// CRLF. `acc` carries the payload gathered so far. Yields `Incomplete`
/// whenever the buffered bytes end inside a chunk, `Malformed` when a size
/// line is not a hex numeral.
pub open spec fn spec_chunked(b: Seq<u8>, cursor: int, acc: Seq<u8>) -> SpecChunked
    decreases b.len() - cursor,
    when 0 <= cursor <= b.len() via spec_chunked_decreases
{
    match find_crlf(b, cursor) {
        None => SpecChunked::Incomplete,
        Some(j) => {
            match numeral_value(chunk_size_str(b.subrange(cursor, j)), 16) {
                None => SpecChunked::Malformed,
                Some(size) => {
                    if size == 0 {
                        if j + 4 <= b.len() {
                            SpecChunked::Complete { body: acc, consumed: j + 4 }
                        } else {
                            SpecChunked::Incomplete
                        }
                    } else {
                        if j + 4 + size <= b.len() {
                            spec_chunked(b, j + 4 + size, acc + b.subrange(j + 2, j + 2 + size))
                        } else {
                            SpecChunked::Incomplete
                        }
                    }
                },
            }
        },
    }
}

#[via_fn]
proof fn spec_chunked_decreases(b: Seq<u8>, cursor: int, acc: Seq<u8>) {
    match find_crlf(b, cursor) {
        None => {},
        Some(j) => {
            lemma_find_crlf(b, cursor);
            match numeral_value(chunk_size_str(b.subrange(cursor, j)), 16) {
                None => {},
                Some(size) => {
                    lemma_num_val_nonneg(chunk_size_str(b.subrange(cursor, j)), 16);
                },
            }
        },
    }
}

/// Outcome of one executable chunk-decode attempt.
pub enum ChunkedResult {
    Complete(Vec<u8>, usize),
    Incomplete,
    Malformed,
}

/// Decode a chunk-framed body that starts at `start`, as `spec_chunked`
/// describes: the concatenated payloads and the total bytes the framing
/// occupies, or a wait for more bytes, or a malformed size line.
pub fn decode_chunked(buf: &Vec<u8>, start: usize) -> (r: ChunkedResult)
    requires
        start <= buf@.len(),
    ensures
        match r {
            ChunkedResult::Complete(body, consumed) => spec_chunked(buf@, start as int, Seq::empty())
                == (SpecChunked::Complete { body: body@, consumed: consumed as int })
                && start <= consumed <= buf@.len(),
            ChunkedResult::Incomplete => spec_chunked(buf@, start as int, Seq::empty())
                is Incomplete,
            ChunkedResult::Malformed => spec_chunked(buf@, start as int, Seq::empty())
                is Malformed,
        },
{
    let n = buf.len();
    let mut cursor: usize = start;
    let mut body: Vec<u8> = Vec::new();
    loop
        invariant
            start <= cursor <= n == buf@.len(),
            spec_chunked(buf@, start as int, Seq::empty()) == spec_chunked(
                buf@,
                cursor as int,
                body@,
            ),
        decreases n - cursor,
    {
        let j = match scan_crlf(buf.as_slice(), cursor) {
            None => {
                return ChunkedResult::Incomplete;
            },
            Some(j) => j,
        };
        proof {
            lemma_find_crlf(buf@, cursor as int);
        }
        let line = &buf.as_slice()[cursor..j];
        let semi = scan_byte(line, 59, 0);
        let size_vec = match semi {
            Some(s) => trim_copy(&line[0..s]),
            None => trim_copy(line),
        };
        proof {
            assert(size_vec@ == chunk_size_str(line@));
        }
        let size = match parse_numeral(size_vec.as_slice(), 16) {
            None => {
                return ChunkedResult::Malformed;
            },
            Some(s) => s,
        };
        if size == 0 {
            if n - j < 4 {
                return ChunkedResult::Incomplete;
            }
            return ChunkedResult::Complete(body, j + 4);
        }
        let avail = n - (j + 2);
        if avail < 2 || size > avail - 2 {
            return ChunkedResult::Incomplete;
        }
        proof {
            let b = buf@;
            let c = cursor as int;
            let jj = j as int;
            let sz = size as int;
            assert(spec_chunked(b, c, body@) == spec_chunked(
                b,
                jj + 4 + sz,
                body@ + b.subrange(jj + 2, jj + 2 + sz),
            ));
        }
        crate::bytes::append_bytes(&mut body, &buf.as_slice()[j + 2..j + 2 + size]);
        cursor = j + 4 + size;
    }
}

/// A chunk as it goes on the wire: its length in upper-case hexadecimal,
/// CRLF, the payload, CRLF.
pub open spec fn wrapped_chunk(chunk: Seq<u8>) -> Seq<u8> {
    hex_numeral(chunk.len() as int) + lit_crlf() + chunk + lit_crlf()
}

/// Wrap one outgoing body chunk for chunked transfer-encoding.
pub fn wrap_chunk(chunk: &Vec<u8>) -> (r: Vec<u8>)
    ensures
        r@ == wrapped_chunk(chunk@),
{
    let mut out = crate::bytes::format_hex(chunk.len());
    out.push(CR);
    out.push(LF);
    crate::bytes::append_bytes(&mut out, chunk.as_slice());
    out.push(CR);
    out.push(LF);
    proof {
        assert(out@ =~= wrapped_chunk(chunk@));
    }
    out
}

} // verus!
