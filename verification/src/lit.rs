//! The byte strings of the HTTP/1.x wire grammar, each as a spec sequence
//! with the executable function that builds it.
use vstd::prelude::*;

verus! {

/// "content-length"
pub open spec fn lit_content_length() -> Seq<u8> {
    seq![99u8, 111u8, 110u8, 116u8, 101u8, 110u8, 116u8, 45u8, 108u8, 101u8, 110u8, 103u8, 116u8, 104u8]
}

/// "content-length"
pub fn bytes_content_length() -> (r: Vec<u8>)
    ensures
        r@ == lit_content_length(),
{
    let mut v: Vec<u8> = Vec::new();
    v.push(99);
    v.push(111);
    v.push(110);
    v.push(116);
    v.push(101);
    v.push(110);
    v.push(116);
    v.push(45);
    v.push(108);
    v.push(101);
    v.push(110);
    v.push(103);
    v.push(116);
    v.push(104);
    proof { assert(v@ =~= lit_content_length()); }
    v
}

/// "transfer-encoding"
pub open spec fn lit_transfer_encoding() -> Seq<u8> {
    seq![116u8, 114u8, 97u8, 110u8, 115u8, 102u8, 101u8, 114u8, 45u8, 101u8, 110u8, 99u8, 111u8, 100u8, 105u8, 110u8, 103u8]
}

/// "transfer-encoding"
pub fn bytes_transfer_encoding() -> (r: Vec<u8>)
    ensures
        r@ == lit_transfer_encoding(),
{
    let mut v: Vec<u8> = Vec::new();
    v.push(116);
    v.push(114);
    v.push(97);
    v.push(110);
    v.push(115);
    v.push(102);
    v.push(101);
    v.push(114);
    v.push(45);
    v.push(101);
    v.push(110);
    v.push(99);
    v.push(111);
    v.push(100);
    v.push(105);
    v.push(110);
    v.push(103);
    proof { assert(v@ =~= lit_transfer_encoding()); }
    v
}

/// "connection"
pub open spec fn lit_connection() -> Seq<u8> {
    seq![99u8, 111u8, 110u8, 110u8, 101u8, 99u8, 116u8, 105u8, 111u8, 110u8]
}

/// "connection"
pub fn bytes_connection() -> (r: Vec<u8>)
    ensures
        r@ == lit_connection(),
{
    let mut v: Vec<u8> = Vec::new();
    v.push(99);
    v.push(111);
    v.push(110);
    v.push(110);
    v.push(101);
    v.push(99);
    v.push(116);
    v.push(105);
    v.push(111);
    v.push(110);
    proof { assert(v@ =~= lit_connection()); }
    v
}

/// "chunked"
pub open spec fn lit_chunked() -> Seq<u8> {
    seq![99u8, 104u8, 117u8, 110u8, 107u8, 101u8, 100u8]
}

/// "chunked"
pub fn bytes_chunked() -> (r: Vec<u8>)
    ensures
        r@ == lit_chunked(),
{
    let mut v: Vec<u8> = Vec::new();
    v.push(99);
    v.push(104);
    v.push(117);
    v.push(110);
    v.push(107);
    v.push(101);
    v.push(100);
    proof { assert(v@ =~= lit_chunked()); }
    v
}

/// "close"
pub open spec fn lit_close() -> Seq<u8> {
    seq![99u8, 108u8, 111u8, 115u8, 101u8]
}

/// "close"
pub fn bytes_close() -> (r: Vec<u8>)
    ensures
        r@ == lit_close(),
{
    let mut v: Vec<u8> = Vec::new();
    v.push(99);
    v.push(108);
    v.push(111);
    v.push(115);
    v.push(101);
    proof { assert(v@ =~= lit_close()); }
    v
}

/// "keep-alive"
pub open spec fn lit_keep_alive() -> Seq<u8> {
    seq![107u8, 101u8, 101u8, 112u8, 45u8, 97u8, 108u8, 105u8, 118u8, 101u8]
}

/// "keep-alive"
pub fn bytes_keep_alive() -> (r: Vec<u8>)
    ensures
        r@ == lit_keep_alive(),
{
    let mut v: Vec<u8> = Vec::new();
    v.push(107);
    v.push(101);
    v.push(101);
    v.push(112);
    v.push(45);
    v.push(97);
    v.push(108);
    v.push(105);
    v.push(118);
    v.push(101);
    proof { assert(v@ =~= lit_keep_alive()); }
    v
}

/// "HTTP/1."
pub open spec fn lit_http1() -> Seq<u8> {
    seq![72u8, 84u8, 84u8, 80u8, 47u8, 49u8, 46u8]
}

/// "HTTP/1."
pub fn bytes_http1() -> (r: Vec<u8>)
    ensures
        r@ == lit_http1(),
{
    let mut v: Vec<u8> = Vec::new();
    v.push(72);
    v.push(84);
    v.push(84);
    v.push(80);
    v.push(47);
    v.push(49);
    v.push(46);
    proof { assert(v@ =~= lit_http1()); }
    v
}

/// "\r\n"
pub open spec fn lit_crlf() -> Seq<u8> {
    seq![13u8, 10u8]
}

/// "\r\n"
pub fn bytes_crlf() -> (r: Vec<u8>)
    ensures
        r@ == lit_crlf(),
{
    let mut v: Vec<u8> = Vec::new();
    v.push(13);
    v.push(10);
    proof { assert(v@ =~= lit_crlf()); }
    v
}

/// ": "
pub open spec fn lit_colon_sp() -> Seq<u8> {
    seq![58u8, 32u8]
}

/// ": "
pub fn bytes_colon_sp() -> (r: Vec<u8>)
    ensures
        r@ == lit_colon_sp(),
{
    let mut v: Vec<u8> = Vec::new();
    v.push(58);
    v.push(32);
    proof { assert(v@ =~= lit_colon_sp()); }
    v
}

/// "Connection: Keep-Alive\r\n"
pub open spec fn lit_conn_keep_alive_line() -> Seq<u8> {
    seq![67u8, 111u8, 110u8, 110u8, 101u8, 99u8, 116u8, 105u8, 111u8, 110u8, 58u8, 32u8, 75u8, 101u8, 101u8, 112u8, 45u8, 65u8, 108u8, 105u8, 118u8, 101u8, 13u8, 10u8]
}

/// "Connection: Keep-Alive\r\n"
pub fn bytes_conn_keep_alive_line() -> (r: Vec<u8>)
    ensures
        r@ == lit_conn_keep_alive_line(),
{
    let mut v: Vec<u8> = Vec::new();
    v.push(67);
    v.push(111);
    v.push(110);
    v.push(110);
    v.push(101);
    v.push(99);
    v.push(116);
    v.push(105);
    v.push(111);
    v.push(110);
    v.push(58);
    v.push(32);
    v.push(75);
    v.push(101);
    v.push(101);
    v.push(112);
    v.push(45);
    v.push(65);
    v.push(108);
    v.push(105);
    v.push(118);
    v.push(101);
    v.push(13);
    v.push(10);
    proof { assert(v@ =~= lit_conn_keep_alive_line()); }
    v
}

/// "Connection: close\r\n"
pub open spec fn lit_conn_close_line() -> Seq<u8> {
    seq![67u8, 111u8, 110u8, 110u8, 101u8, 99u8, 116u8, 105u8, 111u8, 110u8, 58u8, 32u8, 99u8, 108u8, 111u8, 115u8, 101u8, 13u8, 10u8]
}

/// "Connection: close\r\n"
pub fn bytes_conn_close_line() -> (r: Vec<u8>)
    ensures
        r@ == lit_conn_close_line(),
{
    let mut v: Vec<u8> = Vec::new();
    v.push(67);
    v.push(111);
    v.push(110);
    v.push(110);
    v.push(101);
    v.push(99);
    v.push(116);
    v.push(105);
    v.push(111);
    v.push(110);
    v.push(58);
    v.push(32);
    v.push(99);
    v.push(108);
    v.push(111);
    v.push(115);
    v.push(101);
    v.push(13);
    v.push(10);
    proof { assert(v@ =~= lit_conn_close_line()); }
    v
}

/// "Transfer-Encoding: chunked\r\n"
pub open spec fn lit_te_chunked_line() -> Seq<u8> {
    seq![84u8, 114u8, 97u8, 110u8, 115u8, 102u8, 101u8, 114u8, 45u8, 69u8, 110u8, 99u8, 111u8, 100u8, 105u8, 110u8, 103u8, 58u8, 32u8, 99u8, 104u8, 117u8, 110u8, 107u8, 101u8, 100u8, 13u8, 10u8]
}

/// "Transfer-Encoding: chunked\r\n"
pub fn bytes_te_chunked_line() -> (r: Vec<u8>)
    ensures
        r@ == lit_te_chunked_line(),
{
    let mut v: Vec<u8> = Vec::new();
    v.push(84);
    v.push(114);
    v.push(97);
    v.push(110);
    v.push(115);
    v.push(102);
    v.push(101);
    v.push(114);
    v.push(45);
    v.push(69);
    v.push(110);
    v.push(99);
    v.push(111);
    v.push(100);
    v.push(105);
    v.push(110);
    v.push(103);
    v.push(58);
    v.push(32);
    v.push(99);
    v.push(104);
    v.push(117);
    v.push(110);
    v.push(107);
    v.push(101);
    v.push(100);
    v.push(13);
    v.push(10);
    proof { assert(v@ =~= lit_te_chunked_line()); }
    v
}

/// "Content-Length: "
pub open spec fn lit_cl_prefix() -> Seq<u8> {
    seq![67u8, 111u8, 110u8, 116u8, 101u8, 110u8, 116u8, 45u8, 76u8, 101u8, 110u8, 103u8, 116u8, 104u8, 58u8, 32u8]
}

/// "Content-Length: "
pub fn bytes_cl_prefix() -> (r: Vec<u8>)
    ensures
        r@ == lit_cl_prefix(),
{
    let mut v: Vec<u8> = Vec::new();
    v.push(67);
    v.push(111);
    v.push(110);
    v.push(116);
    v.push(101);
    v.push(110);
    v.push(116);
    v.push(45);
    v.push(76);
    v.push(101);
    v.push(110);
    v.push(103);
    v.push(116);
    v.push(104);
    v.push(58);
    v.push(32);
    proof { assert(v@ =~= lit_cl_prefix()); }
    v
}

/// "0\r\n\r\n"
pub open spec fn lit_chunk_term() -> Seq<u8> {
    seq![48u8, 13u8, 10u8, 13u8, 10u8]
}

/// "0\r\n\r\n"
pub fn bytes_chunk_term() -> (r: Vec<u8>)
    ensures
        r@ == lit_chunk_term(),
{
    let mut v: Vec<u8> = Vec::new();
    v.push(48);
    v.push(13);
    v.push(10);
    v.push(13);
    v.push(10);
    proof { assert(v@ =~= lit_chunk_term()); }
    v
}

/// "204"
pub open spec fn lit_204() -> Seq<u8> {
    seq![50u8, 48u8, 52u8]
}

/// "204"
pub fn bytes_204() -> (r: Vec<u8>)
    ensures
        r@ == lit_204(),
{
    let mut v: Vec<u8> = Vec::new();
    v.push(50);
    v.push(48);
    v.push(52);
    proof { assert(v@ =~= lit_204()); }
    v
}

/// "304"
pub open spec fn lit_304() -> Seq<u8> {
    seq![51u8, 48u8, 52u8]
}

/// "304"
pub fn bytes_304() -> (r: Vec<u8>)
    ensures
        r@ == lit_304(),
{
    let mut v: Vec<u8> = Vec::new();
    v.push(51);
    v.push(48);
    v.push(52);
    proof { assert(v@ =~= lit_304()); }
    v
}

} // verus!
