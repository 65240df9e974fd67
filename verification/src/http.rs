//! The four parsers over the start of an HTTP/1.x request: method, protocol
//! version, request-target and header fields.
//!
//! Every parser is a pure function of a bounded prefix of its input buffer:
//! at most `REQUEST_LINE_LIMIT` bytes for the request line and at most
//! `HEADER_BLOCK_LIMIT` bytes for the header block.

use vstd::prelude::*;
use vstd::utf8::valid_utf8;

use crate::bytes::find_byte;
use crate::bytes::find_crlf_from;
use crate::bytes::find_crlfcr_from;
use crate::bytes::split_byte;
use crate::bytes::split_byte_from;
use crate::bytes::split_crlf;
use crate::bytes::split_crlf_from;
use crate::bytes::trim;
use crate::bytes::AMP;
use crate::bytes::COLON;
use crate::bytes::EQ;
use crate::bytes::QMARK;
use crate::bytes::SP;
use crate::kvmap::pairs_to_map;
use crate::kvmap::KeyValueMap;

verus! {

/// At most this many leading bytes are inspected when the request line is
/// parsed.
pub const REQUEST_LINE_LIMIT: usize = 1024;

/// At most this many leading bytes are inspected when the header block is
/// parsed.
pub const HEADER_BLOCK_LIMIT: usize = 4092;

/// The request methods of HTTP/1.x, with a catch-all for a method outside
/// the recognized set.
#[derive(PartialEq, Eq, Structural, Debug, Clone, Copy)]
pub enum HttpMethod {
    GET,
    HEAD,
    OPTIONS,
    TRACE,
    DELETE,
    PUT,
    POST,
    PATCH,
    CONNECT,
    UNSUPPORTED,
}

/// The protocol versions whose tokens the version parser recognizes, with a
/// catch-all for a request line whose shape fits none of them.
#[derive(PartialEq, Eq, Structural, Debug, Clone, Copy)]
pub enum HttpVersion {
    V09,
    V10,
    V11,
    V2,
    V3,
    UNSUPPORTED,
}

/// The errors a parser can report: the inspected prefix is not valid UTF-8,
/// or the request line or a header line does not have the expected
/// separator structure.
#[derive(PartialEq, Eq, Structural, Debug, Clone, Copy)]
pub enum HttpParserError {
    NonUtf8InHttpHeader,
    WrongFormat,
}

/// The header fields parsed from the header block.
pub struct HeaderKeys {
    pub key: KeyValueMap,
}

/// The request-target, split into the resource path and the query
/// parameters.
pub struct URIData {
    pub resource: Vec<u8>,
    pub query_parameters: KeyValueMap,
}

/// The prefix of `s` that a parser with bound `limit` may inspect.
pub open spec fn bounded_prefix(s: Seq<u8>, limit: int) -> Seq<u8> {
    if s.len() <= limit {
        s
    } else {
        s.take(limit)
    }
}

/// The request line of the prefix `p`: the bytes before the first CR LF, or
/// all of `p` if it holds no CR LF.
pub open spec fn request_line_of(p: Seq<u8>) -> Seq<u8> {
    p.take(find_crlf_from(p, 0))
}

/// The header block of the prefix `p`: the bytes before the first CR LF CR,
/// or all of `p` if it holds no CR LF CR.
pub open spec fn header_block_of(p: Seq<u8>) -> Seq<u8> {
    p.take(find_crlfcr_from(p, 0))
}

/// The method named by the first three bytes of the buffer.  Exactly the
/// three-byte prefixes of the nine recognized method names are matched;
/// matching does not look past the third byte.
pub open spec fn method_of_bytes(b0: u8, b1: u8, b2: u8) -> HttpMethod {
    if b0 == 71 && b1 == 69 && b2 == 84 {
        HttpMethod::GET  // "GET"
    } else if b0 == 72 && b1 == 69 && b2 == 65 {
        HttpMethod::HEAD  // "HEA"
    } else if b0 == 79 && b1 == 80 && b2 == 84 {
        HttpMethod::OPTIONS  // "OPT"
    } else if b0 == 84 && b1 == 82 && b2 == 65 {
        HttpMethod::TRACE  // "TRA"
    } else if b0 == 68 && b1 == 69 && b2 == 76 {
        HttpMethod::DELETE  // "DEL"
    } else if b0 == 80 && b1 == 85 && b2 == 84 {
        HttpMethod::PUT  // "PUT"
    } else if b0 == 80 && b1 == 79 && b2 == 83 {
        HttpMethod::POST  // "POS"
    } else if b0 == 80 && b1 == 65 && b2 == 84 {
        HttpMethod::PATCH  // "PAT"
    } else if b0 == 67 && b1 == 79 && b2 == 78 {
        HttpMethod::CONNECT  // "CON"
    } else {
        HttpMethod::UNSUPPORTED
    }
}

/// The method named by the first three bytes of `s`.
pub open spec fn method_of(s: Seq<u8>) -> HttpMethod
    recommends
        s.len() >= 3,
{
    method_of_bytes(s[0], s[1], s[2])
}

/// The bytes of the token "HTTP/1.1".
pub open spec fn http11_token() -> Seq<u8> {
    seq![72u8, 84u8, 84u8, 80u8, 47u8, 49u8, 46u8, 49u8]
}

/// The bytes of the token "HTTP/0.9".
pub open spec fn http09_token() -> Seq<u8> {
    seq![72u8, 84u8, 84u8, 80u8, 47u8, 48u8, 46u8, 57u8]
}

/// The bytes of the token "HTTP/2".
pub open spec fn http2_token() -> Seq<u8> {
    seq![72u8, 84u8, 84u8, 80u8, 47u8, 50u8]
}

/// The bytes of the token "HTTP/3".
pub open spec fn http3_token() -> Seq<u8> {
    seq![72u8, 84u8, 84u8, 80u8, 47u8, 51u8]
}

/// The version named by the third token of the request line.  The token
/// "HTTP/0.9" names V10 and an unrecognized token names V09: both are kept
/// exactly as the version table has them.
pub open spec fn version_of_token(t: Seq<u8>) -> HttpVersion {
    if t == http11_token() {
        HttpVersion::V11
    } else if t == http09_token() {
        HttpVersion::V10
    } else if t == http2_token() {
        HttpVersion::V2
    } else if t == http3_token() {
        HttpVersion::V3
    } else {
        HttpVersion::V09
    }
}

/// The version read off a request line: two tokens name the legacy V09
/// form, three tokens name the version of the third token, and any other
/// token count is unsupported.
pub open spec fn version_of_line(line: Seq<u8>) -> HttpVersion {
    let toks = split_byte(line, SP);
    if toks.len() == 2 {
        HttpVersion::V09
    } else if toks.len() == 3 {
        version_of_token(toks[2])
    } else {
        HttpVersion::UNSUPPORTED
    }
}

/// What the version parser returns on a buffer: the version of its request
/// line, or the encoding error if the inspected prefix is not UTF-8.
pub open spec fn version_result(s: Seq<u8>) -> Result<HttpVersion, HttpParserError> {
    let p = bounded_prefix(s, REQUEST_LINE_LIMIT as int);
    if valid_utf8(p) {
        Ok(version_of_line(request_line_of(p)))
    } else {
        Err(HttpParserError::NonUtf8InHttpHeader)
    }
}

/// Classifies the first three bytes of the buffer as a request method.
///
/// The caller guarantees that the buffer holds at least three bytes.
pub fn parse_method(buffer: &[u8]) -> (r: HttpMethod)
    requires
        buffer@.len() >= 3,
    ensures
        r == method_of(buffer@),
{
    let b0 = buffer[0];
    let b1 = buffer[1];
    let b2 = buffer[2];
    if b0 == 71 && b1 == 69 && b2 == 84 {
        HttpMethod::GET
    } else if b0 == 72 && b1 == 69 && b2 == 65 {
        HttpMethod::HEAD
    } else if b0 == 79 && b1 == 80 && b2 == 84 {
        HttpMethod::OPTIONS
    } else if b0 == 84 && b1 == 82 && b2 == 65 {
        HttpMethod::TRACE
    } else if b0 == 68 && b1 == 69 && b2 == 76 {
        HttpMethod::DELETE
    } else if b0 == 80 && b1 == 85 && b2 == 84 {
        HttpMethod::PUT
    } else if b0 == 80 && b1 == 79 && b2 == 83 {
        HttpMethod::POST
    } else if b0 == 80 && b1 == 65 && b2 == 84 {
        HttpMethod::PATCH
    } else if b0 == 67 && b1 == 79 && b2 == 78 {
        HttpMethod::CONNECT
    } else {
        HttpMethod::UNSUPPORTED
    }
}

/// Decodes the bounded prefix and splits its request line on spaces.
/// Returns the tokens, or nothing when the prefix is not valid UTF-8.
fn request_line_tokens(buffer: &[u8]) -> (r: Option<Vec<Vec<u8>>>)
    ensures
        ({
            let p = bounded_prefix(buffer@, REQUEST_LINE_LIMIT as int);
            match r {
                Some(toks) => valid_utf8(p) && toks.deep_view() == split_byte(
                    request_line_of(p),
                    SP,
                ),
                None => !valid_utf8(p),
            }
        }),
{
    let limit = if buffer.len() < REQUEST_LINE_LIMIT {
        buffer.len()
    } else {
        REQUEST_LINE_LIMIT
    };
    let ghost p = bounded_prefix(buffer@, REQUEST_LINE_LIMIT as int);
    proof {
        assert(buffer@.take(limit as int) =~= p);
    }
    if !crate::encoding::is_valid_utf8_up_to(buffer, limit) {
        return None;
    }
    let line_end = crate::bytes::find_crlf_in(buffer, 0, limit);
    let line = crate::bytes::subrange_vec(buffer, 0, line_end);
    proof {
        assert(line@ =~= request_line_of(p));
    }
    Some(crate::bytes::split_on_byte(line.as_slice(), SP))
}

/// Builds the byte vector of the token "HTTP/1.1".
fn http11_vec() -> (r: Vec<u8>)
    ensures
        r@ == http11_token(),
{
    let mut v: Vec<u8> = Vec::new();
    v.push(72);
    v.push(84);
    v.push(84);
    v.push(80);
    v.push(47);
    v.push(49);
    v.push(46);
    v.push(49);
    proof {
        assert(v@ =~= http11_token());
    }
    v
}

/// Builds the byte vector of the token "HTTP/0.9".
fn http09_vec() -> (r: Vec<u8>)
    ensures
        r@ == http09_token(),
{
    let mut v: Vec<u8> = Vec::new();
    v.push(72);
    v.push(84);
    v.push(84);
    v.push(80);
    v.push(47);
    v.push(48);
    v.push(46);
    v.push(57);
    proof {
        assert(v@ =~= http09_token());
    }
    v
}

/// Builds the byte vector of the token "HTTP/2".
fn http2_vec() -> (r: Vec<u8>)
    ensures
        r@ == http2_token(),
{
    let mut v: Vec<u8> = Vec::new();
    v.push(72);
    v.push(84);
    v.push(84);
    v.push(80);
    v.push(47);
    v.push(50);
    proof {
        assert(v@ =~= http2_token());
    }
    v
}

/// Builds the byte vector of the token "HTTP/3".
fn http3_vec() -> (r: Vec<u8>)
    ensures
        r@ == http3_token(),
{
    let mut v: Vec<u8> = Vec::new();
    v.push(72);
    v.push(84);
    v.push(84);
    v.push(80);
    v.push(47);
    v.push(51);
    proof {
        assert(v@ =~= http3_token());
    }
    v
}

/// Matches a version token against the version table.
fn version_from_token(t: &[u8]) -> (r: HttpVersion)
    ensures
        r == version_of_token(t@),
{
    if crate::bytes::bytes_eq(t, http11_vec().as_slice()) {
        HttpVersion::V11
    } else if crate::bytes::bytes_eq(t, http09_vec().as_slice()) {
        HttpVersion::V10
    } else if crate::bytes::bytes_eq(t, http2_vec().as_slice()) {
        HttpVersion::V2
    } else if crate::bytes::bytes_eq(t, http3_vec().as_slice()) {
        HttpVersion::V3
    } else {
        HttpVersion::V09
    }
}

/// Reads the protocol version off the request line found in the first
/// `REQUEST_LINE_LIMIT` bytes of the buffer.
pub fn parse_http_version(buffer: &[u8]) -> (r: Result<HttpVersion, HttpParserError>)
    ensures
        r == version_result(buffer@),
{
    let toks = match request_line_tokens(buffer) {
        Some(toks) => toks,
        None => {
            return Err(HttpParserError::NonUtf8InHttpHeader);
        },
    };
    if toks.len() == 2 {
        Ok(HttpVersion::V09)
    } else if toks.len() == 3 {
        proof {
            assert(toks.deep_view()[2] == toks@[2].deep_view());
            assert(toks@[2].deep_view() =~= toks@[2]@);
        }
        Ok(version_from_token(toks[2].as_slice()))
    } else {
        Ok(HttpVersion::UNSUPPORTED)
    }
}

/// The key and value of one query pair: the bytes before the first equals
/// sign, and the bytes after it.
pub open spec fn query_pair(p: Seq<u8>) -> (Seq<u8>, Seq<u8>)
    recommends
        find_byte(p, EQ) < p.len(),
{
    (p.take(find_byte(p, EQ)), p.skip(find_byte(p, EQ) + 1))
}

/// Every query pair holds an equals sign.
pub open spec fn all_pairs_have_eq(pairs: Seq<Seq<u8>>) -> bool {
    forall|i: int| 0 <= i < pairs.len() ==> find_byte(pairs[i], EQ) < pairs[i].len()
}

/// The map built from the query pairs, inserted from first to last.
pub open spec fn query_map_of(pairs: Seq<Seq<u8>>) -> Map<Seq<u8>, Seq<u8>> {
    pairs_to_map(pairs.map_values(|p: Seq<u8>| query_pair(p)))
}

/// What the target parser makes of the target token `t`: the bytes before
/// the first question mark are the resource; the bytes after it, if any,
/// split on ampersands into key-value pairs, each split on its first equals
/// sign.  A pair without an equals sign is malformed.
pub open spec fn target_result(t: Seq<u8>) -> Result<
    (Seq<u8>, Map<Seq<u8>, Seq<u8>>),
    HttpParserError,
> {
    let q = find_byte(t, QMARK);
    if q == t.len() {
        Ok((t, Map::empty()))
    } else {
        let pairs = split_byte(t.skip(q + 1), AMP);
        if all_pairs_have_eq(pairs) {
            Ok((t.take(q), query_map_of(pairs)))
        } else {
            Err(HttpParserError::WrongFormat)
        }
    }
}

/// What the target parser returns on a buffer: the target of a request
/// line of two or three tokens is its second token; any other token count
/// is malformed.
pub open spec fn uri_result(s: Seq<u8>) -> Result<
    (Seq<u8>, Map<Seq<u8>, Seq<u8>>),
    HttpParserError,
> {
    let p = bounded_prefix(s, REQUEST_LINE_LIMIT as int);
    if !valid_utf8(p) {
        Err(HttpParserError::NonUtf8InHttpHeader)
    } else {
        let toks = split_byte(request_line_of(p), SP);
        if toks.len() == 2 || toks.len() == 3 {
            target_result(toks[1])
        } else {
            Err(HttpParserError::WrongFormat)
        }
    }
}

/// Splits the request-target found in the first `REQUEST_LINE_LIMIT` bytes
/// of the buffer into the resource path and the query parameters.
pub fn parse_uri_data(buffer: &[u8]) -> (r: Result<URIData, HttpParserError>)
    ensures
        ({
            let ur = uri_result(buffer@);
            match r {
                Ok(u) => ur matches Ok(v) && u.resource@ == v.0 && u.query_parameters@ == v.1
                    && u.query_parameters.wf(),
                Err(e) => ur == Err::<(Seq<u8>, Map<Seq<u8>, Seq<u8>>), HttpParserError>(e),
            }
        }),
{
    let toks = match request_line_tokens(buffer) {
        Some(toks) => toks,
        None => {
            return Err(HttpParserError::NonUtf8InHttpHeader);
        },
    };
    if !(toks.len() == 2 || toks.len() == 3) {
        return Err(HttpParserError::WrongFormat);
    }
    let target = toks[1].as_slice();
    let ghost t = toks.deep_view()[1];
    proof {
        assert(toks.deep_view()[1] == toks@[1].deep_view());
        assert(toks@[1].deep_view() =~= toks@[1]@);
    }
    let q = crate::bytes::find_byte_in(target, QMARK, 0, target.len());
    proof {
        assert(target@.take(target@.len() as int) =~= t);
    }
    if q == target.len() {
        let resource = crate::bytes::subrange_vec(target, 0, target.len());
        proof {
            assert(resource@ =~= t);
        }
        return Ok(URIData { resource, query_parameters: KeyValueMap::new() });
    }
    let query_string = crate::bytes::subrange_vec(target, q + 1, target.len());
    proof {
        assert(query_string@ =~= t.skip(q + 1));
    }
    let pairs = crate::bytes::split_on_byte(query_string.as_slice(), AMP);
    let ghost pv = pairs.deep_view();
    let mut qm = KeyValueMap::new();
    let mut idx: usize = 0;
    proof {
        assert(pv.take(0).map_values(|p: Seq<u8>| query_pair(p)) =~= Seq::<(
            Seq<u8>,
            Seq<u8>,
        )>::empty());
    }
    while idx < pairs.len()
        invariant
            idx <= pairs@.len() == pv.len(),
            pv == pairs.deep_view(),
            uri_result(buffer@) == target_result(t),
            find_byte(t, QMARK) == q,
            q < t.len(),
            target@ == t,
            split_byte(t.skip(q + 1), AMP) == pv,
            qm.wf(),
            qm@ == pairs_to_map(pv.take(idx as int).map_values(|p: Seq<u8>| query_pair(p))),
            forall|j: int| 0 <= j < idx ==> find_byte(pv[j], EQ) < pv[j].len(),
        decreases pairs@.len() - idx,
    {
        let pair = pairs[idx].as_slice();
        proof {
            assert(pairs.deep_view()[idx as int] == pairs@[idx as int].deep_view());
            assert(pairs@[idx as int].deep_view() =~= pairs@[idx as int]@);
            assert(pair@.take(pair@.len() as int) =~= pv[idx as int]);
        }
        let e = crate::bytes::find_byte_in(pair, EQ, 0, pair.len());
        if e == pair.len() {
            return Err(HttpParserError::WrongFormat);
        }
        let key = crate::bytes::subrange_vec(pair, 0, e);
        let value = crate::bytes::subrange_vec(pair, e + 1, pair.len());
        proof {
            assert(key@ =~= query_pair(pv[idx as int]).0);
            assert(value@ =~= query_pair(pv[idx as int]).1);
        }
        qm.insert(key, value);
        proof {
            let f = |p: Seq<u8>| query_pair(p);
            assert(pv.take(idx + 1).map_values(f) =~= pv.take(idx as int).map_values(f).push(
                query_pair(pv[idx as int]),
            ));
            assert(pv.take(idx as int).map_values(f).push(query_pair(pv[idx as int])).drop_last()
                =~= pv.take(idx as int).map_values(f));
        }
        idx = idx + 1;
    }
    let resource = crate::bytes::subrange_vec(target, 0, q);
    proof {
        assert(resource@ =~= t.take(q as int));
        assert(pv.take(pv.len() as int) =~= pv);
        assert(all_pairs_have_eq(pv));
    }
    Ok(URIData { resource, query_parameters: qm })
}

/// The key and value of one header line: the bytes before the first colon,
/// and the bytes after it with surrounding whitespace trimmed.
pub open spec fn header_line_pair(l: Seq<u8>) -> (Seq<u8>, Seq<u8>)
    recommends
        find_byte(l, COLON) < l.len(),
{
    (l.take(find_byte(l, COLON)), trim(l.skip(find_byte(l, COLON) + 1)))
}

/// Every header line holds a colon.
pub open spec fn all_lines_have_colon(lines: Seq<Seq<u8>>) -> bool {
    forall|i: int| 0 <= i < lines.len() ==> find_byte(lines[i], COLON) < lines[i].len()
}

/// The map built from the header lines, inserted from first to last, a
/// later line overwriting an earlier one with the same key.
pub open spec fn header_map_of(lines: Seq<Seq<u8>>) -> Map<Seq<u8>, Seq<u8>> {
    pairs_to_map(lines.map_values(|l: Seq<u8>| header_line_pair(l)))
}

/// What the header parser returns on a buffer.  The header block is split
/// into lines on CR LF; the first line is the request line and carries no
/// header.  A block of only the request line holds no headers at all; in a
/// longer block every further line is split on its first colon, and a line
/// without one is malformed.
pub open spec fn headers_result(s: Seq<u8>) -> Result<
    Option<Map<Seq<u8>, Seq<u8>>>,
    HttpParserError,
> {
    let p = bounded_prefix(s, HEADER_BLOCK_LIMIT as int);
    if !valid_utf8(p) {
        Err(HttpParserError::NonUtf8InHttpHeader)
    } else {
        let lines = split_crlf(header_block_of(p));
        if lines.len() <= 1 {
            Ok(None)
        } else {
            let hl = lines.skip(1);
            if all_lines_have_colon(hl) {
                Ok(Some(header_map_of(hl)))
            } else {
                Err(HttpParserError::WrongFormat)
            }
        }
    }
}

/// Extracts the header block from the first `buffer_limit` bytes of the
/// buffer: the bytes before the first CR LF CR, or the whole inspected
/// prefix if that pattern does not occur in it.
pub fn find_header_in_request_bytes(buffer: &[u8], buffer_limit: usize) -> (r: Result<
    Vec<u8>,
    HttpParserError,
>)
    ensures
        ({
            let p = bounded_prefix(buffer@, buffer_limit as int);
            match r {
                Ok(v) => valid_utf8(p) && v@ == header_block_of(p),
                Err(e) => !valid_utf8(p) && e == HttpParserError::NonUtf8InHttpHeader,
            }
        }),
{
    let limit = if buffer.len() < buffer_limit {
        buffer.len()
    } else {
        buffer_limit
    };
    let ghost p = bounded_prefix(buffer@, buffer_limit as int);
    proof {
        assert(buffer@.take(limit as int) =~= p);
    }
    if !crate::encoding::is_valid_utf8_up_to(buffer, limit) {
        return Err(HttpParserError::NonUtf8InHttpHeader);
    }
    let block_end = crate::bytes::find_crlfcr_in(buffer, 0, limit);
    let block = crate::bytes::subrange_vec(buffer, 0, block_end);
    proof {
        assert(block@ =~= header_block_of(p));
    }
    Ok(block)
}

/// Parses the header fields found in the first `HEADER_BLOCK_LIMIT` bytes
/// of the buffer.  A block holding only the request line yields no header
/// map at all; otherwise each header line yields one entry.
pub fn parse_header_keys(buffer: &[u8]) -> (r: Result<Option<HeaderKeys>, HttpParserError>)
    ensures
        ({
            let hr = headers_result(buffer@);
            match r {
                Ok(Some(h)) => hr matches Ok(o) && o matches Some(m) && h.key@ == m
                    && h.key.wf(),
                Ok(None) => hr == Ok::<Option<Map<Seq<u8>, Seq<u8>>>, HttpParserError>(None),
                Err(e) => hr == Err::<Option<Map<Seq<u8>, Seq<u8>>>, HttpParserError>(e),
            }
        }),
{
    let block = match find_header_in_request_bytes(buffer, HEADER_BLOCK_LIMIT) {
        Ok(block) => block,
        Err(e) => {
            return Err(e);
        },
    };
    let ghost p = bounded_prefix(buffer@, HEADER_BLOCK_LIMIT as int);
    let lines = crate::bytes::split_on_crlf(block.as_slice(), block.len());
    let ghost lv = lines.deep_view();
    proof {
        assert(block@.take(block@.len() as int) =~= block@);
        assert(lv == split_crlf(header_block_of(p)));
    }
    if lines.len() <= 1 {
        return Ok(None);
    }
    let ghost hl = lv.skip(1);
    let mut hk = KeyValueMap::new();
    let mut idx: usize = 1;
    proof {
        assert(hl.take(0).map_values(|l: Seq<u8>| header_line_pair(l)) =~= Seq::<(
            Seq<u8>,
            Seq<u8>,
        )>::empty());
    }
    while idx < lines.len()
        invariant
            1 <= idx <= lines@.len() == lv.len(),
            lv == lines.deep_view(),
            headers_result(buffer@) == (if all_lines_have_colon(lv.skip(1)) {
                Ok::<Option<Map<Seq<u8>, Seq<u8>>>, HttpParserError>(
                    Some(header_map_of(lv.skip(1))),
                )
            } else {
                Err::<Option<Map<Seq<u8>, Seq<u8>>>, HttpParserError>(HttpParserError::WrongFormat)
            }),
            hl == lv.skip(1),
            hk.wf(),
            hk@ == pairs_to_map(
                hl.take(idx - 1).map_values(|l: Seq<u8>| header_line_pair(l)),
            ),
            forall|j: int| 1 <= j < idx ==> find_byte(lv[j], COLON) < lv[j].len(),
        decreases lines@.len() - idx,
    {
        let line = lines[idx].as_slice();
        proof {
            assert(lines.deep_view()[idx as int] == lines@[idx as int].deep_view());
            assert(lines@[idx as int].deep_view() =~= lines@[idx as int]@);
            assert(line@.take(line@.len() as int) =~= lv[idx as int]);
            assert(hl[idx - 1] == lv[idx as int]);
        }
        let c = crate::bytes::find_byte_in(line, COLON, 0, line.len());
        if c == line.len() {
            proof {
                assert(find_byte(lv.skip(1)[idx - 1], COLON) == lv.skip(1)[idx - 1].len());
            }
            return Err(HttpParserError::WrongFormat);
        }
        let key = crate::bytes::subrange_vec(line, 0, c);
        let raw_value = crate::bytes::subrange_vec(line, c + 1, line.len());
        let value = crate::bytes::trim_bytes(raw_value.as_slice());
        proof {
            assert(key@ =~= header_line_pair(lv[idx as int]).0);
            assert(raw_value@ =~= lv[idx as int].skip(find_byte(lv[idx as int], COLON) + 1));
            assert(value@ == header_line_pair(lv[idx as int]).1);
        }
        hk.insert(key, value);
        proof {
            let f = |l: Seq<u8>| header_line_pair(l);
            assert(hl.take(idx as int).map_values(f) =~= hl.take(idx - 1).map_values(f).push(
                header_line_pair(hl[idx - 1]),
            ));
            assert(hl.take(idx - 1).map_values(f).push(header_line_pair(hl[idx - 1])).drop_last()
                =~= hl.take(idx - 1).map_values(f));
        }
        idx = idx + 1;
    }
    proof {
        assert(hl.take(hl.len() as int) =~= hl);
        assert(all_lines_have_colon(hl)) by {
            assert(forall|i: int| 0 <= i < hl.len() ==> hl[i] == lv[i + 1]);
        }
    }
    Ok(Some(HeaderKeys { key: hk }))
}


/// The bytes of the request "GET / HTTP/1.1" with one header line.
pub open spec fn sample_plain() -> Seq<u8> {
    seq![71u8, 69u8, 84u8, 32u8, 47u8, 32u8, 72u8, 84u8, 84u8, 80u8, 47u8, 49u8, 46u8, 49u8, 13u8, 10u8, 72u8, 111u8, 115u8, 116u8, 58u8, 32u8, 119u8, 119u8, 119u8, 46u8, 101u8, 120u8, 97u8, 109u8, 112u8, 108u8, 101u8, 46u8, 114u8, 101u8]
}

/// The bytes of a request whose target carries one query pair.
pub open spec fn sample_uri() -> Seq<u8> {
    seq![71u8, 101u8, 116u8, 32u8, 47u8, 102u8, 105u8, 110u8, 100u8, 63u8, 99u8, 111u8, 108u8, 111u8, 114u8, 61u8, 103u8, 114u8, 101u8, 101u8, 110u8, 32u8, 72u8, 84u8, 84u8, 80u8, 47u8, 49u8, 46u8, 49u8, 13u8, 10u8, 72u8, 111u8, 115u8, 116u8, 58u8, 32u8, 119u8, 119u8, 119u8, 46u8, 101u8, 120u8, 97u8, 109u8, 112u8, 108u8, 101u8, 46u8, 114u8, 101u8]
}

/// One quarter of the `sample_post` bytes.
pub open spec fn sample_post_a() -> Seq<u8> {
    seq![80u8, 79u8, 83u8, 84u8, 32u8, 47u8, 116u8, 101u8, 115u8, 116u8, 32u8, 72u8, 84u8, 84u8, 80u8, 47u8, 49u8, 46u8, 49u8, 13u8, 10u8, 72u8, 111u8, 115u8, 116u8, 58u8, 32u8, 101u8, 120u8, 97u8, 109u8, 112u8]
}

/// One quarter of the `sample_post` bytes.
pub open spec fn sample_post_b() -> Seq<u8> {
    seq![108u8, 101u8, 46u8, 99u8, 111u8, 109u8, 13u8, 10u8, 67u8, 111u8, 110u8, 116u8, 101u8, 110u8, 116u8, 45u8, 84u8, 121u8, 112u8, 101u8, 58u8, 32u8, 97u8, 112u8, 112u8, 108u8, 105u8, 99u8, 97u8, 116u8, 105u8, 111u8]
}

/// One quarter of the `sample_post` bytes.
pub open spec fn sample_post_c() -> Seq<u8> {
    seq![110u8, 47u8, 120u8, 45u8, 119u8, 119u8, 119u8, 45u8, 102u8, 111u8, 114u8, 109u8, 45u8, 117u8, 114u8, 108u8, 101u8, 110u8, 99u8, 111u8, 100u8, 101u8, 100u8, 13u8, 10u8, 67u8, 111u8, 110u8, 116u8, 101u8, 110u8, 116u8]
}

/// One quarter of the `sample_post` bytes.
pub open spec fn sample_post_d() -> Seq<u8> {
    seq![45u8, 76u8, 101u8, 110u8, 103u8, 116u8, 104u8, 58u8, 32u8, 50u8, 55u8, 13u8, 10u8, 13u8, 106u8, 111u8, 98u8, 61u8, 49u8, 48u8, 48u8, 38u8, 112u8, 114u8, 105u8, 111u8, 114u8, 105u8, 116u8, 121u8, 61u8, 50u8]
}

/// The bytes of a POST request with three header lines and a body.
pub open spec fn sample_post() -> Seq<u8> {
    sample_post_a() + sample_post_b() + sample_post_c() + sample_post_d()
}

/// Builds the `sample_plain` bytes.
fn sample_plain_vec() -> (v: Vec<u8>)
    ensures
        v@ == sample_plain(),
{
    let mut v: Vec<u8> = Vec::new();
    v.push(71);
    v.push(69);
    v.push(84);
    v.push(32);
    v.push(47);
    v.push(32);
    v.push(72);
    v.push(84);
    v.push(84);
    v.push(80);
    v.push(47);
    v.push(49);
    v.push(46);
    v.push(49);
    v.push(13);
    v.push(10);
    v.push(72);
    v.push(111);
    v.push(115);
    v.push(116);
    v.push(58);
    v.push(32);
    v.push(119);
    v.push(119);
    v.push(119);
    v.push(46);
    v.push(101);
    v.push(120);
    v.push(97);
    v.push(109);
    v.push(112);
    v.push(108);
    v.push(101);
    v.push(46);
    v.push(114);
    v.push(101);
    proof {
        assert(v@ =~= sample_plain());
    }
    v
}

/// Builds the `sample_uri` bytes.
fn sample_uri_vec() -> (v: Vec<u8>)
    ensures
        v@ == sample_uri(),
{
    let mut v: Vec<u8> = Vec::new();
    v.push(71);
    v.push(101);
    v.push(116);
    v.push(32);
    v.push(47);
    v.push(102);
    v.push(105);
    v.push(110);
    v.push(100);
    v.push(63);
    v.push(99);
    v.push(111);
    v.push(108);
    v.push(111);
    v.push(114);
    v.push(61);
    v.push(103);
    v.push(114);
    v.push(101);
    v.push(101);
    v.push(110);
    v.push(32);
    v.push(72);
    v.push(84);
    v.push(84);
    v.push(80);
    v.push(47);
    v.push(49);
    v.push(46);
    v.push(49);
    v.push(13);
    v.push(10);
    v.push(72);
    v.push(111);
    v.push(115);
    v.push(116);
    v.push(58);
    v.push(32);
    v.push(119);
    v.push(119);
    v.push(119);
    v.push(46);
    v.push(101);
    v.push(120);
    v.push(97);
    v.push(109);
    v.push(112);
    v.push(108);
    v.push(101);
    v.push(46);
    v.push(114);
    v.push(101);
    proof {
        assert(v@ =~= sample_uri());
    }
    v
}

/// Builds the `sample_post` bytes.
#[verifier::rlimit(100)]
fn sample_post_vec() -> (v: Vec<u8>)
    ensures
        v@ == sample_post(),
{
    let mut v: Vec<u8> = Vec::new();
    v.push(80);
    v.push(79);
    v.push(83);
    v.push(84);
    v.push(32);
    v.push(47);
    v.push(116);
    v.push(101);
    v.push(115);
    v.push(116);
    v.push(32);
    v.push(72);
    v.push(84);
    v.push(84);
    v.push(80);
    v.push(47);
    v.push(49);
    v.push(46);
    v.push(49);
    v.push(13);
    v.push(10);
    v.push(72);
    v.push(111);
    v.push(115);
    v.push(116);
    v.push(58);
    v.push(32);
    v.push(101);
    v.push(120);
    v.push(97);
    v.push(109);
    v.push(112);
    proof {
        assert(v@ =~= sample_post_a());
    }
    v.push(108);
    v.push(101);
    v.push(46);
    v.push(99);
    v.push(111);
    v.push(109);
    v.push(13);
    v.push(10);
    v.push(67);
    v.push(111);
    v.push(110);
    v.push(116);
    v.push(101);
    v.push(110);
    v.push(116);
    v.push(45);
    v.push(84);
    v.push(121);
    v.push(112);
    v.push(101);
    v.push(58);
    v.push(32);
    v.push(97);
    v.push(112);
    v.push(112);
    v.push(108);
    v.push(105);
    v.push(99);
    v.push(97);
    v.push(116);
    v.push(105);
    v.push(111);
    proof {
        assert(v@ =~= sample_post_a() + sample_post_b());
    }
    v.push(110);
    v.push(47);
    v.push(120);
    v.push(45);
    v.push(119);
    v.push(119);
    v.push(119);
    v.push(45);
    v.push(102);
    v.push(111);
    v.push(114);
    v.push(109);
    v.push(45);
    v.push(117);
    v.push(114);
    v.push(108);
    v.push(101);
    v.push(110);
    v.push(99);
    v.push(111);
    v.push(100);
    v.push(101);
    v.push(100);
    v.push(13);
    v.push(10);
    v.push(67);
    v.push(111);
    v.push(110);
    v.push(116);
    v.push(101);
    v.push(110);
    v.push(116);
    proof {
        assert(v@ =~= sample_post_a() + sample_post_b() + sample_post_c());
    }
    v.push(45);
    v.push(76);
    v.push(101);
    v.push(110);
    v.push(103);
    v.push(116);
    v.push(104);
    v.push(58);
    v.push(32);
    v.push(50);
    v.push(55);
    v.push(13);
    v.push(10);
    v.push(13);
    v.push(106);
    v.push(111);
    v.push(98);
    v.push(61);
    v.push(49);
    v.push(48);
    v.push(48);
    v.push(38);
    v.push(112);
    v.push(114);
    v.push(105);
    v.push(111);
    v.push(114);
    v.push(105);
    v.push(116);
    v.push(121);
    v.push(61);
    v.push(50);
    proof {
        assert(v@ =~= sample_post_a() + sample_post_b() + sample_post_c() + sample_post_d());
    }
    v
}

/// On the `sample_plain` request the method parser reads GET and the
/// version parser reads V11.
#[verifier::rlimit(60)]
proof fn lemma_sample_plain()
    ensures
        method_of(sample_plain()) == HttpMethod::GET,
        version_result(sample_plain()) == Ok::<HttpVersion, HttpParserError>(HttpVersion::V11),
{
    let s = sample_plain();
    assert(s.len() == 36);
    assert(s[0] == 71 && s[1] == 69 && s[2] == 84);
    crate::encoding::lemma_ascii_valid_utf8(s);
    crate::bytes::lemma_find_crlf_from_is_first(s, 0, 14);
    let line = s.take(14);
    assert(forall|m: int| 0 <= m < 14 ==> line[m] == s[m]);
    crate::bytes::lemma_find_byte_from_is_first(line, SP, 0, 3);
    crate::bytes::lemma_find_byte_from_is_first(line, SP, 4, 5);
    crate::bytes::lemma_find_byte_from_is_first(line, SP, 6, 14);
    assert(split_byte_from(line, SP, 6) =~= seq![line.subrange(6, 14)]);
    assert(split_byte_from(line, SP, 4) =~= seq![line.subrange(4, 5), line.subrange(6, 14)]);
    assert(split_byte_from(line, SP, 0) =~= seq![
        line.subrange(0, 3),
        line.subrange(4, 5),
        line.subrange(6, 14),
    ]);
    let toks = split_byte(line, SP);
    assert(toks.len() == 3);
    assert(toks[2] =~= http11_token());
    assert(version_of_line(line) == HttpVersion::V11);
}

/// On the `sample_uri` request the target parser finds the resource
/// "/find" and exactly one query pair, color = green.
#[verifier::rlimit(60)]
proof fn lemma_sample_uri()
    ensures
        uri_result(sample_uri()) matches Ok(v) && v.0 == seq![
            47u8,
            102u8,
            105u8,
            110u8,
            100u8,
        ] && v.1 == Map::<Seq<u8>, Seq<u8>>::empty().insert(
            seq![99u8, 111u8, 108u8, 111u8, 114u8],
            seq![103u8, 114u8, 101u8, 101u8, 110u8],
        ) && v.1.dom().len() == 1,
{
    let s = sample_uri();
    assert(s.len() == 52);
    crate::encoding::lemma_ascii_valid_utf8(s);
    crate::bytes::lemma_find_crlf_from_is_first(s, 0, 30);
    let line = s.take(30);
    assert(forall|m: int| 0 <= m < 30 ==> line[m] == s[m]);
    crate::bytes::lemma_find_byte_from_is_first(line, SP, 0, 3);
    crate::bytes::lemma_find_byte_from_is_first(line, SP, 4, 21);
    crate::bytes::lemma_find_byte_from_is_first(line, SP, 22, 30);
    assert(split_byte_from(line, SP, 22) =~= seq![line.subrange(22, 30)]);
    assert(split_byte_from(line, SP, 4) =~= seq![line.subrange(4, 21), line.subrange(22, 30)]);
    assert(split_byte_from(line, SP, 0) =~= seq![
        line.subrange(0, 3),
        line.subrange(4, 21),
        line.subrange(22, 30),
    ]);
    let toks = split_byte(line, SP);
    assert(toks.len() == 3);
    let t = line.subrange(4, 21);
    assert(forall|m: int| 0 <= m < 17 ==> t[m] == s[4 + m]);
    crate::bytes::lemma_find_byte_from_is_first(t, QMARK, 0, 5);
    let query = t.skip(6);
    assert(query.len() == 11);
    assert(forall|m: int| 0 <= m < 11 ==> query[m] == s[10 + m]);
    crate::bytes::lemma_find_byte_from_is_first(query, AMP, 0, 11);
    assert(split_byte_from(query, AMP, 0) =~= seq![query.subrange(0, 11)]);
    let pair = query.subrange(0, 11);
    assert(pair =~= query);
    crate::bytes::lemma_find_byte_from_is_first(pair, EQ, 0, 5);
    let ck = pair.take(5);
    let cv = pair.skip(6);
    assert(ck =~= seq![99u8, 111u8, 108u8, 111u8, 114u8]);
    assert(cv =~= seq![103u8, 114u8, 101u8, 101u8, 110u8]);
    let ps = split_byte(query, AMP).map_values(|p: Seq<u8>| query_pair(p));
    assert(ps =~= seq![(ck, cv)]);
    assert(ps.drop_last() =~= Seq::<(Seq<u8>, Seq<u8>)>::empty());
    assert(pairs_to_map(Seq::<(Seq<u8>, Seq<u8>)>::empty()) == Map::<Seq<u8>, Seq<u8>>::empty());
    assert(pairs_to_map(ps) == Map::<Seq<u8>, Seq<u8>>::empty().insert(ck, cv));
    assert(query_map_of(split_byte(query, AMP)) == Map::<Seq<u8>, Seq<u8>>::empty().insert(
        ck,
        cv,
    ));
    let m = Map::<Seq<u8>, Seq<u8>>::empty().insert(ck, cv);
    assert(m.dom() =~= Set::<Seq<u8>>::empty().insert(ck));
    vstd::set::axiom_set_insert_len(Set::<Seq<u8>>::empty(), ck);
    assert(m.dom().len() == 1);
    assert(t.take(5) =~= seq![47u8, 102u8, 105u8, 110u8, 100u8]);
    assert(t.skip(6) =~= query);
}

/// On the `sample_post` request the header parser finds exactly three
/// header fields.
#[verifier::rlimit(100)]
proof fn lemma_sample_post()
    ensures
        headers_result(sample_post()) matches Ok(o) && o matches Some(m) && m.dom().len() == 3,
{
    let s = sample_post();
    assert(s.len() == 128);
    crate::encoding::lemma_ascii_valid_utf8(s);
    assert(bounded_prefix(s, HEADER_BLOCK_LIMIT as int) == s);
    crate::bytes::lemma_find_crlfcr_from_is_first(s, 0, 107);
    let block = s.take(107);
    assert(forall|m: int| 0 <= m < 107 ==> block[m] == s[m]);
    crate::bytes::lemma_find_crlf_from_is_first(block, 0, 19);
    crate::bytes::lemma_find_crlf_from_is_first(block, 21, 38);
    crate::bytes::lemma_find_crlf_from_is_first(block, 40, 87);
    crate::bytes::lemma_find_crlf_from_is_first(block, 89, 107);
    assert(split_crlf_from(block, 89) =~= seq![block.subrange(89, 107)]);
    assert(split_crlf_from(block, 40) =~= seq![
        block.subrange(40, 87),
        block.subrange(89, 107),
    ]);
    assert(split_crlf_from(block, 21) =~= seq![
        block.subrange(21, 38),
        block.subrange(40, 87),
        block.subrange(89, 107),
    ]);
    assert(split_crlf_from(block, 0) =~= seq![
        block.subrange(0, 19),
        block.subrange(21, 38),
        block.subrange(40, 87),
        block.subrange(89, 107),
    ]);
    let lines = split_crlf(block);
    assert(lines.len() == 4);
    let l1 = block.subrange(21, 38);
    let l2 = block.subrange(40, 87);
    let l3 = block.subrange(89, 107);
    let hl = lines.skip(1);
    assert(hl =~= seq![l1, l2, l3]);
    assert(forall|m: int| 0 <= m < 17 ==> l1[m] == s[21 + m]);
    assert(forall|m: int| 0 <= m < 47 ==> l2[m] == s[40 + m]);
    assert(forall|m: int| 0 <= m < 18 ==> l3[m] == s[89 + m]);
    crate::bytes::lemma_find_byte_from_is_first(l1, COLON, 0, 4);
    crate::bytes::lemma_find_byte_from_is_first(l2, COLON, 0, 12);
    crate::bytes::lemma_find_byte_from_is_first(l3, COLON, 0, 14);
    assert(all_lines_have_colon(hl)) by {
        assert(find_byte(hl[0], COLON) == 4);
        assert(find_byte(hl[1], COLON) == 12);
        assert(find_byte(hl[2], COLON) == 14);
    }
    let f = |l: Seq<u8>| header_line_pair(l);
    let ps = hl.map_values(f);
    assert(ps =~= seq![f(l1), f(l2), f(l3)]);
    let k1 = l1.take(4);
    let k2 = l2.take(12);
    let k3 = l3.take(14);
    assert(seq![f(l1)].drop_last() =~= Seq::<(Seq<u8>, Seq<u8>)>::empty());
    assert(seq![f(l1), f(l2)].drop_last() =~= seq![f(l1)]);
    assert(ps.drop_last() =~= seq![f(l1), f(l2)]);
    let m1 = Map::<Seq<u8>, Seq<u8>>::empty().insert(k1, f(l1).1);
    let m2 = m1.insert(k2, f(l2).1);
    let m3 = m2.insert(k3, f(l3).1);
    assert(pairs_to_map(Seq::<(Seq<u8>, Seq<u8>)>::empty()) == Map::<Seq<u8>, Seq<u8>>::empty());
    assert(pairs_to_map(seq![f(l1)]) == m1);
    assert(pairs_to_map(seq![f(l1), f(l2)]) == m2);
    assert(pairs_to_map(ps) == m3);
    assert(k1.len() == 4 && k2.len() == 12 && k3.len() == 14);
    assert(m3.dom() =~= Set::<Seq<u8>>::empty().insert(k1).insert(k2).insert(k3));
    vstd::set::axiom_set_insert_len(Set::<Seq<u8>>::empty(), k1);
    vstd::set::axiom_set_insert_len(Set::<Seq<u8>>::empty().insert(k1), k2);
    vstd::set::axiom_set_insert_len(Set::<Seq<u8>>::empty().insert(k1).insert(k2), k3);
    assert(m3.dom().len() == 3);
    assert(headers_result(s) == Ok::<Option<Map<Seq<u8>, Seq<u8>>>, HttpParserError>(
        Some(header_map_of(hl)),
    ));
}

/// Runs the parsers on three sample requests; every check is proved, so
/// the call cannot fail.
pub fn test_http() {
    let get_test_plain = sample_plain_vec();
    let request_method = parse_method(get_test_plain.as_slice());
    proof {
        lemma_sample_plain();
    }
    assert(request_method == HttpMethod::GET);
    let http_version = parse_http_version(get_test_plain.as_slice());
    assert(http_version == Ok::<HttpVersion, HttpParserError>(HttpVersion::V11));
    let get_test_uri_parameters = sample_uri_vec();
    let uri_data = parse_uri_data(get_test_uri_parameters.as_slice());
    proof {
        lemma_sample_uri();
    }
    match uri_data {
        Ok(uri_data) => {
            let n = uri_data.query_parameters.len();
            assert(n == 1);
            assert(uri_data.resource@ == seq![47u8, 102u8, 105u8, 110u8, 100u8]);
        },
        Err(_) => {
            assert(false);
        },
    }
    let post_test_formurl_encoded = sample_post_vec();
    let header_keys = parse_header_keys(post_test_formurl_encoded.as_slice());
    proof {
        lemma_sample_post();
    }
    match header_keys {
        Ok(Some(header_keys)) => {
            let n = header_keys.key.len();
            assert(n == 3);
        },
        Ok(None) => {
            assert(false);
        },
        Err(_) => {
            assert(false);
        },
    }
}

} // verus!
