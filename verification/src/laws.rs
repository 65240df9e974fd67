//! General properties of the parsers, stated over the specification
//! functions that their contracts use.

use vstd::prelude::*;

use crate::bytes::find_byte;
use crate::bytes::lemma_find_byte_from_is_first;
use crate::bytes::lemma_find_crlf_from;
use crate::bytes::lemma_split_byte_from_shift;
use crate::bytes::split_byte;
use crate::bytes::AMP;
use crate::bytes::CR;
use crate::bytes::LF;
use crate::bytes::EQ;
use crate::bytes::QMARK;
use crate::bytes::SP;
use crate::http::all_pairs_have_eq;
use crate::http::bounded_prefix;
use crate::http::query_map_of;
use crate::http::query_pair;
use crate::http::request_line_of;
use crate::http::target_result;
use crate::http::version_of_line;
use crate::http::version_result;
use crate::http::HttpParserError;
use crate::http::HttpVersion;
use crate::http::REQUEST_LINE_LIMIT;
use crate::kvmap::pairs_to_map;

verus! {

/// A request line of exactly two space-separated tokens names the legacy
/// version V09.
pub proof fn lemma_two_token_line_is_v09(line: Seq<u8>)
    requires
        split_byte(line, SP).len() == 2,
    ensures
        version_of_line(line) == HttpVersion::V09,
{
}

/// A target token without a question mark is all resource: the query map
/// comes back empty and the resource is the whole token.
pub proof fn lemma_target_without_query(t: Seq<u8>)
    requires
        forall|i: int| 0 <= i < t.len() ==> t[i] != QMARK,
    ensures
        target_result(t) == Ok::<(Seq<u8>, Map<Seq<u8>, Seq<u8>>), HttpParserError>(
            (t, Map::empty()),
        ),
{
    lemma_find_byte_from_is_first(t, QMARK, 0, t.len() as int);
}

/// A buffer whose inspected prefix is not valid UTF-8 is rejected by the
/// version parser with the encoding error, whatever else it holds.
pub proof fn lemma_invalid_encoding_is_rejected(s: Seq<u8>)
    requires
        !vstd::utf8::valid_utf8(bounded_prefix(s, REQUEST_LINE_LIMIT as int)),
    ensures
        version_result(s) == Err::<HttpVersion, HttpParserError>(
            HttpParserError::NonUtf8InHttpHeader,
        ),
{
}

/// A buffer shorter than the request-line bound and without a line
/// terminator is read as one request line: the whole buffer.
pub proof fn lemma_no_terminator_whole_buffer_is_line(s: Seq<u8>)
    requires
        s.len() <= REQUEST_LINE_LIMIT,
        forall|i: int| #![trigger s[i]] 0 <= i && i + 2 <= s.len() ==> !(s[i] == CR && s[i + 1] == LF),
    ensures
        request_line_of(bounded_prefix(s, REQUEST_LINE_LIMIT as int)) == s,
{
    lemma_find_crlf_from(s, 0);
    assert(crate::bytes::find_crlf_from(s, 0) == s.len());
    assert(s.take(s.len() as int) =~= s);
}

/// One query pair, written as key, equals sign, value.
pub open spec fn encode_pair(kv: (Seq<u8>, Seq<u8>)) -> Seq<u8> {
    kv.0 + seq![EQ] + kv.1
}

/// The query pairs joined with ampersands, in order.
pub open spec fn serialize_query(ps: Seq<(Seq<u8>, Seq<u8>)>) -> Seq<u8>
    decreases ps.len(),
{
    if ps.len() == 0 {
        Seq::empty()
    } else if ps.len() == 1 {
        encode_pair(ps[0])
    } else {
        encode_pair(ps[0]) + seq![AMP] + serialize_query(ps.skip(1))
    }
}

/// `b` occurs nowhere in `s`.
pub open spec fn byte_free(s: Seq<u8>, b: u8) -> bool {
    forall|i: int| 0 <= i < s.len() ==> s[i] != b
}

/// The key and the value of the pair hold none of the three separators.
pub open spec fn pair_clean(kv: (Seq<u8>, Seq<u8>)) -> bool {
    &&& byte_free(kv.0, QMARK)
    &&& byte_free(kv.0, AMP)
    &&& byte_free(kv.0, EQ)
    &&& byte_free(kv.1, QMARK)
    &&& byte_free(kv.1, AMP)
    &&& byte_free(kv.1, EQ)
}

/// An encoded clean pair splits back into its key and value at its first
/// equals sign.
proof fn lemma_pair_round_trip(kv: (Seq<u8>, Seq<u8>))
    requires
        pair_clean(kv),
    ensures
        find_byte(encode_pair(kv), EQ) == kv.0.len(),
        kv.0.len() < encode_pair(kv).len(),
        query_pair(encode_pair(kv)) == kv,
{
    let e = encode_pair(kv);
    assert(e[kv.0.len() as int] == EQ);
    lemma_find_byte_from_is_first(e, EQ, 0, kv.0.len() as int);
    assert(e.take(kv.0.len() as int) =~= kv.0);
    assert(e.skip(kv.0.len() as int + 1) =~= kv.1);
}

/// The serialization of clean pairs splits on ampersands back into the
/// encoded pairs, in order.
proof fn lemma_split_serialized(ps: Seq<(Seq<u8>, Seq<u8>)>)
    requires
        ps.len() > 0,
        forall|i: int| 0 <= i < ps.len() ==> pair_clean(#[trigger] ps[i]),
    ensures
        split_byte(serialize_query(ps), AMP) == ps.map_values(
            |kv: (Seq<u8>, Seq<u8>)| encode_pair(kv),
        ),
    decreases ps.len(),
{
    let s = serialize_query(ps);
    let e0 = encode_pair(ps[0]);
    let f = |kv: (Seq<u8>, Seq<u8>)| encode_pair(kv);
    assert(pair_clean(ps[0]));
    if ps.len() == 1 {
        lemma_find_byte_from_is_first(s, AMP, 0, s.len() as int);
        assert(s.subrange(0, s.len() as int) =~= s);
        assert(ps.map_values(f) =~= seq![e0]);
    } else {
        assert(forall|m: int| 0 <= m < e0.len() ==> e0[m] != AMP);
        assert(s[e0.len() as int] == AMP);
        assert(forall|m: int| 0 <= m < e0.len() ==> s[m] == e0[m]);
        lemma_find_byte_from_is_first(s, AMP, 0, e0.len() as int);
        assert(s.subrange(0, e0.len() as int) =~= e0);
        lemma_split_byte_from_shift(s, AMP, e0.len() as int + 1);
        assert(s.skip(e0.len() as int + 1) =~= serialize_query(ps.skip(1)));
        assert(forall|i: int| 0 <= i < ps.skip(1).len() ==> pair_clean(#[trigger] ps.skip(1)[i]));
        lemma_split_serialized(ps.skip(1));
        assert(ps.map_values(f) =~= seq![e0] + ps.skip(1).map_values(f));
    }
}

/// Writing a resource and a nonempty query map as a target token, resource,
/// question mark, then the pairs joined with ampersands, and parsing the
/// token again recovers the resource and the map, whatever order the pairs
/// were written in.  The resource and all keys and values must be free of
/// the three separators.
pub proof fn lemma_query_round_trip(r: Seq<u8>, ps: Seq<(Seq<u8>, Seq<u8>)>)
    requires
        ps.len() > 0,
        byte_free(r, QMARK),
        forall|i: int| 0 <= i < ps.len() ==> pair_clean(#[trigger] ps[i]),
    ensures
        target_result(r + seq![QMARK] + serialize_query(ps)) == Ok::<
            (Seq<u8>, Map<Seq<u8>, Seq<u8>>),
            HttpParserError,
        >((r, pairs_to_map(ps))),
{
    let t = r + seq![QMARK] + serialize_query(ps);
    assert(t[r.len() as int] == QMARK);
    assert(forall|m: int| 0 <= m < r.len() ==> t[m] == r[m]);
    lemma_find_byte_from_is_first(t, QMARK, 0, r.len() as int);
    assert(t.take(r.len() as int) =~= r);
    assert(t.skip(r.len() as int + 1) =~= serialize_query(ps));
    lemma_split_serialized(ps);
    let f = |kv: (Seq<u8>, Seq<u8>)| encode_pair(kv);
    let pairs = ps.map_values(f);
    assert forall|i: int| 0 <= i < pairs.len() implies find_byte(#[trigger] pairs[i], EQ)
        < pairs[i].len() by {
        lemma_pair_round_trip(ps[i]);
    }
    assert(all_pairs_have_eq(pairs));
    assert forall|i: int| 0 <= i < pairs.len() implies query_pair(#[trigger] pairs[i]) == ps[i] by {
        lemma_pair_round_trip(ps[i]);
    }
    assert(pairs.map_values(|p: Seq<u8>| query_pair(p)) =~= ps);
    assert(query_map_of(pairs) == pairs_to_map(ps));
}

} // verus!
