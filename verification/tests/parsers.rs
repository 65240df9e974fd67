use http_parser::http::parse_http_version;
use http_parser::http::parse_method;
use http_parser::http::parse_uri_data;
use http_parser::http::test_http;
use http_parser::http::HttpMethod;
use http_parser::http::HttpParserError;
use http_parser::http::HttpVersion;

#[test]
fn test_http_runs() {
    test_http();
}

#[test]
fn method_recognized_prefixes() {
    assert_eq!(parse_method(b"GET / HTTP/1.1\r\n"), HttpMethod::GET);
    assert_eq!(parse_method(b"HEAD / HTTP/1.1\r\n"), HttpMethod::HEAD);
    assert_eq!(parse_method(b"OPTIONS / HTTP/1.1\r\n"), HttpMethod::OPTIONS);
    assert_eq!(parse_method(b"TRACE / HTTP/1.1\r\n"), HttpMethod::TRACE);
    assert_eq!(parse_method(b"DELETE / HTTP/1.1\r\n"), HttpMethod::DELETE);
    assert_eq!(parse_method(b"PUT / HTTP/1.1\r\n"), HttpMethod::PUT);
    assert_eq!(parse_method(b"POST / HTTP/1.1\r\n"), HttpMethod::POST);
    assert_eq!(parse_method(b"PATCH / HTTP/1.1\r\n"), HttpMethod::PATCH);
    assert_eq!(parse_method(b"CONNECT / HTTP/1.1\r\n"), HttpMethod::CONNECT);
}

#[test]
fn method_unrecognized_prefix() {
    assert_eq!(parse_method(b"BREW / HTTP/1.1\r\n"), HttpMethod::UNSUPPORTED);
    // matching is case-sensitive
    assert_eq!(parse_method(b"get / HTTP/1.1\r\n"), HttpMethod::UNSUPPORTED);
    assert_eq!(parse_method(b"Get / HTTP/1.1\r\n"), HttpMethod::UNSUPPORTED);
}

#[test]
fn method_matches_only_first_three_bytes() {
    // only the three-byte prefix decides, whatever follows it
    assert_eq!(parse_method(b"GETAWAY / HTTP/1.1\r\n"), HttpMethod::GET);
    assert_eq!(parse_method(b"PUTRID / HTTP/1.1\r\n"), HttpMethod::PUT);
    assert_eq!(parse_method(b"POSSUM / HTTP/1.1\r\n"), HttpMethod::POST);
}

#[test]
fn version_v11() {
    let r = parse_http_version(b"GET / HTTP/1.1\r\nHost: www.example.re");
    assert_eq!(r, Ok(HttpVersion::V11));
}

#[test]
fn version_two_tokens_is_v09() {
    let r = parse_http_version(b"GET /\r\nHost: www.example.re");
    assert_eq!(r, Ok(HttpVersion::V09));
}

#[test]
fn version_table() {
    assert_eq!(parse_http_version(b"GET / HTTP/0.9\r\n"), Ok(HttpVersion::V10));
    assert_eq!(parse_http_version(b"GET / HTTP/2\r\n"), Ok(HttpVersion::V2));
    assert_eq!(parse_http_version(b"GET / HTTP/3\r\n"), Ok(HttpVersion::V3));
    // an unrecognized third token falls back to V09
    assert_eq!(parse_http_version(b"GET / HTTP/9.9\r\n"), Ok(HttpVersion::V09));
    assert_eq!(parse_http_version(b"GET / http/1.1\r\n"), Ok(HttpVersion::V09));
}

#[test]
fn version_odd_token_counts_are_unsupported() {
    assert_eq!(parse_http_version(b"GETONLY\r\n"), Ok(HttpVersion::UNSUPPORTED));
    assert_eq!(parse_http_version(b"GET / HTTP/1.1 extra\r\n"), Ok(HttpVersion::UNSUPPORTED));
}

#[test]
fn version_invalid_utf8_is_rejected() {
    let r = parse_http_version(&[0xff, 0xfe, 0x41]);
    assert_eq!(r, Err(HttpParserError::NonUtf8InHttpHeader));
    // an invalid byte after the request line but inside the bound also fails
    let mut buf = b"GET / HTTP/1.1\r\n".to_vec();
    buf.push(0xff);
    assert_eq!(parse_http_version(&buf), Err(HttpParserError::NonUtf8InHttpHeader));
}

#[test]
fn version_ignores_bytes_past_the_bound() {
    // the request line sits inside the first 1024 bytes; an invalid byte
    // after that bound is never inspected
    let mut buf = b"GET / HTTP/1.1\r\n".to_vec();
    buf.resize(1024, b'x');
    buf.push(0xff);
    assert_eq!(parse_http_version(&buf), Ok(HttpVersion::V11));
}

#[test]
fn target_with_query() {
    let r = parse_uri_data(b"GET /find?color=green HTTP/1.1\r\nHost: www.example.re").unwrap();
    assert_eq!(r.resource, b"/find".to_vec());
    assert_eq!(r.query_parameters.len(), 1);
    assert_eq!(r.query_parameters.get(b"color"), Some(&b"green".to_vec()));
}

#[test]
fn target_without_query() {
    let r = parse_uri_data(b"GET /plain HTTP/1.1\r\n").unwrap();
    assert_eq!(r.resource, b"/plain".to_vec());
    assert_eq!(r.query_parameters.len(), 0);
}

#[test]
fn target_two_token_line() {
    let r = parse_uri_data(b"GET /legacy\r\n").unwrap();
    assert_eq!(r.resource, b"/legacy".to_vec());
    assert_eq!(r.query_parameters.len(), 0);
}

#[test]
fn target_wrong_token_count() {
    assert_eq!(
        parse_uri_data(b"GETONLY\r\n").err(),
        Some(HttpParserError::WrongFormat)
    );
    assert_eq!(
        parse_uri_data(b"GET / HTTP/1.1 extra\r\n").err(),
        Some(HttpParserError::WrongFormat)
    );
}

#[test]
fn target_pair_without_equals_is_rejected() {
    assert_eq!(
        parse_uri_data(b"GET /x?a HTTP/1.1\r\n").err(),
        Some(HttpParserError::WrongFormat)
    );
    assert_eq!(
        parse_uri_data(b"GET /x?a=1&b HTTP/1.1\r\n").err(),
        Some(HttpParserError::WrongFormat)
    );
}

#[test]
fn target_invalid_utf8_is_rejected() {
    assert_eq!(
        parse_uri_data(&[0xc0, 0x20, 0x20]).err(),
        Some(HttpParserError::NonUtf8InHttpHeader)
    );
}

#[test]
fn target_duplicate_keys_last_wins() {
    let r = parse_uri_data(b"GET /x?a=1&a=2 HTTP/1.1\r\n").unwrap();
    assert_eq!(r.query_parameters.len(), 1);
    assert_eq!(r.query_parameters.get(b"a"), Some(&b"2".to_vec()));
}

#[test]
fn target_value_may_hold_equals() {
    // the pair splits on its first equals sign only
    let r = parse_uri_data(b"GET /x?a=b=c HTTP/1.1\r\n").unwrap();
    assert_eq!(r.query_parameters.get(b"a"), Some(&b"b=c".to_vec()));
}

#[test]
fn target_empty_keys_and_values() {
    let r = parse_uri_data(b"GET /x?=&k= HTTP/1.1\r\n").unwrap();
    assert_eq!(r.query_parameters.len(), 2);
    assert_eq!(r.query_parameters.get(b""), Some(&b"".to_vec()));
    assert_eq!(r.query_parameters.get(b"k"), Some(&b"".to_vec()));
}
