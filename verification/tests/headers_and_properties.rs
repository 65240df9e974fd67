use http_parser::http::find_header_in_request_bytes;
use http_parser::http::parse_header_keys;
use http_parser::http::parse_http_version;
use http_parser::http::parse_uri_data;
use http_parser::http::HttpParserError;
use http_parser::http::HttpVersion;

#[test]
fn headers_three_fields() {
    let buf = b"POST /test HTTP/1.1\r\nHost: example.com\r\nContent-Type: application/x-www-form-urlencoded\r\nContent-Length: 27\r\n\rjob=100&priority=2";
    let h = parse_header_keys(buf).unwrap().unwrap();
    assert_eq!(h.key.len(), 3);
    assert_eq!(h.key.get(b"Host"), Some(&b"example.com".to_vec()));
    assert_eq!(
        h.key.get(b"Content-Type"),
        Some(&b"application/x-www-form-urlencoded".to_vec())
    );
    assert_eq!(h.key.get(b"Content-Length"), Some(&b"27".to_vec()));
}

#[test]
fn headers_absent() {
    // a block of only the request line holds no headers at all
    let r = parse_header_keys(b"GET / HTTP/1.1").unwrap();
    assert!(r.is_none());
}

#[test]
fn headers_value_is_trimmed() {
    let buf = b"GET / HTTP/1.1\r\nPad: \t padded value \t \r\nEnd: x\r\n\r\n";
    let h = parse_header_keys(buf).unwrap().unwrap();
    assert_eq!(h.key.get(b"Pad"), Some(&b"padded value".to_vec()));
}

#[test]
fn headers_duplicate_key_last_wins() {
    let buf = b"GET / HTTP/1.1\r\nA: one\r\nA: two\r\n\r\n";
    let h = parse_header_keys(buf).unwrap().unwrap();
    assert_eq!(h.key.len(), 1);
    assert_eq!(h.key.get(b"A"), Some(&b"two".to_vec()));
}

#[test]
fn headers_line_without_colon_is_rejected() {
    let buf = b"GET / HTTP/1.1\r\nBadHeader\r\n\r\n";
    assert_eq!(parse_header_keys(buf).err(), Some(HttpParserError::WrongFormat));
}

#[test]
fn headers_invalid_utf8_is_rejected() {
    assert_eq!(
        parse_header_keys(&[0x80, 0x81]).err(),
        Some(HttpParserError::NonUtf8InHttpHeader)
    );
}

#[test]
fn headers_key_kept_verbatim_value_after_first_colon() {
    let buf = b"GET / HTTP/1.1\r\nX-Time: 12:30:00\r\n\r\n";
    let h = parse_header_keys(buf).unwrap().unwrap();
    assert_eq!(h.key.get(b"X-Time"), Some(&b"12:30:00".to_vec()));
}

#[test]
fn header_block_extraction() {
    let buf = b"GET / HTTP/1.1\r\nHost: a\r\n\rbody";
    let block = find_header_in_request_bytes(buf, 4092).unwrap();
    assert_eq!(block, b"GET / HTTP/1.1\r\nHost: a".to_vec());
    // a smaller bound truncates what is inspected
    let short = find_header_in_request_bytes(buf, 10).unwrap();
    assert_eq!(short, b"GET / HTTP".to_vec());
}

#[test]
fn headers_ignore_bytes_past_the_bound() {
    // an invalid byte after the 4092-byte bound is never inspected
    let mut buf = b"GET / HTTP/1.1\r\nHost: a\r\n\r".to_vec();
    buf.resize(4092, b'x');
    buf.push(0xff);
    let h = parse_header_keys(&buf).unwrap().unwrap();
    assert_eq!(h.key.get(b"Host"), Some(&b"a".to_vec()));
}

#[test]
fn reparsing_gives_identical_results() {
    let buf = b"GET /find?color=green HTTP/1.1\r\nHost: www.example.re";
    assert_eq!(parse_http_version(buf), parse_http_version(buf));
    let a = parse_uri_data(buf).unwrap();
    let b = parse_uri_data(buf).unwrap();
    assert_eq!(a.resource, b.resource);
    assert_eq!(a.query_parameters.len(), b.query_parameters.len());
    assert_eq!(a.query_parameters.get(b"color"), b.query_parameters.get(b"color"));
    let h1 = parse_header_keys(buf).unwrap().unwrap();
    let h2 = parse_header_keys(buf).unwrap().unwrap();
    assert_eq!(h1.key.get(b"Host"), h2.key.get(b"Host"));
}

#[test]
fn buffer_without_terminator_is_one_request_line() {
    // shorter than the bound and no CR LF anywhere: the whole buffer is the
    // request line
    let buf = b"GET /here HTTP/1.1";
    assert_eq!(parse_http_version(buf), Ok(HttpVersion::V11));
    let u = parse_uri_data(buf).unwrap();
    assert_eq!(u.resource, b"/here".to_vec());
}

#[test]
fn query_round_trip() {
    // serialize a resource and a query map, parse it back, recover both
    let resource = b"/search".to_vec();
    let pairs: Vec<(Vec<u8>, Vec<u8>)> = vec![
        (b"color".to_vec(), b"green".to_vec()),
        (b"size".to_vec(), b"10".to_vec()),
    ];
    let mut target = resource.clone();
    target.push(b'?');
    for (i, (k, v)) in pairs.iter().enumerate() {
        if i > 0 {
            target.push(b'&');
        }
        target.extend_from_slice(k);
        target.push(b'=');
        target.extend_from_slice(v);
    }
    let mut buf = b"GET ".to_vec();
    buf.extend_from_slice(&target);
    buf.extend_from_slice(b" HTTP/1.1\r\n");
    let u = parse_uri_data(&buf).unwrap();
    assert_eq!(u.resource, resource);
    assert_eq!(u.query_parameters.len(), 2);
    assert_eq!(u.query_parameters.get(b"color"), Some(&b"green".to_vec()));
    assert_eq!(u.query_parameters.get(b"size"), Some(&b"10".to_vec()));
}
