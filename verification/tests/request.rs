use balancebeam::head::RequestHead;
use balancebeam::request::{
    after_header, build_request, extend_header_value, format_request_line, get_content_length,
    is_buildable, parse_request, read_body, read_from_stream, write_to_stream, Error, ReadState,
    ReadStep, Request, MAX_BODY_SIZE, MAX_HEADERS_SIZE,
};
use balancebeam::version::Version;

fn sample(fields: &[(&str, &str)], body: &[u8]) -> Request {
    let mut headers = http::HeaderMap::new();
    for (name, value) in fields {
        headers.append(
            http::HeaderName::from_bytes(name.as_bytes()).unwrap(),
            http::HeaderValue::from_str(value).unwrap(),
        );
    }
    Request {
        method: "POST".to_string(),
        uri: "/submit?x=1".to_string(),
        version: Version::Http11,
        headers,
        body: body.to_vec(),
    }
}

fn feed(chunks: &[&[u8]]) -> ReadStep {
    let mut state = ReadState::new();
    for (i, chunk) in chunks.iter().enumerate() {
        assert!(chunk.len() <= state.read_size());
        match read_from_stream(state, Ok(chunk.to_vec())) {
            ReadStep::Read(next) => state = next,
            step => {
                assert_eq!(i + 1, chunks.len());
                return step;
            }
        }
    }
    ReadStep::Read(state)
}

fn done(step: ReadStep) -> Request {
    match step {
        ReadStep::Done(request) => request,
        ReadStep::Failed(error) => panic!("failed: {:?}", error),
        ReadStep::Read(_) => panic!("still reading"),
        ReadStep::Unusable => panic!("unusable"),
    }
}

fn failed(step: ReadStep) -> Error {
    match step {
        ReadStep::Failed(error) => error,
        _ => panic!("did not fail"),
    }
}

#[test]
fn reads_a_request_in_one_piece() {
    let request = done(feed(&[b"GET /a HTTP/1.1\r\nHost: example.com\r\nX-A: 1\r\nX-a: 2\r\n\r\n"]));
    assert_eq!(request.method, "GET");
    assert_eq!(request.uri, "/a");
    assert_eq!(request.version, Version::Http11);
    assert_eq!(request.headers.get("host").unwrap().as_bytes(), b"example.com");
    let values: Vec<&[u8]> = request.headers.get_all("x-a").iter().map(|v| v.as_bytes()).collect();
    assert_eq!(values, vec![&b"1"[..], &b"2"[..]]);
    assert!(request.body.is_empty());
}

#[test]
fn reads_a_request_byte_by_byte() {
    let text: &[u8] = b"POST /p HTTP/1.0\r\nContent-Length: 3\r\n\r\nabc";
    let chunks: Vec<&[u8]> = text.chunks(1).collect();
    let request = done(feed(&chunks));
    assert_eq!(request.method, "POST");
    assert_eq!(request.version, Version::Http11);
    assert_eq!(request.body, b"abc");
}

#[test]
fn body_that_came_with_the_head_is_kept() {
    let request = done(feed(&[
        b"POST / HTTP/1.1\r\ncontent-length: 6\r\n\r\nab",
        b"cd",
        b"ef",
    ]));
    assert_eq!(request.body, b"abcdef");
}

#[test]
fn without_a_length_the_body_is_what_came_with_the_head() {
    let request = done(feed(&[b"GET / HTTP/1.1\r\n\r\nrest"]));
    assert_eq!(request.body, b"rest");
}

#[test]
fn surplus_that_came_with_the_head_is_a_mismatch() {
    let error = failed(feed(&[b"POST / HTTP/1.1\r\ncontent-length: 2\r\n\r\nabcd"]));
    assert!(matches!(error, Error::ContentLengthMismatch));
    let error = failed(feed(&[b"POST / HTTP/1.1\r\ncontent-length: 0\r\n\r\na"]));
    assert!(matches!(error, Error::ContentLengthMismatch));
}

#[test]
fn bodies_that_need_no_read() {
    let error = failed(read_body(sample(&[], b"abc"), 2, Ok(b"d".to_vec())));
    assert!(matches!(error, Error::ContentLengthMismatch));
    assert_eq!(done(read_body(sample(&[], b"abc"), 3, Ok(Vec::new()))).body, b"abc");
    assert_eq!(done(read_body(sample(&[], b"ab"), 3, Ok(b"c".to_vec()))).body, b"abc");
}

#[test]
fn what_follows_a_complete_head() {
    let with = |length: &str, body: &[u8]| after_header(sample(&[("content-length", length)], body));
    assert_eq!(done(with("3", b"abc")).body, b"abc");
    assert!(matches!(with("4", b"abc"), ReadStep::Read(ReadState::Body(_, 4))));
    assert!(matches!(failed(with("2", b"abc")), Error::ContentLengthMismatch));
    assert!(matches!(failed(with("x", b"abc")), Error::InvalidContentLength));
    assert!(matches!(failed(with("10001", b"abc")), Error::RequestBodyTooLarge));
    assert_eq!(done(after_header(sample(&[], b"abc"))).body, b"abc");
}

#[test]
fn too_many_body_bytes_later_are_a_mismatch() {
    let error = failed(feed(&[b"POST / HTTP/1.1\r\ncontent-length: 4\r\n\r\nab", b"cde"]));
    assert!(matches!(error, Error::ContentLengthMismatch));
}

#[test]
fn hanging_up_within_the_body_is_a_mismatch() {
    let error = failed(feed(&[b"POST / HTTP/1.1\r\ncontent-length: 4\r\n\r\nab", b""]));
    assert!(matches!(error, Error::ContentLengthMismatch));
}

#[test]
fn hanging_up_within_the_head_counts_the_bytes() {
    assert!(matches!(failed(feed(&[b""])), Error::IncompleteRequest(0)));
    assert!(matches!(failed(feed(&[b"GET /", b" HT", b""])), Error::IncompleteRequest(8)));
}

#[test]
fn a_head_without_end_fills_its_room() {
    let mut head = b"GET / HTTP/1.1\r\nx: ".to_vec();
    while head.len() < MAX_HEADERS_SIZE {
        head.push(b'a');
    }
    let state = match feed(&[&head]) {
        ReadStep::Read(state) => state,
        _ => panic!("not reading"),
    };
    assert_eq!(state.read_size(), 0);
    let error = failed(read_from_stream(state, Ok(Vec::new())));
    assert!(matches!(error, Error::IncompleteRequest(MAX_HEADERS_SIZE)));
}

#[test]
fn malformed_requests_are_refused() {
    let error = failed(feed(&[b"G@T / HTTP/1.1\r\n\r\n"]));
    assert!(matches!(error, Error::MalformedRequest(httparse::Error::Token)));
    let error = failed(feed(&[b"GET / HTTP/1.7\r\n\r\n"]));
    assert!(matches!(error, Error::MalformedRequest(httparse::Error::Version)));
}

#[test]
fn the_thirty_third_field_is_too_many() {
    let mut head = b"GET / HTTP/1.1\r\n".to_vec();
    for i in 0..32 {
        head.extend_from_slice(format!("x-{}: {}\r\n", i, i).as_bytes());
    }
    let mut more = head.clone();
    head.extend_from_slice(b"\r\n");
    assert_eq!(done(feed(&[&head])).headers.len(), 32);
    more.extend_from_slice(b"x-32: 32\r\n\r\n");
    let error = failed(feed(&[&more]));
    assert!(matches!(error, Error::MalformedRequest(httparse::Error::TooManyHeaders)));
}

#[test]
fn declared_lengths_are_checked() {
    for value in ["", "-1", "1 0", "0x10", "1e3", "+", "99999999999999999999999"] {
        let text = format!("POST / HTTP/1.1\r\ncontent-length: {}\r\n\r\n", value);
        assert!(matches!(failed(feed(&[text.as_bytes()])), Error::InvalidContentLength));
    }
    let error = failed(feed(&[b"POST / HTTP/1.1\r\ncontent-length: 1\xff\r\n\r\n"]));
    assert!(matches!(error, Error::InvalidContentLength));
    let request = done(feed(&[b"POST / HTTP/1.1\r\ncontent-length: +002\r\n\r\nab"]));
    assert_eq!(request.body, b"ab");
}

#[test]
fn large_bodies_are_refused_before_they_are_read() {
    let text = format!("POST / HTTP/1.1\r\ncontent-length: {}\r\n\r\n", MAX_BODY_SIZE + 1);
    assert!(matches!(failed(feed(&[text.as_bytes()])), Error::RequestBodyTooLarge));
    let text = format!("POST / HTTP/1.1\r\ncontent-length: {}\r\n\r\n", MAX_BODY_SIZE);
    let state = match feed(&[text.as_bytes()]) {
        ReadStep::Read(state) => state,
        _ => panic!("not reading"),
    };
    assert_eq!(state.read_size(), 512);
}

#[test]
fn small_bodies_are_read_into_small_buffers() {
    let state = match feed(&[b"POST / HTTP/1.1\r\ncontent-length: 7\r\n\r\nabc"]) {
        ReadStep::Read(state) => state,
        _ => panic!("not reading"),
    };
    assert_eq!(state.read_size(), 7);
}

#[test]
fn broken_connections_are_reported() {
    let broken = || std::io::Error::new(std::io::ErrorKind::Other, "broken");
    let error = failed(read_from_stream(ReadState::new(), Err(broken())));
    assert!(matches!(error, Error::ConnectionError(_)));
    let state = match feed(&[b"POST / HTTP/1.1\r\ncontent-length: 7\r\n\r\nabc"]) {
        ReadStep::Read(state) => state,
        _ => panic!("not reading"),
    };
    let error = failed(read_from_stream(state, Err(broken())));
    assert!(matches!(error, Error::ConnectionError(_)));
}

#[test]
fn a_target_that_is_no_uri_is_unusable() {
    assert!(!is_buildable(b"GET http:// HTTP/1.1\r\n\r\n"));
    assert!(matches!(feed(&[b"GET http:// HTTP/1.1\r\n\r\n"]), ReadStep::Unusable));
    assert!(is_buildable(b"GET / HTTP/1.1\r\n\r\n"));
    assert!(is_buildable(b"GET / HT"));
}

#[test]
fn uris_are_rewritten() {
    let request = done(feed(&[b"GET http://example.com HTTP/1.1\r\n\r\n"]));
    assert_eq!(request.uri, "http://example.com/");
    let request = done(feed(&[b"GET /a?b#c HTTP/1.1\r\n\r\n"]));
    assert_eq!(request.uri, "/a?b");
}

#[test]
fn parses_a_head() {
    let (request, len) = parse_request(b"PUT /x HTTP/1.1\r\nA: b\r\n\r\nbody").unwrap().unwrap();
    assert_eq!(len, 25);
    assert_eq!(request.method, "PUT");
    assert!(request.body.is_empty());
    assert!(parse_request(b"PUT /x HTTP/1.1\r\nA: b\r\n").unwrap().is_none());
    assert!(matches!(
        parse_request(b"PUT /x HTTP/1.1\r\nA b\r\n\r\n"),
        Err(Error::MalformedRequest(httparse::Error::HeaderName))
    ));
}

#[test]
fn builds_requests_from_heads() {
    let head = |method: &str, name: &str, value: &[u8]| RequestHead {
        method: method.to_string(),
        path: "/".to_string(),
        fields: vec![(name.to_string(), value.to_vec())],
        len: 9,
    };
    let uri = || Some("/".to_string());
    let request = build_request(head("FETCH", "Some-Name", b"v"), uri()).unwrap();
    assert_eq!(request.method, "FETCH");
    let names: Vec<&str> = request.headers.keys().map(|n| n.as_str()).collect();
    assert_eq!(names, vec!["some-name"]);
    assert!(build_request(head("FE TCH", "a", b"v"), uri()).is_none());
    assert!(build_request(head("", "a", b"v"), uri()).is_none());
    assert!(build_request(head("GET", "a:", b"v"), uri()).is_none());
    assert!(build_request(head("GET", "", b"v"), uri()).is_none());
    assert!(build_request(head("GET", "a", b"\n"), uri()).is_none());
    assert!(build_request(head("GET", "a", b"v"), None).is_none());
}

#[test]
fn content_length_of_a_request() {
    assert_eq!(get_content_length(&sample(&[], b"")).unwrap(), None);
    assert_eq!(get_content_length(&sample(&[("Content-Length", "12")], b"")).unwrap(), Some(12));
    let two = sample(&[("content-length", "1"), ("content-length", "x")], b"");
    assert_eq!(get_content_length(&two).unwrap(), Some(1));
    let bad = sample(&[("content-length", "one")], b"");
    assert!(matches!(get_content_length(&bad), Err(Error::InvalidContentLength)));
}

#[test]
fn request_line_text() {
    let mut request = sample(&[], b"");
    assert_eq!(format_request_line(&request), "POST /submit?x=1 HTTP/1.1");
    request.version = Version::H2;
    assert_eq!(format_request_line(&request), "POST /submit?x=1 HTTP/2.0");
    request.version = Version::Http10;
    assert_eq!(format_request_line(&request), "POST /submit?x=1 HTTP/1.0");
}

#[test]
fn written_request() {
    let mut stream = b"before".to_vec();
    write_to_stream(&sample(&[("Host", "a"), ("B", "2"), ("host", "c")], b"body"), &mut stream);
    assert_eq!(
        stream,
        b"beforePOST /submit?x=1 HTTP/1.1\r\nhost:a\r\nhost:c\r\nb:2\r\n\r\nbody".to_vec()
    );
    let mut stream = Vec::new();
    write_to_stream(&sample(&[], b""), &mut stream);
    assert_eq!(stream, b"POST /submit?x=1 HTTP/1.1\r\n\r\n".to_vec());
}

#[test]
fn written_requests_read_back() {
    let targets = [
        "/", "*", "/#a", "/a?b#c", "//a", "http://h", "http://h?q", "HTTP://u@h:80/x", "h:80", "a",
        "/\u{e9}{\"}?q", "a://b#c",
    ];
    for target in targets {
        let head = format!(
            "\nPURGE {} HTTP/1.0\nA: 1 \r\nb:\t\r\na:2\t3\r\nC-{}:  x y\n\n",
            target,
            "n".repeat(80)
        );
        let (mut request, len) = parse_request(head.as_bytes()).unwrap().unwrap();
        assert_eq!(len, head.len());
        for body in ["", "some body", "\r\n\r\n"] {
            request.body = body.as_bytes().to_vec();
            let mut bytes = Vec::new();
            write_to_stream(&request, &mut bytes);
            let (again, len) = parse_request(&bytes).unwrap().unwrap();
            assert_eq!(again.method, "PURGE");
            assert_eq!(again.uri, request.uri);
            assert_eq!(again.version, request.version);
            assert_eq!(
                again.headers.iter().collect::<Vec<_>>(),
                request.headers.iter().collect::<Vec<_>>()
            );
            assert_eq!(&bytes[len..], body.as_bytes());
        }
    }
}

#[test]
fn delivered_requests_read_back() {
    let request = done(feed(&[
        b"POST /p#x HTTP/1.0\r\nA: 1",
        b" \r\nContent-Length: 4\r\nb: 2\r\na: 3\r\n\r\nab",
        b"cd",
    ]));
    let mut bytes = Vec::new();
    write_to_stream(&request, &mut bytes);
    let again = done(feed(&[bytes.as_slice()]));
    assert_eq!(again.method, "POST");
    assert_eq!(again.uri, "/p");
    assert_eq!(again.version, request.version);
    assert_eq!(
        again.headers.iter().collect::<Vec<_>>(),
        request.headers.iter().collect::<Vec<_>>()
    );
    assert_eq!(again.body, b"abcd");
}

#[test]
fn what_follows_the_head_has_no_influence() {
    let head: &[u8] = b"\r\nGET /a HTTP/1.1\r\nHost: example.com\r\nx:\r\n\r\n";
    for rest in [&b""[..], b"x", b"\r\n", b"a: b\r\n\r\n", &[0xff; 100]] {
        let bytes = [head, rest].concat();
        let (request, len) = parse_request(&bytes).unwrap().unwrap();
        assert_eq!(len, head.len());
        assert_eq!(request.uri, "/a");
        assert_eq!(request.headers.len(), 2);
        assert!(request.body.is_empty());
    }
}

#[test]
fn the_head_is_the_same_however_it_is_split() {
    let text: &[u8] = b"POST /p HTTP/1.1\r\nA: 1\r\nContent-Length: 7\r\na: 2\r\n\r\nabcdefg";
    for size in 1..=text.len() {
        let chunks: Vec<&[u8]> = text.chunks(size).collect();
        let request = done(feed(&chunks));
        assert_eq!(request.uri, "/p");
        let fields: Vec<(&str, &[u8])> =
            request.headers.iter().map(|(n, v)| (n.as_str(), v.as_bytes())).collect();
        assert_eq!(
            fields,
            vec![("a", &b"1"[..]), ("a", &b"2"[..]), ("content-length", &b"7"[..])]
        );
        assert_eq!(request.body, b"abcdefg");
    }
}

#[test]
fn extending_a_header() {
    let mut request = sample(&[("a", "1"), ("c", "3")], b"x");
    extend_header_value(&mut request, "x-forwarded-for", "10.0.0.1");
    assert_eq!(request.headers.get("x-forwarded-for").unwrap().as_bytes(), b"10.0.0.1");
    extend_header_value(&mut request, "X-Forwarded-For", "10.0.0.2");
    assert_eq!(request.headers.get("x-forwarded-for").unwrap().as_bytes(), b"10.0.0.1,10.0.0.2");
    assert_eq!(request.headers.len(), 3);
    assert_eq!(request.headers.get("a").unwrap().as_bytes(), b"1");
    assert_eq!(request.headers.get("c").unwrap().as_bytes(), b"3");
    assert_eq!(request.body, b"x");
}

#[test]
fn extending_a_header_with_several_values() {
    let mut request = sample(&[("f", "1"), ("g", "2"), ("f", "3")], b"");
    extend_header_value(&mut request, "f", "4");
    let fields: Vec<(&str, &[u8])> =
        request.headers.iter().map(|(n, v)| (n.as_str(), v.as_bytes())).collect();
    assert_eq!(fields, vec![("f", &b"1,4"[..]), ("g", &b"2"[..])]);
}
