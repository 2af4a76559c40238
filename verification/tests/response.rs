use balancebeam::head::ResponseHead;
use balancebeam::response::{
    after_header, build_response, format_response_line, get_content_length, is_buildable,
    make_error_with, make_http_error, parse_response, read_body, read_from_stream,
    response_line_with, write_to_stream, write_with, Error, ReadState, ReadStep, Response,
    MAX_BODY_SIZE, MAX_HEADERS_SIZE,
};
use balancebeam::version::Version;

fn feed(method: &str, chunks: &[&[u8]]) -> ReadStep {
    let mut state = ReadState::new();
    for (i, chunk) in chunks.iter().enumerate() {
        assert!(chunk.len() <= state.read_size());
        match read_from_stream(state, &method.to_string(), Ok(chunk.to_vec())) {
            ReadStep::Read(next) => state = next,
            step => {
                assert_eq!(i + 1, chunks.len());
                return step;
            }
        }
    }
    ReadStep::Read(state)
}

fn done(step: ReadStep) -> Response {
    match step {
        ReadStep::Done(response) => response,
        ReadStep::Failed(error) => panic!("failed: {:?}", error),
        ReadStep::Read(_) => panic!("still reading"),
        ReadStep::Unusable => panic!("unusable"),
    }
}

fn failed(step: ReadStep) -> Error {
    match step {
        ReadStep::Failed(error) => error,
        _ => panic!("did not fail"),
    }
}

fn bare(status: u16, body: &[u8]) -> Response {
    Response {
        version: Version::Http11,
        status,
        headers: http::HeaderMap::new(),
        body: body.to_vec(),
    }
}

#[test]
fn response_with_a_declared_length() {
    let response = done(feed(
        "GET",
        &[b"HTTP/1.1 200 OK\r\nContent-Le", b"ngth: 5\r\n\r\nab", b"c", b"de"],
    ));
    assert_eq!(response.status, 200);
    assert_eq!(response.version, Version::Http11);
    assert_eq!(response.headers.get("content-length").unwrap().as_bytes(), b"5");
    assert_eq!(response.body, b"abcde");
}

#[test]
fn response_until_the_server_hangs_up() {
    let response = done(feed("GET", &[b"HTTP/1.1 404 Not Found\r\n\r\n", b"ab", b"cd", b""]));
    assert_eq!(response.status, 404);
    assert_eq!(response.body, b"abcd");
}

#[test]
fn empty_declared_body() {
    let response = done(feed("GET", &[b"HTTP/1.1 200 OK\r\nContent-Length: 0\r\n\r\n"]));
    assert!(response.body.is_empty());
}

#[test]
fn responses_without_a_body() {
    let head: &[u8] = b"HTTP/1.1 200 OK\r\nContent-Length: 5\r\n\r\n";
    assert!(done(feed("HEAD", &[head])).body.is_empty());
    assert!(matches!(feed("GET", &[head]), ReadStep::Read(_)));
    assert!(matches!(feed("head", &[head]), ReadStep::Read(_)));
    for status in ["100", "199", "204", "304"] {
        let text = format!("HTTP/1.1 {} X\r\nContent-Length: nonsense\r\n\r\n", status);
        assert!(done(feed("GET", &[text.as_bytes()])).body.is_empty());
    }
    for status in ["200", "205", "303", "999"] {
        let text = format!("HTTP/1.1 {} X\r\n\r\n", status);
        assert!(matches!(feed("GET", &[text.as_bytes()]), ReadStep::Read(_)));
    }
}

#[test]
fn surplus_behind_a_response_head_is_a_mismatch() {
    let error = failed(feed("GET", &[b"HTTP/1.1 200 OK\r\nContent-Length: 2\r\n\r\nabcd"]));
    assert!(matches!(error, Error::ContentLengthMismatch));
    let error = failed(read_body(bare(200, b"abc"), Some(2), Ok(b"d".to_vec())));
    assert!(matches!(error, Error::ContentLengthMismatch));
    let step = read_body(bare(200, b"abc"), Some(3), Ok(Vec::new()));
    assert_eq!(done(step).body, b"abc");
}

#[test]
fn what_follows_a_complete_response_head() {
    let with = |method: &str, status: u16, length: &'static str, body: &[u8]| {
        let mut response = bare(status, body);
        response.headers.append("content-length", http::HeaderValue::from_static(length));
        after_header(&method.to_string(), response)
    };
    assert_eq!(done(with("GET", 200, "3", b"abc")).body, b"abc");
    assert!(matches!(with("GET", 200, "4", b"abc"), ReadStep::Read(ReadState::Body(_, Some(4)))));
    assert!(matches!(failed(with("GET", 200, "2", b"abc")), Error::ContentLengthMismatch));
    assert!(matches!(failed(with("GET", 200, "x", b"abc")), Error::InvalidContentLength));
    assert_eq!(done(with("HEAD", 200, "2", b"abc")).body, b"abc");
    assert_eq!(done(with("GET", 304, "x", b"abc")).body, b"abc");
    let step = after_header(&"GET".to_string(), bare(200, b"abc"));
    assert!(matches!(step, ReadStep::Read(ReadState::Body(_, None))));
}

#[test]
fn what_follows_a_response_head_has_no_influence() {
    let head: &[u8] = b"HTTP/1.1 200\r\nA: 1\r\n\r\n";
    for rest in [&b""[..], b"x", b"\r\n", b"a: b\r\n\r\n", &[0xff; 100]] {
        let bytes = [head, rest].concat();
        let (response, len) = parse_response(&bytes).unwrap().unwrap();
        assert_eq!(len, head.len());
        assert_eq!(response.headers.len(), 1);
    }
}

#[test]
fn a_response_is_the_same_however_it_is_split() {
    let text: &[u8] = b"HTTP/1.1 200 OK\r\nA: 1\r\nContent-Length: 7\r\n\r\nabcdefg";
    for size in 1..=text.len() {
        let chunks: Vec<&[u8]> = text.chunks(size).collect();
        let response = done(feed("GET", &chunks));
        assert_eq!(response.headers.len(), 2);
        assert_eq!(response.body, b"abcdefg");
    }
}

#[test]
fn texts_with_a_given_reason() {
    assert_eq!(response_line_with(&bare(200, b""), "Fine"), "HTTP/1.1 ,200 Fine");
    let mut stream = b"-".to_vec();
    write_with(&bare(200, b"x"), "Fine", &mut stream);
    assert_eq!(stream, b"-HTTP/1.1 ,200 Fine\r\n\r\nx".to_vec());
    let response = make_error_with(500, "Oh no");
    assert_eq!(response.status, 500);
    assert_eq!(response.body, b"HTTP 500, Oh no");
    assert_eq!(get_content_length(&response).unwrap(), Some(15));
    assert_eq!(response.headers.get("content-type").unwrap().as_bytes(), b"test/plain");
}

#[test]
fn mismatching_lengths() {
    let head: &[u8] = b"HTTP/1.1 200 OK\r\nContent-Length: 4\r\n\r\nab";
    assert!(matches!(failed(feed("GET", &[head, b"cde"])), Error::ContentLengthMismatch));
    assert!(matches!(failed(feed("GET", &[head, b""])), Error::ContentLengthMismatch));
}

#[test]
fn invalid_lengths() {
    let error = failed(feed("GET", &[b"HTTP/1.1 200 OK\r\nContent-Length: four\r\n\r\n"]));
    assert!(matches!(error, Error::InvalidContentLength));
}

#[test]
fn incomplete_and_malformed_responses() {
    assert!(matches!(failed(feed("GET", &[b""])), Error::IncompleteResponse));
    assert!(matches!(failed(feed("GET", &[b"HTTP/1.1 20", b""])), Error::IncompleteResponse));
    let error = failed(feed("GET", &[b"HTTP/1.1 2x0 OK\r\n\r\n"]));
    assert!(matches!(error, Error::MalformeResponse(httparse::Error::Status)));
    let error = failed(feed("GET", &[b"JUNK/1.1 200 OK\r\n\r\n"]));
    assert!(matches!(error, Error::MalformeResponse(httparse::Error::Version)));
}

#[test]
fn broken_connection() {
    let broken = || std::io::Error::new(std::io::ErrorKind::Other, "broken");
    let step = read_from_stream(ReadState::new(), &"GET".to_string(), Err(broken()));
    assert!(matches!(failed(step), Error::ConnectionError(_)));
    let step = read_body(bare(200, b""), None, Err(broken()));
    assert!(matches!(failed(step), Error::ConnectionError(_)));
}

#[test]
fn large_bodies() {
    let full = vec![7u8; MAX_BODY_SIZE - 1];
    let step = read_body(bare(200, &full), None, Ok(vec![1, 2]));
    assert!(matches!(failed(step), Error::ResponseBodyTooLarge));
    let step = read_body(bare(200, &full), Some(MAX_BODY_SIZE + 5), Ok(vec![1, 2]));
    assert!(matches!(failed(step), Error::ResponseBodyTooLarge));
    let step = read_body(bare(200, &full), Some(MAX_BODY_SIZE), Ok(vec![1, 2]));
    assert!(matches!(failed(step), Error::ContentLengthMismatch));
    let step = read_body(bare(200, &full), Some(MAX_BODY_SIZE), Ok(vec![1]));
    assert_eq!(done(step).body.len(), MAX_BODY_SIZE);
    match read_body(bare(200, &full), None, Ok(vec![1])) {
        ReadStep::Read(ReadState::Body(response, None)) => {
            assert_eq!(response.body.len(), MAX_BODY_SIZE)
        }
        _ => panic!("not reading"),
    }
}

#[test]
fn a_response_head_without_end_fills_its_room() {
    let mut head = b"HTTP/1.1 200 OK\r\nx: ".to_vec();
    while head.len() < MAX_HEADERS_SIZE {
        head.push(b'y');
    }
    match feed("GET", &[head.as_slice()]) {
        ReadStep::Read(state) => {
            assert_eq!(state.read_size(), 0);
            let step = read_from_stream(state, &"GET".to_string(), Ok(Vec::new()));
            assert!(matches!(failed(step), Error::IncompleteResponse));
        }
        _ => panic!("not reading"),
    }
}

#[test]
fn sizes_of_reads() {
    let state = ReadState::new();
    assert_eq!(state.read_size(), MAX_HEADERS_SIZE);
    match feed("GET", &[b"HTTP/1.1"]) {
        ReadStep::Read(state) => assert_eq!(state.read_size(), MAX_HEADERS_SIZE - 8),
        _ => panic!("not reading"),
    }
    match feed("GET", &[b"HTTP/1.1 200 OK\r\nContent-Length: 3\r\n\r\n"]) {
        ReadStep::Read(state) => assert_eq!(state.read_size(), 512),
        _ => panic!("not reading"),
    }
}

#[test]
fn codes_that_are_no_status_are_unusable() {
    assert!(!is_buildable(b"HTTP/1.1 099 X\r\n\r\n"));
    assert!(is_buildable(b"HTTP/1.1 100 X\r\n\r\n"));
    assert!(matches!(feed("GET", &[b"HTTP/1.1 000 X\r\n\r\n"]), ReadStep::Unusable));
}

#[test]
fn parses_a_response_head() {
    let (response, len) = parse_response(b"HTTP/1.0 201 X\r\nA: b\r\n\r\nbody").unwrap().unwrap();
    assert_eq!(len, 24);
    assert_eq!(response.status, 201);
    assert_eq!(response.version, Version::Http11);
    assert!(response.body.is_empty());
    assert!(parse_response(b"HTTP/1.0 201 X\r\n").unwrap().is_none());
}

#[test]
fn builds_responses_from_heads() {
    let head = |code: u16, name: &str| ResponseHead {
        code,
        fields: vec![(name.to_string(), b"v".to_vec())],
        len: 9,
    };
    assert_eq!(build_response(head(100, "a")).unwrap().status, 100);
    assert_eq!(build_response(head(999, "a")).unwrap().headers.len(), 1);
    assert!(build_response(head(99, "a")).is_none());
    assert!(build_response(head(1000, "a")).is_none());
    assert!(build_response(head(200, "a b")).is_none());
}

#[test]
fn response_line_text() {
    assert_eq!(format_response_line(&bare(200, b"")), "HTTP/1.1 ,200 OK");
    assert_eq!(format_response_line(&bare(404, b"")), "HTTP/1.1 ,404 Not Found");
    assert_eq!(format_response_line(&bare(799, b"")), "HTTP/1.1 ,799 ");
}

#[test]
fn written_response() {
    let mut response = bare(204, b"xyz");
    response.headers.append("B", http::HeaderValue::from_static("2"));
    response.headers.append("a", http::HeaderValue::from_static("1"));
    response.headers.append("b", http::HeaderValue::from_static("3"));
    let mut stream = b"-".to_vec();
    write_to_stream(&response, &mut stream);
    assert_eq!(
        stream,
        b"-HTTP/1.1 ,204 No Content\r\nb:2\r\nb:3\r\na:1\r\n\r\nxyz".to_vec()
    );
}

#[test]
fn error_responses() {
    let response = make_http_error(429);
    assert_eq!(response.status, 429);
    assert_eq!(response.version, Version::Http11);
    assert_eq!(response.body, b"HTTP 429, Too Many Requests");
    let fields: Vec<(&str, &[u8])> =
        response.headers.iter().map(|(n, v)| (n.as_str(), v.as_bytes())).collect();
    assert_eq!(fields, vec![("content-type", &b"test/plain"[..]), ("content-length", &b"27"[..])]);
    assert_eq!(make_http_error(502).body, b"HTTP 502, Bad Gateway");
    assert_eq!(make_http_error(599).body, b"HTTP 599, ");
}

#[test]
fn error_responses_declare_their_length() {
    for status in [100, 400, 413, 429, 502, 503, 999] {
        let response = make_http_error(status);
        assert_eq!(get_content_length(&response).unwrap(), Some(response.body.len()));
    }
}
