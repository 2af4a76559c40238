use balancebeam::proxy::{
    check_rate, handle_connection, rate_limiting_counter_clearer, status_for, Action, Event,
    ProxyState,
};
use balancebeam::request::{self, Request};
use balancebeam::response::{self, make_http_error, Response};
use balancebeam::version::Version;
use balancebeam::CmdOptions;

fn state(max: usize) -> ProxyState {
    ProxyState::new(CmdOptions {
        bind: "0.0.0.0:1100".to_string(),
        upstream: vec!["a:80".to_string(), "b:80".to_string()],
        active_health_check_interval: 10,
        active_health_check_path: "/".to_string(),
        max_requests_per_minute: max,
    })
}

fn sample() -> Request {
    Request {
        method: "GET".to_string(),
        uri: "/".to_string(),
        version: Version::Http11,
        headers: http::HeaderMap::new(),
        body: Vec::new(),
    }
}

fn step(state: &mut ProxyState, client: &str, event: Event) -> Action {
    let max = state.max_requests_per_minutes;
    handle_connection(event, &mut state.rate_limiting_counter, max, client)
}

fn is_forwarded(action: &Action) -> bool {
    matches!(action, Action::Forward(_))
}

fn replied(action: Action) -> Response {
    match action {
        Action::Reply(response) => response,
        _ => panic!("no reply"),
    }
}

fn closed_with(action: Action) -> Response {
    match action {
        Action::ReplyAndClose(response) => response,
        _ => panic!("no reply before the end"),
    }
}

#[test]
fn state_at_the_start() {
    let state = state(3);
    assert_eq!(state.upstream_addresses, vec!["a:80", "b:80"]);
    assert_eq!(state.live_upstream_addresses, state.upstream_addresses);
    assert_eq!(state.max_requests_per_minutes, 3);
    assert_eq!(state.active_health_check_interval, 10);
    assert_eq!(state.active_health_check_path, "/");
    assert!(state.rate_limiting_counter.is_empty());
}

#[test]
fn requests_beyond_the_limit_are_refused() {
    let mut state = state(2);
    for _ in 0..2 {
        assert!(is_forwarded(&step(&mut state, "1.1.1.1", Event::RequestRead(Ok(sample())))));
    }
    for _ in 0..3 {
        let action = step(&mut state, "1.1.1.1", Event::RequestRead(Ok(sample())));
        let refusal = replied(action);
        assert_eq!(refusal.status, 429);
        assert_eq!(refusal.body, make_http_error(429).body);
    }
    assert!(is_forwarded(&step(&mut state, "2.2.2.2", Event::RequestRead(Ok(sample())))));
    rate_limiting_counter_clearer(&mut state.rate_limiting_counter);
    assert!(is_forwarded(&step(&mut state, "1.1.1.1", Event::RequestRead(Ok(sample())))));
}

#[test]
fn the_counter_counts_each_client() {
    let mut state = state(2);
    let counter = &mut state.rate_limiting_counter;
    for client in ["a", "b", "a", "a"] {
        let _ = check_rate(counter, 2, client);
    }
    assert_eq!(counter.get("a"), Some(&3));
    assert_eq!(counter.get("b"), Some(&1));
    assert_eq!(counter.get("c"), None);
    assert!(check_rate(counter, 2, "b").is_ok());
    assert_eq!(check_rate(counter, 2, "b").err().unwrap().status, 429);
}

#[test]
fn a_full_count_stays() {
    let mut state = state(0);
    let counter = &mut state.rate_limiting_counter;
    counter.insert("a".to_string(), usize::MAX);
    assert!(check_rate(counter, usize::MAX, "a").is_ok());
    assert_eq!(counter.get("a"), Some(&usize::MAX));
}

#[test]
fn without_a_limit_nothing_is_counted() {
    let mut state = state(0);
    for _ in 0..5 {
        assert!(is_forwarded(&step(&mut state, "1.1.1.1", Event::RequestRead(Ok(sample())))));
    }
    assert!(state.rate_limiting_counter.is_empty());
}

#[test]
fn forwarded_requests_name_the_client() {
    let mut state = state(0);
    let mut request = sample();
    request.headers.append("x-forwarded-for", http::HeaderValue::from_static("9.9.9.9"));
    request.headers.append("accept", http::HeaderValue::from_static("*/*"));
    request.body = b"body".to_vec();
    match step(&mut state, "1.1.1.1", Event::RequestRead(Ok(request))) {
        Action::Forward(request) => {
            let fields: Vec<(&str, &[u8])> =
                request.headers.iter().map(|(n, v)| (n.as_str(), v.as_bytes())).collect();
            assert_eq!(
                fields,
                vec![("x-forwarded-for", &b"9.9.9.9,1.1.1.1"[..]), ("accept", &b"*/*"[..])]
            );
            assert_eq!(request.body, b"body");
            assert_eq!(request.method, "GET");
        }
        _ => panic!("not forwarded"),
    }
}

#[test]
fn forwarded_requests_read_back() {
    let mut state = state(0);
    let head: &[u8] = b"GET /a HTTP/1.1\r\nX-Forwarded-For: 9.9.9.9\r\nb: c\r\n\r\n";
    let (request, _) = request::parse_request(head).unwrap().unwrap();
    let request = match step(&mut state, "1.1.1.1", Event::RequestRead(Ok(request))) {
        Action::Forward(request) => request,
        _ => panic!("not forwarded"),
    };
    let mut bytes = Vec::new();
    request::write_to_stream(&request, &mut bytes);
    let (again, len) = request::parse_request(&bytes).unwrap().unwrap();
    assert_eq!(len, bytes.len());
    assert_eq!(again.headers.get("x-forwarded-for").unwrap().as_bytes(), b"9.9.9.9,1.1.1.1");
    assert_eq!(again.headers.get("b").unwrap().as_bytes(), b"c");
}

#[test]
fn unreadable_requests_are_answered() {
    let mut state = state(1);
    let mut answer = |error| {
        replied(step(&mut state, "1.1.1.1", Event::RequestRead(Err(error)))).status
    };
    assert_eq!(answer(request::Error::IncompleteRequest(5)), 400);
    assert_eq!(answer(request::Error::MalformedRequest(httparse::Error::Token)), 400);
    assert_eq!(answer(request::Error::InvalidContentLength), 400);
    assert_eq!(answer(request::Error::ContentLengthMismatch), 400);
    assert_eq!(answer(request::Error::RequestBodyTooLarge), 413);
    assert!(state.rate_limiting_counter.is_empty());
}

#[test]
fn clients_that_are_gone_are_not_answered() {
    let mut state = state(1);
    let broken = || std::io::Error::new(std::io::ErrorKind::Other, "broken");
    let event = Event::RequestRead(Err(request::Error::IncompleteRequest(0)));
    assert!(matches!(step(&mut state, "1.1.1.1", event), Action::Close));
    let event = Event::RequestRead(Err(request::Error::ConnectionError(broken())));
    assert!(matches!(step(&mut state, "1.1.1.1", event), Action::Close));
    assert_eq!(status_for(&request::Error::ConnectionError(broken())), 503);
}

#[test]
fn the_course_of_a_connection() {
    let mut state = state(1);
    assert!(matches!(step(&mut state, "1.1.1.1", Event::Connected), Action::ReadRequest));
    let mut request = sample();
    request.method = "HEAD".to_string();
    let request = match step(&mut state, "1.1.1.1", Event::RequestRead(Ok(request))) {
        Action::Forward(request) => request,
        _ => panic!("not forwarded"),
    };
    match step(&mut state, "1.1.1.1", Event::Forwarded(request)) {
        Action::ReadResponse(method) => assert_eq!(method, "HEAD"),
        _ => panic!("no response is read"),
    }
    let response = make_http_error(418);
    let reply = replied(step(&mut state, "1.1.1.1", Event::ResponseRead(Ok(response))));
    assert_eq!(reply.status, 418);
}

#[test]
fn readings_are_answered_in_order() {
    let mut state = state(2);
    let mut readings = vec![
        Ok("/1"),
        Err(request::Error::RequestBodyTooLarge),
        Ok("/2"),
        Ok("/3"),
        Err(request::Error::IncompleteRequest(0)),
    ];
    readings.reverse();
    let mut forwarded = Vec::new();
    let mut answers = Vec::new();
    let mut event = Event::Connected;
    loop {
        let action = step(&mut state, "1.1.1.1", event);
        if let Action::Reply(response) = &action {
            answers.push(response.status);
        }
        event = match action {
            Action::ReadRequest | Action::Reply(_) => {
                Event::RequestRead(readings.pop().unwrap().map(|uri| {
                    let mut request = sample();
                    request.uri = uri.to_string();
                    request
                }))
            }
            Action::Forward(request) => {
                forwarded.push(request.uri.clone());
                Event::Forwarded(request)
            }
            Action::ReadResponse(_) => {
                Event::ResponseRead(Ok(make_http_error(200 + forwarded.len() as u16)))
            }
            Action::ReplyAndClose(_) => panic!("the upstream server did not fail"),
            Action::Close => break,
        };
    }
    assert!(readings.is_empty());
    assert_eq!(forwarded, vec!["/1", "/2"]);
    assert_eq!(answers, vec![201, 413, 202, 429]);
}

#[test]
fn upstream_failures_end_the_connection() {
    let mut state = state(1);
    for event in [
        Event::AllDead,
        Event::ForwardFailed,
        Event::ResponseRead(Err(response::Error::IncompleteResponse)),
        Event::ResponseRead(Err(response::Error::ResponseBodyTooLarge)),
    ] {
        let reply = closed_with(step(&mut state, "1.1.1.1", event));
        assert_eq!(reply.status, 502);
        assert_eq!(reply.body, b"HTTP 502, Bad Gateway");
    }
}
