use balancebeam::request::{parse_request, write_to_stream};
use balancebeam::upstream::{
    active_health_check, address_at, connect_to_upstream, health_check_request,
    request_to_upstream, Chooser, ConnectStep, Probe,
};
use balancebeam::version::Version;

fn addresses(list: &[&str]) -> Vec<String> {
    list.iter().map(|s| s.to_string()).collect()
}

#[test]
fn picks_a_live_server() {
    let live = addresses(&["a", "b", "c"]);
    let mut chooser = Chooser::new();
    let mut seen = [false; 3];
    for _ in 0..200 {
        let (index, address) = chooser.pick(&live);
        assert_eq!(address, live[index]);
        seen[index] = true;
    }
    assert_eq!(seen, [true; 3]);
    assert_eq!(address_at(&live, 1), "b");
}

#[test]
fn a_connection_leaves_the_list_alone() {
    let mut live = addresses(&["a", "b"]);
    assert_eq!(connect_to_upstream(&mut live, 0, true), ConnectStep::Connected);
    assert_eq!(live, addresses(&["a", "b"]));
}

#[test]
fn failed_attempts_shrink_the_list() {
    let mut live = addresses(&["a", "b", "c"]);
    assert_eq!(connect_to_upstream(&mut live, 0, false), ConnectStep::Retry);
    assert_eq!(live, addresses(&["c", "b"]));
    assert_eq!(connect_to_upstream(&mut live, 1, false), ConnectStep::Retry);
    assert_eq!(live, addresses(&["c"]));
    assert_eq!(connect_to_upstream(&mut live, 0, false), ConnectStep::AllDead);
    assert!(live.is_empty());
}

#[test]
fn only_healthy_servers_are_live() {
    let servers = addresses(&["a", "b", "c", "d", "e", "f"]);
    let probes = vec![
        Probe::Answered(503),
        Probe::Answered(200),
        Probe::ConnectFailed,
        Probe::SendFailed,
        Probe::ReadFailed,
        Probe::Answered(200),
    ];
    assert_eq!(active_health_check(&servers, &probes), addresses(&["b", "f"]));
}

#[test]
fn rounds_without_and_with_all_servers() {
    let servers = addresses(&["a", "b"]);
    let dead = vec![Probe::Answered(201), Probe::Answered(404)];
    assert!(active_health_check(&servers, &dead).is_empty());
    let alive = vec![Probe::Answered(200), Probe::Answered(200)];
    assert_eq!(active_health_check(&servers, &alive), servers);
    assert!(active_health_check(&Vec::new(), &Vec::new()).is_empty());
}

#[test]
fn health_check_requests() {
    let request = health_check_request("/health", "10.0.0.7:80").unwrap();
    assert_eq!(request.method, "GET");
    assert_eq!(request.uri, "/health");
    assert_eq!(request.version, Version::Http11);
    let fields: Vec<(&str, &[u8])> =
        request.headers.iter().map(|(n, v)| (n.as_str(), v.as_bytes())).collect();
    assert_eq!(fields, vec![("host", &b"10.0.0.7:80"[..])]);
    assert!(request.body.is_empty());
    assert!(health_check_request("not a uri", "10.0.0.7:80").is_none());
    assert!(health_check_request("", "10.0.0.7:80").is_none());
    assert!(health_check_request("/health", "10.0.0.7\n").is_none());
    assert_eq!(request_to_upstream("/x".to_string(), "h").unwrap().uri, "/x");
    assert!(request_to_upstream("/x".to_string(), "\u{1}").is_none());
}

#[test]
fn health_check_requests_read_back() {
    let request = health_check_request("http://h?x", "10.0.0.7:80").unwrap();
    let mut bytes = Vec::new();
    write_to_stream(&request, &mut bytes);
    assert_eq!(bytes, b"GET http://h/?x HTTP/1.1\r\nhost:10.0.0.7:80\r\n\r\n".to_vec());
    let (again, len) = parse_request(&bytes).unwrap().unwrap();
    assert_eq!(len, bytes.len());
    assert_eq!(again.uri, "http://h/?x");
    assert_eq!(again.headers.get("host").unwrap().as_bytes(), b"10.0.0.7:80");
}
