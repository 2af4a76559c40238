//! The upstream servers: which of them are alive, and which of them to connect to.

use crate::head::{is_target, parse_uri, uri_text, MAX_URI_LEN};
use crate::headers::{
    append_field, header_fields, is_header_name, is_header_value, is_trimmed, lemma_names_bound,
    lower, new_headers,
};
use crate::request::{is_readable, Request, RequestModel};
use crate::version::Version;
use rand::{Rng, SeedableRng};
use vstd::multiset::*;
use vstd::prelude::*;
use vstd::seq_lib::*;
use vstd::string::*;
use vstd::utf8::*;

verus! {

/// The texts of a list of strings.
pub open spec fn texts(strings: Seq<String>) -> Seq<Seq<char>> {
    strings.map_values(|s: String| s@)
}

/// The random number generator of the `rand` crate.
#[verifier::external_type_specification]
#[verifier::external_body]
pub struct ExStdRng(rand::rngs::StdRng);

/// `rand::SeedableRng::from_entropy`: a generator with a seed from the operating system.
/// Nothing is claimed of its numbers. Without a source of entropy the call panics.
#[verifier::external_body]
pub(crate) fn new_rng() -> rand::rngs::StdRng {
    rand::rngs::StdRng::from_entropy()
}

/// `rand::Rng::gen_range`: some number below `len`.
#[verifier::external_body]
pub(crate) fn random_below(rng: &mut rand::rngs::StdRng, len: usize) -> (number: usize)
    requires
        len > 0,
    ensures
        number < len,
{
    rng.gen_range(0..len)
}

/// Chooses upstream servers at random.
pub struct Chooser {
    rng: rand::rngs::StdRng,
}

impl Chooser {
    /// A chooser with a fresh seed.
    pub fn new() -> Chooser {
        Chooser { rng: new_rng() }
    }

    /// Chooses one of the live upstream servers: gives its position and its address.
    pub fn pick(&mut self, live_upstream_addresses: &Vec<String>) -> (chosen: (usize, String))
        requires
            live_upstream_addresses@.len() > 0,
        ensures
            chosen.0 < live_upstream_addresses@.len(),
            chosen.1@ == live_upstream_addresses@[chosen.0 as int]@,
    {
        let index: usize = random_below(&mut self.rng, live_upstream_addresses.len());
        (index, address_at(live_upstream_addresses, index))
    }
}

/// The address at a position of the list of live upstream servers.
pub fn address_at(live_upstream_addresses: &Vec<String>, index: usize) -> (address: String)
    requires
        index < live_upstream_addresses@.len(),
    ensures
        address@ == live_upstream_addresses@[index as int]@,
{
    live_upstream_addresses[index].clone()
}

/// What an attempt to connect to an upstream server leads to.
#[derive(Clone, Copy, Debug, PartialEq, Eq, Structural)]
pub enum ConnectStep {
    /// The connection stands.
    Connected,
    /// Another upstream server is to be tried.
    Retry,
    /// No upstream server is left.
    AllDead,
}

/// A list without the item at `index`: the last item takes its place.
pub open spec fn removed<A>(list: Seq<A>, index: int) -> Seq<A> {
    list.update(index, list.last()).drop_last()
}

/// Takes in the outcome of an attempt to connect to the upstream server at position `index`.
/// After a failure that server no longer counts as alive.
pub fn connect_to_upstream(
    live_upstream_addresses: &mut Vec<String>,
    index: usize,
    connected: bool,
) -> (step: ConnectStep)
    requires
        index < old(live_upstream_addresses)@.len(),
    ensures
        connected ==> step == ConnectStep::Connected && final(live_upstream_addresses)@ == old(
            live_upstream_addresses,
        )@,
        !connected ==> final(live_upstream_addresses)@ == removed(
            old(live_upstream_addresses)@,
            index as int,
        ) && step == if final(live_upstream_addresses)@.len() == 0 {
            ConnectStep::AllDead
        } else {
            ConnectStep::Retry
        },
{
    if connected {
        return ConnectStep::Connected;
    }
    live_upstream_addresses.swap_remove(index);
    if live_upstream_addresses.len() == 0 {
        ConnectStep::AllDead
    } else {
        ConnectStep::Retry
    }
}

/// A failed attempt takes exactly one server off the list: the one that was tried.
pub proof fn law_failed_attempt<A>(list: Seq<A>, index: int)
    requires
        0 <= index < list.len(),
    ensures
        removed(list, index).to_multiset() == list.to_multiset().remove(list[index]),
        removed(list, index).len() == list.len() - 1,
{
    broadcast use group_to_multiset_ensures;

    let swapped = list.update(index, list.last());
    to_multiset_update(list, index, list.last());
    to_multiset_remove(swapped, swapped.len() - 1);
    assert(swapped.remove(swapped.len() - 1) =~= swapped.drop_last());
    let all = list.to_multiset();
    assert(list.contains(list[index]));
    assert(swapped[swapped.len() - 1] == list.last());
    assert(removed(list, index).to_multiset() =~= all.remove(list[index]));
}

/// The servers that are left after failed attempts at these positions.
pub open spec fn survivors<A>(list: Seq<A>, attempts: Seq<int>) -> Seq<A>
    decreases attempts.len(),
{
    if attempts.len() == 0 {
        list
    } else {
        removed(survivors(list, attempts.drop_last()), attempts.last())
    }
}

/// Whether each of these attempts was at a server that was still on the list.
pub open spec fn are_attempts<A>(list: Seq<A>, attempts: Seq<int>) -> bool
    decreases attempts.len(),
{
    attempts.len() > 0 ==> are_attempts(list, attempts.drop_last()) && 0 <= attempts.last()
        < survivors(list, attempts.drop_last()).len()
}

/// There are never more failed attempts than servers: whatever servers are chosen, after as
/// many failures as there were servers none is left. Those that are left were there before.
pub proof fn law_attempts_end<A>(list: Seq<A>, attempts: Seq<int>)
    requires
        are_attempts(list, attempts),
    ensures
        attempts.len() <= list.len(),
        survivors(list, attempts).len() == list.len() - attempts.len(),
        survivors(list, attempts).to_multiset().subset_of(list.to_multiset()),
    decreases attempts.len(),
{
    if attempts.len() > 0 {
        law_attempts_end(list, attempts.drop_last());
        law_failed_attempt(survivors(list, attempts.drop_last()), attempts.last());
    }
}

/// What a health check of one upstream server came to.
#[derive(Clone, Copy, Debug, PartialEq, Eq, Structural)]
pub enum Probe {
    /// No connection could be made.
    ConnectFailed,
    /// The request could not be sent.
    SendFailed,
    /// No response could be read.
    ReadFailed,
    /// The server answered with this status code.
    Answered(u16),
}

/// A server is healthy when it answers with status 200.
pub open spec fn is_healthy(probe: Probe) -> bool {
    probe == Probe::Answered(200)
}

/// The servers that count as alive after a round of health checks, one per server: those that
/// were found healthy, in their order.
pub open spec fn live_after<A>(servers: Seq<A>, probes: Seq<Probe>) -> Seq<A>
    decreases probes.len(),
{
    if probes.len() == 0 {
        Seq::empty()
    } else {
        let before = live_after(servers, probes.drop_last());
        if is_healthy(probes.last()) {
            before.push(servers[probes.len() - 1])
        } else {
            before
        }
    }
}

/// Takes in a round of health checks, one of each upstream server, and gives the servers that
/// count as alive from then on.
pub fn active_health_check(upstream_addresses: &Vec<String>, probes: &Vec<Probe>) -> (live: Vec<
    String,
>)
    requires
        probes@.len() == upstream_addresses@.len(),
    ensures
        texts(live@) == live_after(texts(upstream_addresses@), probes@),
{
    let mut live: Vec<String> = Vec::new();
    let ghost servers = texts(upstream_addresses@);
    let mut i: usize = 0;
    assert(probes@.take(0) =~= Seq::<Probe>::empty());
    assert(texts(live@) =~= Seq::<Seq<char>>::empty());
    while i < probes.len()
        invariant
            0 <= i <= probes.len(),
            probes@.len() == upstream_addresses@.len(),
            servers == texts(upstream_addresses@),
            texts(live@) == live_after(servers, probes@.take(i as int)),
        decreases probes.len() - i,
    {
        let ghost longer = probes@.take(i + 1);
        let ghost before = live@;
        assert(longer.drop_last() =~= probes@.take(i as int));
        if let Probe::Answered(status) = probes[i] {
            if status == 200 {
                live.push(upstream_addresses[i].clone());
                assert(texts(live@) =~= texts(before).push(servers[i as int]));
            }
        }
        i = i + 1;
    }
    assert(probes@.take(i as int) =~= probes@);
    live
}

/// A server counts as alive after a round exactly when it was found healthy in that round:
/// what it was before does not matter, nor how the checks of other servers came out.
pub proof fn law_live_iff_healthy<A>(servers: Seq<A>, probes: Seq<Probe>, server: A)
    requires
        probes.len() <= servers.len(),
    ensures
        live_after(servers, probes).contains(server) <==> exists|i: int|
            0 <= i < probes.len() && servers[i] == server && is_healthy(#[trigger] probes[i]),
    decreases probes.len(),
{
    if probes.len() > 0 {
        let front = probes.drop_last();
        let before = live_after(servers, front);
        let live = live_after(servers, probes);
        law_live_iff_healthy(servers, front, server);
        if before.contains(server) {
            let j = choose|j: int| 0 <= j < before.len() && before[j] == server;
            assert(live[j] == server);
            let i = choose|i: int|
                0 <= i < front.len() && servers[i] == server && is_healthy(#[trigger] front[i]);
            assert(is_healthy(probes[i]));
        }
        if live.contains(server) && !before.contains(server) {
            let j = choose|j: int| 0 <= j < live.len() && live[j] == server;
            if j < before.len() {
                assert(before[j] == server);
            }
            assert(is_healthy(probes[probes.len() - 1]));
        }
        if exists|i: int|
            0 <= i < probes.len() && servers[i] == server && is_healthy(#[trigger] probes[i]) {
            let i = choose|i: int|
                0 <= i < probes.len() && servers[i] == server && is_healthy(#[trigger] probes[i]);
            if i < front.len() {
                assert(is_healthy(front[i]));
            } else {
                assert(live[live.len() - 1] == server);
            }
        }
    }
}

/// Whether `part` is made of items of `list`, in the order in which they stand there: `at` holds
/// the position of each.
pub open spec fn is_taken_from<A>(part: Seq<A>, list: Seq<A>, at: Seq<int>) -> bool {
    &&& at.len() == part.len()
    &&& forall|i: int| 0 <= i < at.len() ==> 0 <= #[trigger] at[i] < list.len()
    &&& forall|i: int| 0 <= i < at.len() ==> part[i] == list[#[trigger] at[i]]
    &&& forall|i: int, j: int| 0 <= i < j < at.len() ==> #[trigger] at[i] < #[trigger] at[j]
}

/// The positions of the servers that were found healthy.
pub open spec fn healthy_positions(probes: Seq<Probe>) -> Seq<int>
    decreases probes.len(),
{
    if probes.len() == 0 {
        Seq::empty()
    } else if is_healthy(probes.last()) {
        healthy_positions(probes.drop_last()).push(probes.len() - 1)
    } else {
        healthy_positions(probes.drop_last())
    }
}

/// After a round the list of live servers is a subsequence of the configured one: nothing comes
/// in from outside, and the order is kept.
pub proof fn law_live_subsequence<A>(servers: Seq<A>, probes: Seq<Probe>)
    requires
        probes.len() <= servers.len(),
    ensures
        is_taken_from(live_after(servers, probes), servers, healthy_positions(probes)),
        forall|i: int|
            0 <= i < healthy_positions(probes).len() ==> #[trigger] healthy_positions(probes)[i]
                < probes.len(),
    decreases probes.len(),
{
    if probes.len() > 0 {
        law_live_subsequence(servers, probes.drop_last());
    }
}

/// The request that a health check sends: a GET with the server's address as its host.
pub open spec fn health_request(uri: Seq<char>, upstream: Seq<char>) -> RequestModel {
    RequestModel {
        method: "GET"@,
        uri,
        version: Version::Http11,
        fields: seq![("host"@, encode_utf8(upstream))],
        body: Seq::empty(),
    }
}

/// The request that a health check sends is one that the upstream server can read back.
pub proof fn law_health_request_readable(uri: Seq<char>, upstream: Seq<char>)
    requires
        is_target(uri),
        uri_text(uri) == Some(uri),
        is_header_value(encode_utf8(upstream)),
        is_trimmed(encode_utf8(upstream)),
    ensures
        is_readable(health_request(uri, upstream)),
{
    reveal_strlit("GET");
    reveal_strlit("host");
    assert(lower("host"@) =~= "host"@);
}

/// `Host` is a header name.
proof fn lemma_host_name()
    ensures
        is_header_name("Host"@),
        lower("Host"@) == "host"@,
{
    reveal_strlit("Host");
    reveal_strlit("host");
    assert(lower("Host"@) =~= "host"@);
}

/// Builds the request for a health check. There is none where the path is no URI, or the
/// address cannot stand in a header. An upstream server can read it back.
pub fn health_check_request(active_health_check_path: &str, upstream_ip: &str) -> (request: Option<
    Request,
>)
    ensures
        request is Some <==> uri_text(active_health_check_path@) is Some && is_header_value(
            encode_utf8(upstream_ip@),
        ),
        request matches Some(request) ==> request@ == health_request(
            uri_text(active_health_check_path@)->0,
            upstream_ip@,
        ) && (is_trimmed(encode_utf8(upstream_ip@)) && encode_utf8(request@.uri).len()
            <= MAX_URI_LEN ==> is_readable(request@)),
{
    match parse_uri(active_health_check_path) {
        Some(uri) => {
            proof {
                if is_header_value(encode_utf8(upstream_ip@)) && is_trimmed(
                    encode_utf8(upstream_ip@),
                ) && encode_utf8(uri@).len() <= MAX_URI_LEN {
                    law_health_request_readable(uri@, upstream_ip@);
                }
            }
            request_to_upstream(uri, upstream_ip)
        },
        None => None,
    }
}

/// Builds the request for a health check from a URI.
pub fn request_to_upstream(uri: String, upstream_ip: &str) -> (request: Option<Request>)
    ensures
        request is Some <==> is_header_value(encode_utf8(upstream_ip@)),
        request matches Some(request) ==> request@ == health_request(uri@, upstream_ip@),
{
    let mut headers = new_headers();
    proof {
        lemma_host_name();
        lemma_names_bound(header_fields(headers));
    }
    if append_field(&mut headers, "Host", upstream_ip.as_bytes()) {
        let request = Request {
            method: "GET".to_owned(),
            uri,
            version: Version::Http11,
            headers,
            body: Vec::new(),
        };
        assert(request@ =~= health_request(uri@, upstream_ip@));
        Some(request)
    } else {
        None
    }
}

} // verus!
