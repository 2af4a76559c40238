//! The balancer between its clients and the upstream servers.

use crate::headers::{
    first_value, inserted, is_header_name, is_header_value, is_trimmed, lower, names, without,
    MAX_SURE_NAMES,
};
use crate::request::{
    extend_header_value, extended, is_readable, law_extended_header, law_extended_readable,
    request_line, Request, RequestModel, MAX_NUM_HEADERS,
};
use crate::response::{http_error, make_http_error, Response, ResponseModel};
use crate::upstream::texts;
use crate::{request, response, CmdOptions};
use vstd::hash_map::StringHashMap;
use vstd::prelude::*;
use vstd::string::*;
use vstd::utf8::*;

verus! {

/// The status code of a malformed request.
pub const BAD_REQUEST: u16 = 400;

/// The status code of a request with too large a body.
pub const PAYLOAD_TOO_LARGE: u16 = 413;

/// The status code of a request beyond the rate limit.
pub const TOO_MANY_REQUESTS: u16 = 429;

/// The status code of a failure of the upstream server.
pub const BAD_GATEWAY: u16 = 502;

/// The status code of a failure of the client's connection.
pub const SERVICE_UNAVAILABLE: u16 = 503;

/// Counts requests by the address of the client.
pub type Counter = StringHashMap<usize>;

/// The configuration of the balancer and what it keeps track of.
pub struct ProxyState {
    /// How often to check whether the upstream servers are alive, in seconds.
    pub active_health_check_interval: usize,
    /// Where to send requests when checking the health of an upstream server.
    pub active_health_check_path: String,
    /// The most requests that a client can make in a minute; zero means no limit.
    pub max_requests_per_minutes: usize,
    /// The addresses of the upstream servers.
    pub upstream_addresses: Vec<String>,
    /// The addresses of the upstream servers that are alive.
    pub live_upstream_addresses: Vec<String>,
    /// How many requests each client has made since the counter was last cleared.
    pub rate_limiting_counter: Counter,
}

impl ProxyState {
    /// The state at the start: all upstream servers count as alive, and no client has made a
    /// request.
    pub fn new(options: CmdOptions) -> (state: ProxyState)
        ensures
            state.active_health_check_interval == options.active_health_check_interval,
            state.active_health_check_path@ == options.active_health_check_path@,
            state.max_requests_per_minutes == options.max_requests_per_minute,
            texts(state.upstream_addresses@) == texts(options.upstream@),
            texts(state.live_upstream_addresses@) == texts(options.upstream@),
            state.rate_limiting_counter@ == Map::<Seq<char>, usize>::empty(),
    {
        let live = options.upstream.clone();
        assert(texts(live@) =~= texts(options.upstream@));
        ProxyState {
            active_health_check_interval: options.active_health_check_interval,
            active_health_check_path: options.active_health_check_path,
            max_requests_per_minutes: options.max_requests_per_minute,
            upstream_addresses: options.upstream,
            live_upstream_addresses: live,
            rate_limiting_counter: StringHashMap::new(),
        }
    }
}

/// How many requests a client has made.
pub open spec fn requests_of(counter: Map<Seq<char>, usize>, client: Seq<char>) -> usize {
    if counter.contains_key(client) {
        counter[client]
    } else {
        0
    }
}

/// The counter with one more request of a client. A count stays at the largest number that
/// can be held.
pub open spec fn counted(counter: Map<Seq<char>, usize>, client: Seq<char>) -> Map<
    Seq<char>,
    usize,
> {
    let requests = requests_of(counter, client);
    counter.insert(
        client,
        if requests == usize::MAX {
            usize::MAX
        } else {
            (requests + 1) as usize
        },
    )
}

/// Counts a request of a client, and tells whether the client is still within the limit. For
/// a request beyond the limit, gives the response to it.
pub fn check_rate(
    rate_limiting_counter: &mut Counter,
    max_requests_per_minutes: usize,
    client_ip: &str,
) -> (checked: Result<(), Response>)
    ensures
        final(rate_limiting_counter)@ == counted(old(rate_limiting_counter)@, client_ip@),
        match checked {
            Ok(()) => requests_of(final(rate_limiting_counter)@, client_ip@)
                <= max_requests_per_minutes,
            Err(refusal) => requests_of(final(rate_limiting_counter)@, client_ip@)
                > max_requests_per_minutes && refusal@ == http_error(TOO_MANY_REQUESTS),
        },
        final(rate_limiting_counter)@.contains_key(client_ip@),
        final(rate_limiting_counter)@[client_ip@] == if !old(
            rate_limiting_counter,
        )@.contains_key(client_ip@) {
            1
        } else if old(rate_limiting_counter)@[client_ip@] < usize::MAX {
            old(rate_limiting_counter)@[client_ip@] + 1
        } else {
            usize::MAX as int
        },
        final(rate_limiting_counter)@.remove(client_ip@) == old(rate_limiting_counter)@.remove(
            client_ip@,
        ),
        checked is Err <==> final(rate_limiting_counter)@[client_ip@] > max_requests_per_minutes,
        checked matches Err(refusal) ==> refusal.status == 429,
{
    let requests: usize = match rate_limiting_counter.get(client_ip) {
        Some(requests) => *requests,
        None => 0,
    };
    let requests: usize = requests.saturating_add(1);
    rate_limiting_counter.insert(client_ip.to_owned(), requests);
    if requests > max_requests_per_minutes {
        Err(make_http_error(TOO_MANY_REQUESTS))
    } else {
        Ok(())
    }
}

/// Starts counting anew for every client.
pub fn rate_limiting_counter_clearer(rate_limiting_counter: &mut Counter)
    ensures
        final(rate_limiting_counter)@ == Map::<Seq<char>, usize>::empty(),
{
    rate_limiting_counter.clear();
}

/// The counter after requests of these clients, since it was last cleared.
pub open spec fn counter_after(clients: Seq<Seq<char>>) -> Map<Seq<char>, usize>
    decreases clients.len(),
{
    if clients.len() == 0 {
        Map::empty()
    } else {
        counted(counter_after(clients.drop_last()), clients.last())
    }
}

/// How often `client` stands among `clients`.
pub open spec fn occurrences(clients: Seq<Seq<char>>, client: Seq<char>) -> nat
    decreases clients.len(),
{
    if clients.len() == 0 {
        0
    } else {
        occurrences(clients.drop_last(), client) + if clients.last() == client {
            1nat
        } else {
            0
        }
    }
}

/// Each client is counted on its own: the counter holds for each client the number of its
/// requests since the counter was last cleared.
pub proof fn law_counter_counts(clients: Seq<Seq<char>>, client: Seq<char>)
    requires
        clients.len() <= usize::MAX,
    ensures
        requests_of(counter_after(clients), client) == occurrences(clients, client),
        occurrences(clients, client) <= clients.len(),
    decreases clients.len(),
{
    if clients.len() > 0 {
        law_counter_counts(clients.drop_last(), client);
    }
}

/// Why a request that could not be read is answered with an error: the status code.
pub open spec fn error_status(error: request::Error) -> u16 {
    match error {
        request::Error::IncompleteRequest(_) => BAD_REQUEST,
        request::Error::MalformedRequest(_) => BAD_REQUEST,
        request::Error::InvalidContentLength => BAD_REQUEST,
        request::Error::ContentLengthMismatch => BAD_REQUEST,
        request::Error::RequestBodyTooLarge => PAYLOAD_TOO_LARGE,
        request::Error::ConnectionError(_) => SERVICE_UNAVAILABLE,
    }
}

/// Whether a client that could not be read from is gone: it hung up between two requests, or
/// its connection broke.
pub open spec fn is_gone(error: request::Error) -> bool {
    match error {
        request::Error::IncompleteRequest(received) => received == 0,
        request::Error::ConnectionError(_) => true,
        _ => false,
    }
}

/// What can happen to the connection of a client.
pub enum Event {
    /// An upstream server is connected.
    Connected,
    /// No upstream server could be connected.
    AllDead,
    /// A request was read from the client, or could not be read.
    RequestRead(Result<Request, request::Error>),
    /// This request was sent to the upstream server.
    Forwarded(Request),
    /// The request could not be sent to the upstream server.
    ForwardFailed,
    /// A response was read from the upstream server, or could not be read.
    ResponseRead(Result<Response, response::Error>),
}

/// What to do next for a client.
pub enum Action {
    /// Read a request from the client.
    ReadRequest,
    /// Send this request to the upstream server.
    Forward(Request),
    /// Read the response to a request with this method from the upstream server.
    ReadResponse(String),
    /// Send this response to the client, then read its next request.
    Reply(Response),
    /// Send this response to the client, then close the connection.
    ReplyAndClose(Response),
    /// Close the connection.
    Close,
}

/// The model of `Event`.
pub enum EventModel {
    Connected,
    AllDead,
    RequestRead(Result<RequestModel, request::Error>),
    Forwarded(RequestModel),
    ForwardFailed,
    ResponseRead(Result<ResponseModel, response::Error>),
}

/// The model of `Action`.
pub enum ActionModel {
    ReadRequest,
    Forward(RequestModel),
    ReadResponse(Seq<char>),
    Reply(ResponseModel),
    ReplyAndClose(ResponseModel),
    Close,
}

impl View for Event {
    type V = EventModel;

    open spec fn view(&self) -> EventModel {
        match *self {
            Event::Connected => EventModel::Connected,
            Event::AllDead => EventModel::AllDead,
            Event::RequestRead(Ok(request)) => EventModel::RequestRead(Ok(request@)),
            Event::RequestRead(Err(error)) => EventModel::RequestRead(Err(error)),
            Event::Forwarded(request) => EventModel::Forwarded(request@),
            Event::ForwardFailed => EventModel::ForwardFailed,
            Event::ResponseRead(Ok(response)) => EventModel::ResponseRead(Ok(response@)),
            Event::ResponseRead(Err(error)) => EventModel::ResponseRead(Err(error)),
        }
    }
}

impl View for Action {
    type V = ActionModel;

    open spec fn view(&self) -> ActionModel {
        match *self {
            Action::ReadRequest => ActionModel::ReadRequest,
            Action::Forward(request) => ActionModel::Forward(request@),
            Action::ReadResponse(method) => ActionModel::ReadResponse(method@),
            Action::Reply(response) => ActionModel::Reply(response@),
            Action::ReplyAndClose(response) => ActionModel::ReplyAndClose(response@),
            Action::Close => ActionModel::Close,
        }
    }
}

/// A client's request as it goes to the upstream server: with the client's address at the end
/// of its X-Forwarded-For header.
pub open spec fn forwarded(request: RequestModel, client: Seq<char>) -> RequestModel {
    RequestModel {
        fields: inserted(
            request.fields,
            "x-forwarded-for"@,
            extended(first_value(request.fields, "x-forwarded-for"@), encode_utf8(client)),
        ),
        ..request
    }
}

/// Whether the next request of a client is beyond the limit; a limit of zero is none.
pub open spec fn is_refused(counter: Map<Seq<char>, usize>, max: usize, client: Seq<char>) -> bool {
    max > 0 && requests_of(counted(counter, client), client) > max
}

/// What to do after an event, given the requests that were counted so far.
pub open spec fn action_after(
    event: EventModel,
    counter: Map<Seq<char>, usize>,
    max: usize,
    client: Seq<char>,
) -> ActionModel {
    match event {
        EventModel::Connected => ActionModel::ReadRequest,
        EventModel::AllDead => ActionModel::ReplyAndClose(http_error(BAD_GATEWAY)),
        EventModel::RequestRead(Ok(request)) => if is_refused(counter, max, client) {
            ActionModel::Reply(http_error(TOO_MANY_REQUESTS))
        } else {
            ActionModel::Forward(forwarded(request, client))
        },
        EventModel::RequestRead(Err(error)) => if is_gone(error) {
            ActionModel::Close
        } else {
            ActionModel::Reply(http_error(error_status(error)))
        },
        EventModel::Forwarded(request) => ActionModel::ReadResponse(request.method),
        EventModel::ForwardFailed => ActionModel::ReplyAndClose(http_error(BAD_GATEWAY)),
        EventModel::ResponseRead(Ok(response)) => ActionModel::Reply(response),
        EventModel::ResponseRead(Err(_)) => ActionModel::ReplyAndClose(http_error(BAD_GATEWAY)),
    }
}

/// The requests that are counted after an event: every request that was read counts, unless
/// there is no limit.
pub open spec fn count_after(
    event: EventModel,
    counter: Map<Seq<char>, usize>,
    max: usize,
    client: Seq<char>,
) -> Map<Seq<char>, usize> {
    if event matches EventModel::RequestRead(Ok(_)) && max > 0 {
        counted(counter, client)
    } else {
        counter
    }
}

/// `x-forwarded-for` is a header name in lower case.
proof fn lemma_forwarded_name()
    ensures
        is_header_name("x-forwarded-for"@),
        lower("x-forwarded-for"@) == "x-forwarded-for"@,
{
    reveal_strlit("x-forwarded-for");
    assert(lower("x-forwarded-for"@) =~= "x-forwarded-for"@);
}

/// Gives the status code with which a request that could not be read is answered.
pub fn status_for(error: &request::Error) -> (status: u16)
    ensures
        status == error_status(*error),
{
    match error {
        request::Error::IncompleteRequest(_) => BAD_REQUEST,
        request::Error::MalformedRequest(_) => BAD_REQUEST,
        request::Error::InvalidContentLength => BAD_REQUEST,
        request::Error::ContentLengthMismatch => BAD_REQUEST,
        request::Error::RequestBodyTooLarge => PAYLOAD_TOO_LARGE,
        request::Error::ConnectionError(_) => SERVICE_UNAVAILABLE,
    }
}

/// Decides what to do next for a client.
pub fn handle_connection(
    event: Event,
    rate_limiting_counter: &mut Counter,
    max_requests_per_minutes: usize,
    client_ip: &str,
) -> (action: Action)
    requires
        is_header_value(encode_utf8(client_ip@)),
        event matches Event::RequestRead(Ok(request)) ==> names(request@.fields).len()
            < MAX_SURE_NAMES,
    ensures
        action@ == action_after(
            event@,
            old(rate_limiting_counter)@,
            max_requests_per_minutes,
            client_ip@,
        ),
        final(rate_limiting_counter)@ == count_after(
            event@,
            old(rate_limiting_counter)@,
            max_requests_per_minutes,
            client_ip@,
        ),
        !(event matches Event::RequestRead(Ok(_))) ==> final(rate_limiting_counter)@ == old(
            rate_limiting_counter,
        )@,
        event is Connected ==> action is ReadRequest,
        event is AllDead || event is ForwardFailed || (event matches Event::ResponseRead(Err(_)))
            ==> (action matches Action::ReplyAndClose(response) && response.status == 502),
        event matches Event::Forwarded(request) ==> (action matches Action::ReadResponse(method)
            && method@ == request.method@),
        event matches Event::ResponseRead(Ok(response)) ==> action == Action::Reply(response),
        event matches Event::RequestRead(Ok(request)) ==> match action {
            Action::Forward(sent) => sent.method@ == request.method@ && sent.uri@ == request.uri@
                && sent.version == request.version && sent.body@ == request.body@,
            Action::Reply(response) => response.status == 429,
            _ => false,
        },
{
    match event {
        Event::Connected => Action::ReadRequest,
        Event::AllDead => Action::ReplyAndClose(make_http_error(BAD_GATEWAY)),
        Event::RequestRead(Ok(request)) => {
            let mut request = request;
            if max_requests_per_minutes > 0 {
                if let Err(refusal) = check_rate(
                    rate_limiting_counter,
                    max_requests_per_minutes,
                    client_ip,
                ) {
                    return Action::Reply(refusal);
                }
            }
            proof {
                lemma_forwarded_name();
            }
            extend_header_value(&mut request, "x-forwarded-for", client_ip);
            Action::Forward(request)
        },
        Event::RequestRead(Err(error)) => match error {
            request::Error::IncompleteRequest(0) => Action::Close,
            request::Error::ConnectionError(_) => Action::Close,
            _ => Action::Reply(make_http_error(status_for(&error))),
        },
        Event::Forwarded(request) => Action::ReadResponse(request.method),
        Event::ForwardFailed => Action::ReplyAndClose(make_http_error(BAD_GATEWAY)),
        Event::ResponseRead(Ok(response)) => Action::Reply(response),
        Event::ResponseRead(Err(_)) => Action::ReplyAndClose(make_http_error(BAD_GATEWAY)),
    }
}

/// Under a limit, a client's first requests up to the limit are forwarded, and each one beyond
/// it is answered with `TOO_MANY_REQUESTS` and not forwarded, until the counter is cleared.
/// What other clients do has no influence.
pub proof fn law_rate_limit(
    earlier: Seq<Seq<char>>,
    request: RequestModel,
    max: usize,
    client: Seq<char>,
)
    requires
        earlier.len() < usize::MAX,
        max > 0,
    ensures
        action_after(
            EventModel::RequestRead(Ok(request)),
            counter_after(earlier),
            max,
            client,
        ) == if occurrences(earlier, client) < max {
            ActionModel::Forward(forwarded(request, client))
        } else {
            ActionModel::Reply(http_error(TOO_MANY_REQUESTS))
        },
        count_after(
            EventModel::RequestRead(Ok(request)),
            counter_after(earlier),
            max,
            client,
        ) == counter_after(earlier.push(client)),
{
    law_counter_counts(earlier, client);
    assert(earlier.push(client).drop_last() =~= earlier);
}

/// Without a limit every request that was read is forwarded, and none is counted.
pub proof fn law_no_limit(
    counter: Map<Seq<char>, usize>,
    request: RequestModel,
    client: Seq<char>,
)
    ensures
        action_after(EventModel::RequestRead(Ok(request)), counter, 0, client)
            == ActionModel::Forward(forwarded(request, client)),
        count_after(EventModel::RequestRead(Ok(request)), counter, 0, client) == counter,
{
}

/// A request is forwarded with the client's address as the last item of its X-Forwarded-For
/// header, and otherwise as it came.
pub proof fn law_forwarded_request(request: RequestModel, client: Seq<char>, other: Seq<char>)
    ensures
        first_value(forwarded(request, client).fields, "x-forwarded-for"@) == Some(
            extended(first_value(request.fields, "x-forwarded-for"@), encode_utf8(client)),
        ),
        without(forwarded(request, client).fields, "x-forwarded-for"@) == without(
            request.fields,
            "x-forwarded-for"@,
        ),
        other != "x-forwarded-for"@ ==> first_value(forwarded(request, client).fields, other)
            == first_value(request.fields, other),
        request_line(forwarded(request, client)) == request_line(request),
        forwarded(request, client).body == request.body,
{
    law_extended_header(
        request,
        forwarded(request, client),
        "x-forwarded-for"@,
        encode_utf8(client),
        other,
    );
}

/// A forwarded request is one that the upstream server can read back, with the client's address
/// in it, as long as it has no more fields than are accepted.
pub proof fn law_forwarded_readable(request: RequestModel, client: Seq<char>)
    requires
        is_readable(request),
        is_header_value(encode_utf8(client)),
        is_trimmed(encode_utf8(client)),
        forwarded(request, client).fields.len() <= MAX_NUM_HEADERS,
    ensures
        is_readable(forwarded(request, client)),
{
    lemma_forwarded_name();
    law_extended_readable(request, "x-forwarded-for"@, encode_utf8(client));
}

/// Which events can come of an action: what was asked for has happened, or has failed. None
/// comes of an action that closes the connection.
pub open spec fn follows(action: ActionModel, event: EventModel) -> bool {
    match action {
        ActionModel::ReadRequest => event is RequestRead,
        ActionModel::Forward(request) => event == EventModel::Forwarded(request)
            || event is ForwardFailed,
        ActionModel::ReadResponse(_) => event is ResponseRead,
        ActionModel::Reply(_) => event is RequestRead,
        ActionModel::ReplyAndClose(_) => false,
        ActionModel::Close => false,
    }
}

/// Every request that was read is answered, and answered once: one beyond the limit with
/// `TOO_MANY_REQUESTS`, any other with the response of the upstream server, or with
/// `BAD_GATEWAY` where it could not be sent there or no response could be read. Nothing else
/// goes to the client in between, whatever other clients are counted meanwhile.
pub proof fn law_every_request_answered(
    request: RequestModel,
    sent: EventModel,
    received: EventModel,
    counters: Seq<Map<Seq<char>, usize>>,
    max: usize,
    client: Seq<char>,
)
    requires
        counters.len() == 3,
    ensures
        ({
            let read = EventModel::RequestRead(Ok(request));
            let first = action_after(read, counters[0], max, client);
            let second = action_after(sent, counters[1], max, client);
            let third = action_after(received, counters[2], max, client);
            if is_refused(counters[0], max, client) {
                first == ActionModel::Reply(http_error(TOO_MANY_REQUESTS))
            } else {
                &&& first is Forward
                &&& follows(first, sent) ==> if sent is ForwardFailed {
                    second == ActionModel::ReplyAndClose(http_error(BAD_GATEWAY))
                } else {
                    &&& second == ActionModel::ReadResponse(request.method)
                    &&& follows(second, received) ==> third == match received {
                        EventModel::ResponseRead(Ok(response)) => ActionModel::Reply(response),
                        _ => ActionModel::ReplyAndClose(http_error(BAD_GATEWAY)),
                    }
                }
            }
        }),
{
}

/// A client's connection ends only when the client is gone or the upstream server failed. In
/// the latter case the client is told so with `BAD_GATEWAY`.
pub proof fn law_connection_end(
    event: EventModel,
    counter: Map<Seq<char>, usize>,
    max: usize,
    client: Seq<char>,
)
    ensures
        action_after(event, counter, max, client) is Close <==> (
        event matches EventModel::RequestRead(Err(error)) && is_gone(error)),
        action_after(event, counter, max, client) is ReplyAndClose <==> event is AllDead
            || event is ForwardFailed || (event matches EventModel::ResponseRead(Err(_))),
        action_after(event, counter, max, client) is ReplyAndClose ==> action_after(
            event,
            counter,
            max,
            client,
        ) == ActionModel::ReplyAndClose(http_error(BAD_GATEWAY)),
{
}

/// One step in the course of a connection: what happened, and the requests that were counted
/// when it did. Between two steps of one connection the counter may change in any way: other
/// clients are counted too, and it is cleared from time to time.
pub struct Turn {
    pub event: EventModel,
    pub counter: Map<Seq<char>, usize>,
}

/// What is done in a turn.
pub open spec fn action_of(turn: Turn, max: usize, client: Seq<char>) -> ActionModel {
    action_after(turn.event, turn.counter, max, client)
}

/// Whether turn `i` is what came of the one before it.
pub open spec fn is_next(turns: Seq<Turn>, i: int, max: usize, client: Seq<char>) -> bool {
    follows(action_of(turns[i - 1], max, client), turns[i].event)
}

/// Whether these turns are the course of a connection, from the moment at which an upstream
/// server is connected: every turn is what came of the one before it.
pub open spec fn is_course(turns: Seq<Turn>, max: usize, client: Seq<char>) -> bool {
    &&& turns.len() > 0 ==> turns[0].event is Connected
    &&& forall|i: int| 0 < i < turns.len() ==> #[trigger] is_next(turns, i, max, client)
}

/// Whether a client is found to be gone.
pub open spec fn finds_gone(event: EventModel) -> bool {
    event matches EventModel::RequestRead(Err(error)) && is_gone(error)
}

/// The turns in which a request was read, or found to be unreadable, in their order.
pub open spec fn readings(turns: Seq<Turn>) -> Seq<int>
    decreases turns.len(),
{
    if turns.len() == 0 {
        Seq::empty()
    } else if turns.last().event is RequestRead && !finds_gone(turns.last().event) {
        readings(turns.drop_last()).push(turns.len() - 1)
    } else {
        readings(turns.drop_last())
    }
}

/// The response that an action sends to the client, where it sends one.
pub open spec fn response_in(action: ActionModel) -> Option<ResponseModel> {
    match action {
        ActionModel::Reply(response) => Some(response),
        ActionModel::ReplyAndClose(response) => Some(response),
        _ => None,
    }
}

/// All responses that are sent to the client, in their order.
pub open spec fn responses(turns: Seq<Turn>, max: usize, client: Seq<char>) -> Seq<ResponseModel>
    decreases turns.len(),
{
    if turns.len() == 0 {
        Seq::empty()
    } else {
        let before = responses(turns.drop_last(), max, client);
        match response_in(action_of(turns.last(), max, client)) {
            Some(response) => before.push(response),
            None => before,
        }
    }
}

/// Whether the last request is still on its way to the upstream server, or its response on the
/// way back.
pub open spec fn is_pending(turns: Seq<Turn>, max: usize, client: Seq<char>) -> bool {
    turns.len() > 0 && (action_of(turns.last(), max, client) is Forward || action_of(
        turns.last(),
        max,
        client,
    ) is ReadResponse)
}

/// The answer to what was read in turn `i`, once it is there: an unreadable request is answered
/// with its error, a request beyond the limit with `TOO_MANY_REQUESTS`, one that could not be
/// sent to the upstream server with `BAD_GATEWAY`, and any other with what was read from there,
/// or with `BAD_GATEWAY` again.
pub open spec fn answer_to(turns: Seq<Turn>, i: int, max: usize, client: Seq<char>) -> Option<
    ResponseModel,
> {
    match turns[i].event {
        EventModel::RequestRead(Err(error)) => Some(http_error(error_status(error))),
        EventModel::RequestRead(Ok(_)) => if is_refused(turns[i].counter, max, client) {
            Some(http_error(TOO_MANY_REQUESTS))
        } else if i + 1 >= turns.len() {
            None
        } else if turns[i + 1].event is ForwardFailed {
            Some(http_error(BAD_GATEWAY))
        } else if i + 2 >= turns.len() {
            None
        } else {
            match turns[i + 2].event {
                EventModel::ResponseRead(Ok(response)) => Some(response),
                _ => Some(http_error(BAD_GATEWAY)),
            }
        },
        _ => None,
    }
}

/// Over a whole connection, every reading of a request is answered, in the order of the
/// readings: there are as many responses as readings, or one fewer while the last request is
/// under way, and each response is the answer to its reading. A client that is gone gets none.
pub proof fn law_connection_answers(turns: Seq<Turn>, max: usize, client: Seq<char>)
    requires
        is_course(turns, max, client),
    ensures
        readings(turns).len() == responses(turns, max, client).len() + if is_pending(
            turns,
            max,
            client,
        ) {
            1int
        } else {
            0
        },
        forall|j: int|
            0 <= j < readings(turns).len() ==> 0 <= #[trigger] readings(turns)[j] < turns.len(),
        forall|j: int|
            0 <= j < responses(turns, max, client).len() ==> answer_to(
                turns,
                readings(turns)[j],
                max,
                client,
            ) == Some(#[trigger] responses(turns, max, client)[j]),
    decreases turns.len(),
{
    lemma_pending(turns, max, client);
    if turns.len() > 0 {
        let before = turns.drop_last();
        assert(is_course(before, max, client)) by {
            assert forall|i: int| 0 < i < before.len() implies #[trigger] is_next(
                before,
                i,
                max,
                client,
            ) by {
                assert(is_next(turns, i, max, client));
            }
        }
        law_connection_answers(before, max, client);
        lemma_pending(before, max, client);
        let old_readings = readings(before);
        let old_responses = responses(before, max, client);
        let now_readings = readings(turns);
        let now_responses = responses(turns, max, client);
        if turns.len() > 1 {
            assert(is_next(turns, turns.len() - 1, max, client));
        }
        assert forall|j: int| 0 <= j < now_responses.len() implies answer_to(
            turns,
            now_readings[j],
            max,
            client,
        ) == Some(#[trigger] now_responses[j]) by {
            if j < old_responses.len() {
                assert(now_responses[j] == old_responses[j]);
                assert(now_readings[j] == old_readings[j]);
                assert(answer_to(before, old_readings[j], max, client) == Some(old_responses[j]));
            }
        }
    }
}

/// A request that is under way is the last one that was read, one or two turns ago.
proof fn lemma_pending(turns: Seq<Turn>, max: usize, client: Seq<char>)
    requires
        is_course(turns, max, client),
    ensures
        is_pending(turns, max, client) ==> readings(turns).len() > 0 && {
            let i = if action_of(turns.last(), max, client) is Forward {
                turns.len() - 1
            } else {
                turns.len() - 2
            };
            &&& 0 <= i
            &&& readings(turns).last() == i
            &&& action_of(turns[i], max, client) is Forward
        },
{
    if is_pending(turns, max, client) && action_of(turns.last(), max, client) is ReadResponse {
        let i = turns.len() - 1;
        if i > 0 {
            assert(is_next(turns, i, max, client));
            let before = turns.drop_last();
            assert(before.last() == turns[i - 1]);
            assert(readings(turns) == readings(before));
            assert(readings(before) == readings(before.drop_last()).push(i - 1));
        }
    }
}

/// The requests that are sent to the upstream server, in their order.
pub open spec fn sent_upstream(turns: Seq<Turn>, max: usize, client: Seq<char>) -> Seq<RequestModel>
    decreases turns.len(),
{
    if turns.len() == 0 {
        Seq::empty()
    } else {
        let before = sent_upstream(turns.drop_last(), max, client);
        match action_of(turns.last(), max, client) {
            ActionModel::Forward(request) => before.push(request),
            _ => before,
        }
    }
}

/// The requests that were read and are within the limit, in their order.
pub open spec fn within_limit(turns: Seq<Turn>, max: usize, client: Seq<char>) -> Seq<RequestModel>
    decreases turns.len(),
{
    if turns.len() == 0 {
        Seq::empty()
    } else {
        let before = within_limit(turns.drop_last(), max, client);
        match turns.last().event {
            EventModel::RequestRead(Ok(request)) => if is_refused(
                turns.last().counter,
                max,
                client,
            ) {
                before
            } else {
                before.push(request)
            },
            _ => before,
        }
    }
}

/// Over a whole connection, the upstream server is sent exactly the requests that were read and
/// are within the limit, in their order, each with the client's address added. A request beyond
/// the limit is only answered, and the connection goes on.
pub proof fn law_connection_forwards(turns: Seq<Turn>, max: usize, client: Seq<char>)
    ensures
        sent_upstream(turns, max, client) == within_limit(turns, max, client).map_values(
            |request: RequestModel| forwarded(request, client),
        ),
        forall|i: int|
            0 <= i < turns.len() && ((#[trigger] turns[i]).event matches EventModel::RequestRead(
                Ok(_),
            )) && is_refused(turns[i].counter, max, client) ==> action_of(turns[i], max, client)
                == ActionModel::Reply(http_error(TOO_MANY_REQUESTS)),
    decreases turns.len(),
{
    if turns.len() > 0 {
        law_connection_forwards(turns.drop_last(), max, client);
    }
    assert(sent_upstream(turns, max, client) =~= within_limit(turns, max, client).map_values(
        |request: RequestModel| forwarded(request, client),
    ));
}

/// A client that is gone ends the connection: that turn is the last one, and nothing is sent in
/// it, neither to the client nor to the upstream server. The same holds of a turn that tells the
/// client of a failure of the upstream server, after that has been told.
pub proof fn law_connection_last_turn(turns: Seq<Turn>, i: int, max: usize, client: Seq<char>)
    requires
        is_course(turns, max, client),
        0 <= i < turns.len(),
    ensures
        finds_gone(turns[i].event) ==> i == turns.len() - 1 && action_of(turns[i], max, client)
            is Close,
        action_of(turns[i], max, client) is ReplyAndClose ==> i == turns.len() - 1,
{
    if i + 1 < turns.len() {
        assert(is_next(turns, i + 1, max, client));
    }
}

} // verus!
