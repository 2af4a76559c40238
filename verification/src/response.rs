//! HTTP responses: reading them from an upstream server and writing them to a client.

use crate::decimal::{decimal, decimal_text, is_digit, law_decimal_round_trip, lemma_decimal_digits};
use crate::head::{
    canonical_reason, head_bytes, parse_response_head, reason_phrase, response_ends_itself,
    response_head, ResponseHead, ResponseHeadModel,
};
use crate::headers::{
    all_valid, append_field, collect_fields, collected, content_length, declared_length,
    first_value, header_fields, is_header_name, is_header_value, is_value_byte,
    lemma_names_bound, lower, new_headers, put_fields, Field, MAX_SURE_NAMES,
};
use crate::stream::{
    behind, incoming, put_bytes, put_crlf, put_text, total, Incoming, IncomingModel,
};
use crate::version::{version_text, Version};
use vstd::prelude::*;
use vstd::string::*;
use vstd::utf8::*;

verus! {

/// The room for the head of a response.
pub const MAX_HEADERS_SIZE: usize = 8000;

/// The largest response body that is accepted.
pub const MAX_BODY_SIZE: usize = 10000000;

/// The most header fields that a response may have.
pub const MAX_NUM_HEADERS: usize = 32;

/// The most bytes of a body that are read at a time.
pub const MAX_READ_SIZE: usize = 512;

/// Why a response could not be read.
#[derive(Debug)]
pub enum Error {
    /// The server hung up before it sent a complete response.
    IncompleteResponse,
    /// The server sent something that is no HTTP response.
    MalformeResponse(httparse::Error),
    /// The Content-Length header is present, but does not hold a number.
    InvalidContentLength,
    /// The Content-Length header does not match the size of the body that was sent.
    ContentLengthMismatch,
    /// The body is larger than `MAX_BODY_SIZE`.
    ResponseBodyTooLarge,
    /// Reading from the connection failed.
    ConnectionError(std::io::Error),
}

/// An HTTP response.
#[derive(Debug)]
pub struct Response {
    pub version: Version,
    /// The status code, of three digits.
    pub status: u16,
    pub headers: http::HeaderMap<http::HeaderValue>,
    pub body: Vec<u8>,
}

/// The model of a response.
#[verifier::ext_equal]
pub struct ResponseModel {
    pub version: Version,
    pub status: u16,
    pub fields: Seq<Field>,
    pub body: Seq<u8>,
}

impl View for Response {
    type V = ResponseModel;

    open spec fn view(&self) -> ResponseModel {
        ResponseModel {
            version: self.version,
            status: self.status,
            fields: header_fields(self.headers),
            body: self.body@,
        }
    }
}

/// Whether a number can be a status code.
pub open spec fn is_status(code: u16) -> bool {
    100 <= code <= 999
}

/// Reads the length that a response declares for its body.
pub fn get_content_length(response: &Response) -> (length: Result<Option<usize>, Error>)
    ensures
        match content_length(response@.fields) {
            Ok(declared) => length == Ok::<Option<usize>, Error>(declared),
            Err(_) => length == Err::<Option<usize>, Error>(Error::InvalidContentLength),
        },
{
    match declared_length(&response.headers) {
        Ok(declared) => Ok(declared),
        Err(_) => Err(Error::InvalidContentLength),
    }
}

/// The response that a head describes, with an empty body: an HTTP/1.1 response with the
/// head's status code and fields. There is none where the code is no status code or a field
/// cannot stand in a header.
pub open spec fn built(head: ResponseHeadModel) -> Option<ResponseModel> {
    if is_status(head.code) && all_valid(head.fields) {
        Some(
            ResponseModel {
                version: Version::Http11,
                status: head.code,
                fields: collected(head.fields),
                body: Seq::empty(),
            },
        )
    } else {
        None
    }
}

/// Builds a response from its head.
pub fn build_response(head: ResponseHead) -> (response: Option<Response>)
    requires
        head.fields@.len() <= MAX_SURE_NAMES,
    ensures
        match response {
            Some(response) => built(head@) == Some(response@),
            None => built(head@) is None,
        },
{
    if head.code < 100 || head.code > 999 {
        return None;
    }
    match collect_fields(&head.fields) {
        Some(headers) => {
            let response = Response {
                version: Version::Http11,
                status: head.code,
                headers,
                body: Vec::new(),
            };
            assert(response@.body =~= Seq::<u8>::empty());
            Some(response)
        },
        None => None,
    }
}

/// Whether the head at the start of `buffer`, where there is one, describes a response.
pub open spec fn buildable(buffer: Seq<u8>) -> bool {
    response_head(buffer, MAX_NUM_HEADERS as nat) matches Ok(Some(head)) ==> built(head) is Some
}

/// Tells whether the head at the start of `buffer`, where there is one, describes a response.
pub fn is_buildable(buffer: &[u8]) -> (possible: bool)
    ensures
        possible == buildable(buffer@),
{
    match parse_response_head(buffer, MAX_NUM_HEADERS) {
        Ok(Some(head)) => build_response(head).is_some(),
        _ => true,
    }
}

/// Looks for a response head at the start of `buffer`. Once it is complete, gives the response
/// without a body, and the length of the head. What follows the head has no influence.
pub fn parse_response(buffer: &[u8]) -> (parsed: Result<Option<(Response, usize)>, Error>)
    requires
        buildable(buffer@),
    ensures
        match response_head(buffer@, MAX_NUM_HEADERS as nat) {
            Ok(Some(head)) => parsed matches Ok(Some((response, len))) && built(head) == Some(
                response@,
            ) && len == head.len && len <= buffer@.len(),
            Ok(None) => parsed matches Ok(None),
            Err(error) => parsed == Err::<Option<(Response, usize)>, Error>(
                Error::MalformeResponse(error),
            ),
        },
        parsed matches Ok(Some((_, len))) ==> len > 0,
        response_ends_itself(
            buffer@,
            MAX_NUM_HEADERS as nat,
            response_head(buffer@, MAX_NUM_HEADERS as nat),
        ),
{
    match parse_response_head(buffer, MAX_NUM_HEADERS) {
        Ok(Some(head)) => {
            let len: usize = head.len;
            match build_response(head) {
                Some(response) => Ok(Some((response, len))),
                None => Ok(None),
            }
        },
        Ok(None) => Ok(None),
        Err(error) => Err(Error::MalformeResponse(error)),
    }
}

/// What the reader of a response waits for.
pub enum ReadState {
    /// More of the head; these bytes have arrived so far.
    Head(Vec<u8>),
    /// More of the body of this response: up to this length, or until the server hangs up.
    Body(Response, Option<usize>),
}

/// What a read leads to.
pub enum ReadStep {
    /// More has to be read.
    Read(ReadState),
    /// The response is complete.
    Done(Response),
    /// The response cannot be read.
    Failed(Error),
    /// The head is complete, but describes nothing that can be a response.
    Unusable,
}

/// The model of `ReadState`.
pub enum StateModel {
    Head(Seq<u8>),
    Body(ResponseModel, Option<usize>),
}

/// The model of `ReadStep`.
pub enum StepModel {
    Read(StateModel),
    Done(ResponseModel),
    Failed(Error),
    Unusable,
}

impl View for ReadState {
    type V = StateModel;

    open spec fn view(&self) -> StateModel {
        match *self {
            ReadState::Head(received) => StateModel::Head(received@),
            ReadState::Body(response, length) => StateModel::Body(response@, length),
        }
    }
}

impl View for ReadStep {
    type V = StepModel;

    open spec fn view(&self) -> StepModel {
        match *self {
            ReadStep::Read(state) => StepModel::Read(state@),
            ReadStep::Done(response) => StepModel::Done(response@),
            ReadStep::Failed(error) => StepModel::Failed(error),
            ReadStep::Unusable => StepModel::Unusable,
        }
    }
}

/// What holds of a state in which the reader waits: a head never outgrows its room, and a
/// body is never larger than is accepted, and is shorter than its declared length.
pub open spec fn waiting(state: StateModel) -> bool {
    match state {
        StateModel::Head(received) => received.len() <= MAX_HEADERS_SIZE,
        StateModel::Body(response, length) => is_status(response.status) && response.body.len()
            <= MAX_BODY_SIZE && (length matches Some(length) ==> response.body.len() < length),
    }
}

/// How many bytes the next read asks for.
pub open spec fn read_size(state: StateModel) -> nat {
    match state {
        StateModel::Head(received) => (MAX_HEADERS_SIZE - received.len()) as nat,
        StateModel::Body(..) => MAX_READ_SIZE as nat,
    }
}

/// The response with more bytes in its body.
pub open spec fn with_more(response: ResponseModel, bytes: Seq<u8>) -> ResponseModel {
    ResponseModel { body: response.body + bytes, ..response }
}

/// Whether the response to a request with this method, with this status code, has no body.
pub open spec fn is_bodiless(request_method: Seq<char>, status: u16) -> bool {
    request_method == "HEAD"@ || status < 200 || status == 204 || status == 304
}

/// A response with a declared length is complete as soon as its body has that length, and a
/// body that is longer does not match it; one without goes on.
pub open spec fn until(response: ResponseModel, length: Option<usize>) -> StepModel {
    match length {
        Some(declared) => if response.body.len() < declared {
            StepModel::Read(StateModel::Body(response, length))
        } else if response.body.len() == declared {
            StepModel::Done(response)
        } else {
            StepModel::Failed(Error::ContentLengthMismatch)
        },
        None => StepModel::Read(StateModel::Body(response, length)),
    }
}

/// What follows a complete head.
pub open spec fn after_head(request_method: Seq<char>, response: ResponseModel) -> StepModel {
    if is_bodiless(request_method, response.status) {
        StepModel::Done(response)
    } else {
        match content_length(response.fields) {
            Err(_) => StepModel::Failed(Error::InvalidContentLength),
            Ok(length) => until(response, length),
        }
    }
}

/// What is known of a head after a read.
pub enum HeaderModel {
    More(Seq<u8>),
    Complete(ResponseModel),
    Failed(Error),
    Unusable,
}

/// What a read of the head leads to. The head may arrive in any number of pieces: after each
/// of them everything that has arrived is looked at again. What arrived behind a complete
/// head is the start of the body.
pub open spec fn header_step(received: Seq<u8>, read: IncomingModel) -> HeaderModel {
    match read {
        Err(error) => HeaderModel::Failed(Error::ConnectionError(error)),
        Ok(bytes) => if bytes.len() == 0 {
            HeaderModel::Failed(Error::IncompleteResponse)
        } else {
            let buffer = received + bytes;
            match response_head(buffer, MAX_NUM_HEADERS as nat) {
                Err(error) => HeaderModel::Failed(Error::MalformeResponse(error)),
                Ok(None) => HeaderModel::More(buffer),
                Ok(Some(head)) => match built(head) {
                    None => HeaderModel::Unusable,
                    Some(response) => HeaderModel::Complete(
                        with_more(response, behind(buffer, head.len)),
                    ),
                },
            }
        },
    }
}

/// What a read of the body leads to. A server that hangs up ends a body without a declared
/// length; more bytes than were declared or than are accepted are an error. A body that is not
/// shorter than its declared length needs no read: it is taken or refused as it stands.
pub open spec fn body_step(
    response: ResponseModel,
    length: Option<usize>,
    read: IncomingModel,
) -> StepModel {
    if length matches Some(length) && response.body.len() >= length {
        until(response, length)
    } else {
        match read {
            Err(error) => StepModel::Failed(Error::ConnectionError(error)),
            Ok(bytes) => if bytes.len() == 0 {
                if length is None {
                    StepModel::Done(response)
                } else {
                    StepModel::Failed(Error::ContentLengthMismatch)
                }
            } else if length matches Some(length) && response.body.len() + bytes.len() > length {
                StepModel::Failed(Error::ContentLengthMismatch)
            } else if response.body.len() + bytes.len() > MAX_BODY_SIZE {
                StepModel::Failed(Error::ResponseBodyTooLarge)
            } else {
                until(with_more(response, bytes), length)
            },
        }
    }
}

/// What a read leads to.
pub open spec fn read_step(
    request_method: Seq<char>,
    state: StateModel,
    read: IncomingModel,
) -> StepModel {
    match state {
        StateModel::Head(received) => match header_step(received, read) {
            HeaderModel::More(buffer) => StepModel::Read(StateModel::Head(buffer)),
            HeaderModel::Complete(response) => after_head(request_method, response),
            HeaderModel::Failed(error) => StepModel::Failed(error),
            HeaderModel::Unusable => StepModel::Unusable,
        },
        StateModel::Body(response, length) => body_step(response, length, read),
    }
}

impl ReadState {
    /// The state in which nothing has arrived yet.
    pub fn new() -> (state: ReadState)
        ensures
            state@ == StateModel::Head(Seq::empty()),
            waiting(state@),
    {
        let received: Vec<u8> = Vec::new();
        assert(received@ =~= Seq::<u8>::empty());
        ReadState::Head(received)
    }

    /// The size of the buffer for the next read.
    pub fn read_size(&self) -> (size: usize)
        requires
            waiting(self@),
        ensures
            size == read_size(self@),
    {
        match self {
            ReadState::Head(received) => MAX_HEADERS_SIZE - received.len(),
            ReadState::Body(_, _) => MAX_READ_SIZE,
        }
    }
}

/// What a read of the head leads to.
pub enum HeaderStep {
    /// The head is still incomplete; these bytes have arrived so far.
    More(Vec<u8>),
    /// The head is complete. What arrived behind it is the start of the body.
    Complete(Response),
    /// The head cannot be read.
    Failed(Error),
    /// The head is complete, but describes nothing that can be a response.
    Unusable,
}

impl View for HeaderStep {
    type V = HeaderModel;

    open spec fn view(&self) -> HeaderModel {
        match *self {
            HeaderStep::More(received) => HeaderModel::More(received@),
            HeaderStep::Complete(response) => HeaderModel::Complete(response@),
            HeaderStep::Failed(error) => HeaderModel::Failed(error),
            HeaderStep::Unusable => HeaderModel::Unusable,
        }
    }
}

/// Whether two responses have the same head, and of their bodies one starts with the other.
pub open spec fn same_head(response: ResponseModel, other: ResponseModel) -> bool {
    &&& ResponseModel { body: Seq::empty(), ..response } == ResponseModel {
        body: Seq::empty(),
        ..other
    }
    &&& response.body.is_prefix_of(other.body) || other.body.is_prefix_of(response.body)
}

/// Whether the head that is complete with these bytes does not rest on how they were split into
/// reads: on every connection with the same bytes, as far as they have arrived, a complete head
/// is the same one.
pub open spec fn however_split(response: ResponseModel, bytes: Seq<u8>) -> bool {
    forall|received: Seq<u8>, last: Seq<u8>|
        #![trigger header_step(received, Ok(last))]
        (received + last).is_prefix_of(bytes) || bytes.is_prefix_of(received + last) ==> (
        header_step(received, Ok(last)) matches HeaderModel::Complete(other) ==> same_head(
            response,
            other,
        ))
}

/// A head that rests on its own bytes alone is the same however they were split.
proof fn lemma_however_split(bytes: Seq<u8>, head: ResponseHeadModel)
    requires
        response_head(bytes, MAX_NUM_HEADERS as nat) == Ok::<
            Option<ResponseHeadModel>,
            httparse::Error,
        >(Some(head)),
        head.len <= bytes.len(),
        built(head) is Some,
        response_ends_itself(
            bytes,
            MAX_NUM_HEADERS as nat,
            response_head(bytes, MAX_NUM_HEADERS as nat),
        ),
    ensures
        however_split(with_more(built(head)->0, behind(bytes, head.len)), bytes),
{
    let response = with_more(built(head)->0, behind(bytes, head.len));
    assert forall|received: Seq<u8>, last: Seq<u8>|
        #![trigger header_step(received, Ok(last))]
        (received + last).is_prefix_of(bytes) || bytes.is_prefix_of(received + last) implies (
    header_step(received, Ok(last)) matches HeaderModel::Complete(other) ==> same_head(
        response,
        other,
    )) by {
        let other_bytes = received + last;
        if let HeaderModel::Complete(other) = header_step(received, Ok(last)) {
            if bytes.is_prefix_of(other_bytes) {
                assert(bytes.take(head.len as int).is_prefix_of(other_bytes));
                assert(behind(bytes, head.len).is_prefix_of(behind(other_bytes, head.len)));
            } else {
                assert(behind(other_bytes, head.len).is_prefix_of(behind(bytes, head.len)));
            }
            assert(response_head(other_bytes, MAX_NUM_HEADERS as nat) == response_head(
                bytes,
                MAX_NUM_HEADERS as nat,
            ));
            assert(response.body =~= behind(bytes, head.len));
            assert(other.body =~= behind(other_bytes, head.len));
        }
    }
}

/// Takes in one read of the head. A head is the same however its bytes were split into reads.
pub fn read_headers(received: Vec<u8>, read: Incoming) -> (step: HeaderStep)
    requires
        read matches Ok(bytes) ==> received@.len() + bytes@.len() <= MAX_HEADERS_SIZE,
    ensures
        step@ == header_step(received@, incoming(read)),
        step@ matches HeaderModel::Complete(response) ==> response.body.len() <= MAX_HEADERS_SIZE
            && however_split(response, received@ + incoming(read)->Ok_0),
{
    match read {
        Err(error) => HeaderStep::Failed(Error::ConnectionError(error)),
        Ok(bytes) => {
            if bytes.len() == 0 {
                return HeaderStep::Failed(Error::IncompleteResponse);
            }
            let mut buffer = received;
            put_bytes(&mut buffer, bytes.as_slice());
            if !is_buildable(buffer.as_slice()) {
                return HeaderStep::Unusable;
            }
            match parse_response(buffer.as_slice()) {
                Err(error) => HeaderStep::Failed(error),
                Ok(None) => HeaderStep::More(buffer),
                Ok(Some((mut response, len))) => {
                    let ghost bare = response@;
                    let rest = vstd::slice::slice_subrange(buffer.as_slice(), len, buffer.len());
                    put_bytes(&mut response.body, rest);
                    proof {
                        let head = response_head(buffer@, MAX_NUM_HEADERS as nat)->Ok_0->0;
                        lemma_however_split(buffer@, head);
                        assert(response@ =~= with_more(bare, behind(buffer@, head.len)));
                    }
                    HeaderStep::Complete(response)
                },
            }
        },
    }
}

/// Decides whether a body has the length that it is to have.
fn check_body(response: Response, content_length: Option<usize>) -> (step: ReadStep)
    ensures
        step@ == until(response@, content_length),
{
    match content_length {
        Some(length) => if response.body.len() < length {
            ReadStep::Read(ReadState::Body(response, content_length))
        } else if response.body.len() == length {
            ReadStep::Done(response)
        } else {
            ReadStep::Failed(Error::ContentLengthMismatch)
        },
        None => ReadStep::Read(ReadState::Body(response, content_length)),
    }
}

/// Takes in one read of a body.
pub fn read_body(response: Response, content_length: Option<usize>, read: Incoming) -> (step:
    ReadStep)
    ensures
        step@ == body_step(response@, content_length, incoming(read)),
{
    if let Some(length) = content_length {
        if response.body.len() >= length {
            return check_body(response, content_length);
        }
    }
    match read {
        Err(error) => ReadStep::Failed(Error::ConnectionError(error)),
        Ok(bytes) => {
            let mut response = response;
            if bytes.len() == 0 {
                return match content_length {
                    None => ReadStep::Done(response),
                    Some(_) => ReadStep::Failed(Error::ContentLengthMismatch),
                };
            }
            if let Some(length) = content_length {
                if bytes.len() > length - response.body.len() {
                    return ReadStep::Failed(Error::ContentLengthMismatch);
                }
            }
            if response.body.len() > MAX_BODY_SIZE || bytes.len() > MAX_BODY_SIZE
                - response.body.len() {
                return ReadStep::Failed(Error::ResponseBodyTooLarge);
            }
            put_bytes(&mut response.body, bytes.as_slice());
            check_body(response, content_length)
        },
    }
}

/// Tells how the reading of the response to a request with this method goes on once its head is
/// complete.
pub fn after_header(request_method: &String, response: Response) -> (step: ReadStep)
    ensures
        step@ == after_head(request_method@, response@),
{
    let head = "HEAD".to_owned();
    if *request_method == head || response.status < 200 || response.status == 204
        || response.status == 304 {
        return ReadStep::Done(response);
    }
    match get_content_length(&response) {
        Err(error) => ReadStep::Failed(error),
        Ok(length) => check_body(response, length),
    }
}

/// Takes in one read from an upstream server that answers a request with this method, and
/// tells how the reading of its response goes on.
pub fn read_from_stream(state: ReadState, request_method: &String, read: Incoming) -> (step:
    ReadStep)
    requires
        waiting(state@),
        read matches Ok(bytes) ==> bytes@.len() <= read_size(state@),
    ensures
        step@ == read_step(request_method@, state@, incoming(read)),
        step@ matches StepModel::Read(next) ==> waiting(next),
        step@ matches StepModel::Done(response) ==> is_status(response.status),
{
    match state {
        ReadState::Body(response, content_length) => read_body(response, content_length, read),
        ReadState::Head(received) => match read_headers(received, read) {
            HeaderStep::More(buffer) => ReadStep::Read(ReadState::Head(buffer)),
            HeaderStep::Failed(error) => ReadStep::Failed(error),
            HeaderStep::Unusable => ReadStep::Unusable,
            HeaderStep::Complete(response) => after_header(request_method, response),
        },
    }
}

/// What a series of reads from an upstream server leads to, after it was sent a request with
/// this method.
pub open spec fn run(request_method: Seq<char>, reads: Seq<IncomingModel>) -> StepModel
    decreases reads.len(),
{
    if reads.len() == 0 {
        StepModel::Read(StateModel::Head(Seq::empty()))
    } else {
        match run(request_method, reads.drop_last()) {
            StepModel::Read(state) => read_step(request_method, state, reads.last()),
            over => over,
        }
    }
}

/// Whether each of these reads was still waited for, and brought in no more than was asked.
pub open spec fn history(request_method: Seq<char>, reads: Seq<IncomingModel>) -> bool
    decreases reads.len(),
{
    reads.len() > 0 ==> history(request_method, reads.drop_last()) && match run(
        request_method,
        reads.drop_last(),
    ) {
        StepModel::Read(state) => reads.last() matches Ok(bytes) ==> bytes.len() <= read_size(
            state,
        ),
        _ => false,
    }
}

/// Whether `response` is what the bytes on a connection stand for, where its head was complete
/// after the first `k` of them: its head is the one found there, and its body is every byte
/// that followed the head.
pub open spec fn came_from(response: ResponseModel, bytes: Seq<u8>, k: int) -> bool {
    &&& 0 <= k <= bytes.len()
    &&& response_head(bytes.take(k), MAX_NUM_HEADERS as nat) matches Ok(Some(head)) && built(head)
        == Some(ResponseModel { body: Seq::empty(), ..response }) && response.body == behind(
        bytes.take(k),
        head.len,
    ) + bytes.skip(k)
}

/// A response whose head has just become complete is what all bytes so far stand for.
proof fn lemma_complete_head(received: Seq<u8>, bytes: Seq<u8>)
    requires
        header_step(received, Ok(bytes)) is Complete,
    ensures
        came_from(
            header_step(received, Ok(bytes))->Complete_0,
            received + bytes,
            (received + bytes).len() as int,
        ),
        header_step(received, Ok(bytes))->Complete_0.body.len() <= (received + bytes).len(),
{
    let all = received + bytes;
    let k = all.len() as int;
    let response = header_step(received, Ok(bytes))->Complete_0;
    assert(all.take(k) =~= all);
    assert(all.skip(k) =~= Seq::<u8>::empty());
    let head = response_head(all, MAX_NUM_HEADERS as nat)->Ok_0->0;
    assert(built(head)->0 =~= ResponseModel { body: Seq::empty(), ..response });
    assert(response.body =~= behind(all.take(k), head.len) + all.skip(k));
}

/// No byte is lost or taken twice: at every point of the reading of a response, what has
/// arrived is the head so far, or a complete head and the body so far.
pub proof fn law_reading_keeps_bytes(request_method: Seq<char>, reads: Seq<IncomingModel>)
    requires
        history(request_method, reads),
    ensures
        match run(request_method, reads) {
            StepModel::Read(StateModel::Head(received)) => received == total(reads),
            StepModel::Read(StateModel::Body(response, _)) => exists|k: int|
                came_from(response, total(reads), k),
            StepModel::Done(response) => exists|k: int| came_from(response, total(reads), k),
            _ => true,
        },
    decreases reads.len(),
{
    if reads.len() > 0 {
        let before = reads.drop_last();
        law_reading_keeps_bytes(request_method, before);
        match run(request_method, before) {
            StepModel::Read(StateModel::Head(received)) => {
                if let Ok(bytes) = reads.last() {
                    assert(total(reads) == received + bytes);
                    if header_step(received, Ok(bytes)) is Complete {
                        lemma_complete_head(received, bytes);
                    }
                }
            },
            StepModel::Read(StateModel::Body(response, _)) => {
                if let Ok(bytes) = reads.last() {
                    let old_all = total(before);
                    let all = total(reads);
                    let k = choose|k: int| came_from(response, old_all, k);
                    let longer = with_more(response, bytes);
                    assert(all.take(k) =~= old_all.take(k));
                    assert(all.skip(k) =~= old_all.skip(k) + bytes);
                    let head = response_head(all.take(k), MAX_NUM_HEADERS as nat)->Ok_0->0;
                    assert(longer.body =~= behind(all.take(k), head.len) + all.skip(k));
                    assert((ResponseModel { body: Seq::empty(), ..longer }) =~= ResponseModel {
                        body: Seq::empty(),
                        ..response
                    });
                    assert(came_from(longer, all, k));
                    if bytes.len() == 0 {
                        assert(longer =~= response);
                    }
                }
            },
            _ => {},
        }
    }
}

/// The reader never waits for more than it has room for. It waits for the body only of a
/// response that has one, up to the length that the response declares.
pub proof fn law_reading_waits(request_method: Seq<char>, reads: Seq<IncomingModel>)
    requires
        history(request_method, reads),
    ensures
        run(request_method, reads) matches StepModel::Read(state) ==> waiting(state) && (
        state matches StateModel::Body(response, length) ==> !is_bodiless(
            request_method,
            response.status,
        ) && content_length(response.fields) == Ok::<Option<usize>, ()>(length)),
    decreases reads.len(),
{
    if reads.len() > 0 {
        let before = reads.drop_last();
        law_reading_waits(request_method, before);
        if let StepModel::Read(StateModel::Head(received)) = run(request_method, before) {
            if let Ok(bytes) = reads.last() {
                if header_step(received, Ok(bytes)) is Complete {
                    lemma_complete_head(received, bytes);
                }
            }
        }
    }
}

/// A response that has a body is delivered only with one of the declared length, or, where
/// none is declared, only once the server has hung up. A response without a body is delivered
/// as soon as its head is complete, with what had arrived by then. No body is larger than
/// `MAX_BODY_SIZE`.
pub proof fn law_delivered_length(request_method: Seq<char>, reads: Seq<IncomingModel>)
    requires
        history(request_method, reads),
        run(request_method, reads) is Done,
    ensures
        run(request_method, reads) matches StepModel::Done(response) && response.body.len()
            <= MAX_BODY_SIZE && if is_bodiless(request_method, response.status) {
            came_from(response, total(reads), total(reads).len() as int)
        } else {
            match content_length(response.fields) {
                Ok(Some(length)) => response.body.len() == length,
                Ok(None) => reads.last() matches Ok(bytes) && bytes.len() == 0,
                Err(_) => false,
            }
        },
{
    let before = reads.drop_last();
    law_reading_waits(request_method, before);
    law_reading_keeps_bytes(request_method, before);
    if let StepModel::Read(StateModel::Head(received)) = run(request_method, before) {
        let bytes = reads.last()->Ok_0;
        assert(total(reads) == received + bytes);
        lemma_complete_head(received, bytes);
    }
}

/// Reading comes to an end: while the reader waits, each read has brought in something, and
/// all of them together no more than the room for a head and the largest body.
pub proof fn law_reading_ends(request_method: Seq<char>, reads: Seq<IncomingModel>)
    requires
        history(request_method, reads),
    ensures
        run(request_method, reads) matches StepModel::Read(state) ==> reads.len() <= total(
            reads,
        ).len() && (state matches StateModel::Body(response, _) ==> total(reads).len()
            <= MAX_HEADERS_SIZE + response.body.len()) && total(reads).len() <= MAX_HEADERS_SIZE
            + MAX_BODY_SIZE,
    decreases reads.len(),
{
    if reads.len() > 0 {
        law_reading_ends(request_method, reads.drop_last());
        law_reading_waits(request_method, reads.drop_last());
        law_reading_keeps_bytes(request_method, reads.drop_last());
    }
    law_reading_waits(request_method, reads);
    law_reading_keeps_bytes(request_method, reads);
}

/// The reason phrase of a status code; empty where there is none.
pub open spec fn reason_text(status: u16) -> Seq<char> {
    match canonical_reason(status) {
        Some(text) => text,
        None => Seq::empty(),
    }
}

/// Gives the reason phrase of a status code.
fn reason_or_empty(status: u16) -> (text: &'static str)
    requires
        is_status(status),
    ensures
        text@ == reason_text(status),
{
    match reason_phrase(status) {
        Some(text) => text,
        None => {
            proof {
                reveal_strlit("");
            }
            assert(""@ =~= Seq::<char>::empty());
            ""
        },
    }
}

/// The first line of a response with this reason phrase: its version, then its status code
/// behind a space and a comma, and the phrase.
pub open spec fn line_of(response: ResponseModel, reason: Seq<char>) -> Seq<char> {
    version_text(response.version) + " ,"@ + decimal(response.status as nat) + " "@ + reason
}

/// The first line of a response.
pub open spec fn response_line(response: ResponseModel) -> Seq<char> {
    line_of(response, reason_text(response.status))
}

/// Writes the first line of a response with this reason phrase as text, without its line end.
pub fn response_line_with(response: &Response, reason: &str) -> (line: String)
    ensures
        line@ == line_of(response@, reason@),
{
    let mut line = response.version.as_str().to_owned();
    line.append(" ,");
    let code = decimal_text(response.status as usize);
    line.append(code.as_str());
    line.append(" ");
    line.append(reason);
    line
}

/// Writes the first line of a response as text, without its line end.
pub fn format_response_line(response: &Response) -> (line: String)
    requires
        is_status(response.status),
    ensures
        line@ == response_line(response@),
{
    response_line_with(response, reason_or_empty(response.status))
}

/// A response as it is sent with this reason phrase: its first line, its header, an empty line
/// and its body.
pub open spec fn bytes_of(response: ResponseModel, reason: Seq<char>) -> Seq<u8> {
    head_bytes(line_of(response, reason), response.fields) + response.body
}

/// A response as it is sent.
pub open spec fn response_bytes(response: ResponseModel) -> Seq<u8> {
    bytes_of(response, reason_text(response.status))
}

/// Writes a response with this reason phrase to the end of an output.
pub fn write_with(response: &Response, reason: &str, stream: &mut Vec<u8>)
    ensures
        final(stream)@ == old(stream)@ + bytes_of(response@, reason@),
{
    let line = response_line_with(response, reason);
    put_text(stream, line.as_str());
    put_crlf(stream);
    put_fields(stream, &response.headers);
    put_crlf(stream);
    if response.body.len() > 0 {
        put_bytes(stream, response.body.as_slice());
    }
    assert(stream@ =~= old(stream)@ + bytes_of(response@, reason@));
}

/// Writes a response to the end of an output.
pub fn write_to_stream(response: &Response, stream: &mut Vec<u8>)
    requires
        is_status(response.status),
    ensures
        final(stream)@ == old(stream)@ + response_bytes(response@),
{
    write_with(response, reason_or_empty(response.status), stream);
}

/// The text that tells a client of an error, with this reason phrase.
pub open spec fn error_text(status: u16, reason: Seq<char>) -> Seq<char> {
    "HTTP "@ + decimal(status as nat) + ", "@ + reason
}

/// The response that tells a client of an error, with this reason phrase.
pub open spec fn error_of(status: u16, reason: Seq<char>) -> ResponseModel {
    let body = encode_utf8(error_text(status, reason));
    ResponseModel {
        version: Version::Http11,
        status,
        fields: seq![
            ("content-type"@, encode_utf8("test/plain"@)),
            ("content-length"@, encode_utf8(decimal(body.len()))),
        ],
        body,
    }
}

/// The response that tells a client of an error.
pub open spec fn http_error(status: u16) -> ResponseModel {
    error_of(status, reason_text(status))
}

/// The header fields of an error response can stand in a header.
proof fn lemma_error_fields(length: nat)
    ensures
        is_header_name("Content-Type"@),
        lower("Content-Type"@) == "content-type"@,
        is_header_name("Content-Length"@),
        lower("Content-Length"@) == "content-length"@,
        "content-type"@ != "content-length"@,
        is_header_value(encode_utf8("test/plain"@)),
        is_header_value(encode_utf8(decimal(length))),
{
    reveal_strlit("Content-Type");
    reveal_strlit("Content-Length");
    reveal_strlit("content-type");
    reveal_strlit("content-length");
    reveal_strlit("test/plain");
    assert(lower("Content-Type"@) =~= "content-type"@);
    assert(lower("Content-Length"@) =~= "content-length"@);
    assert("content-type"@.len() != "content-length"@.len());
    let plain = "test/plain"@;
    assert(is_ascii_chars(plain));
    is_ascii_chars_encode_utf8(plain);
    assert forall|i: int| 0 <= i < encode_utf8(plain).len() implies is_value_byte(
        #[trigger] encode_utf8(plain)[i],
    ) by {
        assert(plain[i] as u8 == encode_utf8(plain)[i]);
    }
    lemma_decimal_digits(length);
    assert forall|i: int| 0 <= i < encode_utf8(decimal(length)).len() implies is_value_byte(
        #[trigger] encode_utf8(decimal(length))[i],
    ) by {
        assert(is_digit(encode_utf8(decimal(length))[i]));
    }
}

/// Makes the response that tells a client of an error.
pub fn make_http_error(status: u16) -> (response: Response)
    requires
        is_status(status),
    ensures
        response@ == http_error(status),
{
    make_error_with(status, reason_or_empty(status))
}

/// Makes the response that tells a client of an error, with this reason phrase.
pub fn make_error_with(status: u16, reason: &str) -> (response: Response)
    ensures
        response@ == error_of(status, reason@),
{
    let mut text = "HTTP ".to_owned();
    let code = decimal_text(status as usize);
    text.append(code.as_str());
    text.append(", ");
    text.append(reason);
    let mut body: Vec<u8> = Vec::new();
    put_text(&mut body, text.as_str());
    assert(body@ =~= encode_utf8(error_text(status, reason@)));

    let mut headers = new_headers();
    let length = decimal_text(body.len());
    let ghost first = ("content-type"@, encode_utf8("test/plain"@));
    let ghost second = ("content-length"@, encode_utf8(decimal(body@.len())));
    proof {
        lemma_error_fields(body@.len());
        lemma_names_bound(header_fields(headers));
    }
    append_field(&mut headers, "Content-Type", "test/plain".as_bytes());
    assert(header_fields(headers) =~= seq![first]);
    proof {
        lemma_names_bound(header_fields(headers));
        assert(header_fields(headers).drop_first() =~= Seq::<Field>::empty());
        assert(first_value(header_fields(headers).drop_first(), "content-length"@) is None);
        assert(first_value(header_fields(headers), "content-length"@) is None);
    }
    append_field(&mut headers, "Content-Length", length.as_str().as_bytes());
    assert(header_fields(headers) =~= seq![first, second]);
    Response { version: Version::Http11, status, headers, body }
}

/// An error response declares the length that its body has.
pub proof fn law_error_length(status: u16, reason: Seq<char>)
    requires
        error_of(status, reason).body.len() <= usize::MAX,
    ensures
        content_length(error_of(status, reason).fields) == Ok::<Option<usize>, ()>(
            Some(error_of(status, reason).body.len() as usize),
        ),
{
    let fields = error_of(status, reason).fields;
    let length = error_of(status, reason).body.len() as usize;
    lemma_error_fields(length as nat);
    law_decimal_round_trip(length);
    assert(fields.drop_first()[0] == ("content-length"@, encode_utf8(decimal(length as nat))));
    assert(first_value(fields.drop_first(), "content-length"@) == Some(
        encode_utf8(decimal(length as nat)),
    ));
}

} // verus!
