//! HTTP requests: reading them from a client and writing them to an upstream server.

use crate::head::{
    head_bytes, is_plain, is_target, parse_method, parse_request_head, parse_uri,
    request_ends_itself, request_head, starts_with, uri_text, RequestHead, RequestHeadModel,
    MAX_URI_LEN,
};
use crate::headers::{
    all_valid, collect_fields, collected, content_length, declared_length, first_value, get_value,
    header_fields, insert_field, inserted, is_grouped, is_header_name, is_header_value, is_token,
    is_trimmed, is_value_byte, law_inserted, lemma_collect_grouped, lemma_collected,
    lemma_collected_len, lemma_inserted_grouped, lemma_value_of, lower, names, put_fields, without,
    Field, MAX_SURE_NAMES,
};
use crate::stream::{
    behind, incoming, put_bytes, put_crlf, put_text, total, Incoming, IncomingModel,
};
use crate::version::{version_text, Version};
use vstd::prelude::*;
use vstd::string::*;
use vstd::utf8::*;

verus! {

/// The largest request body that is accepted.
pub const MAX_BODY_SIZE: usize = 10000;

/// The most header fields that a request may have.
pub const MAX_NUM_HEADERS: usize = 32;

/// The room for the head of a request.
pub const MAX_HEADERS_SIZE: usize = 8000;

/// The most bytes of a body that are read at a time.
pub const MAX_READ_SIZE: usize = 512;

/// Why a request could not be read.
#[derive(Debug)]
pub enum Error {
    /// The client hung up before it sent a complete request. Holds the number of bytes that
    /// had arrived by then.
    IncompleteRequest(usize),
    /// The client sent something that is no HTTP request.
    MalformedRequest(httparse::Error),
    /// The Content-Length header is present, but does not hold a number.
    InvalidContentLength,
    /// The Content-Length header does not match the size of the body that was sent.
    ContentLengthMismatch,
    /// The body is larger than `MAX_BODY_SIZE`.
    RequestBodyTooLarge,
    /// Reading from the connection failed.
    ConnectionError(std::io::Error),
}

/// An HTTP request.
#[derive(Debug)]
pub struct Request {
    pub method: String,
    pub uri: String,
    pub version: Version,
    pub headers: http::HeaderMap<http::HeaderValue>,
    pub body: Vec<u8>,
}

/// The model of a request.
#[verifier::ext_equal]
pub struct RequestModel {
    pub method: Seq<char>,
    pub uri: Seq<char>,
    pub version: Version,
    pub fields: Seq<Field>,
    pub body: Seq<u8>,
}

impl View for Request {
    type V = RequestModel;

    open spec fn view(&self) -> RequestModel {
        RequestModel {
            method: self.method@,
            uri: self.uri@,
            version: self.version,
            fields: header_fields(self.headers),
            body: self.body@,
        }
    }
}

/// Reads the length that a request declares for its body.
pub fn get_content_length(request: &Request) -> (length: Result<Option<usize>, Error>)
    ensures
        match content_length(request@.fields) {
            Ok(declared) => length == Ok::<Option<usize>, Error>(declared),
            Err(_) => length == Err::<Option<usize>, Error>(Error::InvalidContentLength),
        },
{
    match declared_length(&request.headers) {
        Ok(declared) => Ok(declared),
        Err(_) => Err(Error::InvalidContentLength),
    }
}

/// The request that a head describes, with an empty body: an HTTP/1.1 request with the head's
/// method, its fields and the URI that its target stands for. There is none where the method
/// is no token, the target is no URI or a field cannot stand in a header.
pub open spec fn built(head: RequestHeadModel, uri: Option<Seq<char>>) -> Option<RequestModel> {
    if is_token(head.method) && uri is Some && all_valid(head.fields) {
        Some(
            RequestModel {
                method: head.method,
                uri: uri->0,
                version: Version::Http11,
                fields: collected(head.fields),
                body: Seq::empty(),
            },
        )
    } else {
        None
    }
}

/// The text of an optional string.
pub open spec fn text_of(text: Option<String>) -> Option<Seq<char>> {
    match text {
        Some(text) => Some(text@),
        None => None,
    }
}

/// Builds a request from its head and the URI that was read from its target.
pub fn build_request(head: RequestHead, uri: Option<String>) -> (request: Option<Request>)
    requires
        head.fields@.len() <= MAX_SURE_NAMES,
    ensures
        match request {
            Some(request) => built(head@, text_of(uri)) == Some(request@) && request@.fields.len()
                == head.fields@.len(),
            None => built(head@, text_of(uri)) is None,
        },
{
    proof {
        lemma_collected_len(head@.fields);
    }
    match (parse_method(head.method.as_str()), uri, collect_fields(&head.fields)) {
        (Some(method), Some(uri), Some(headers)) => {
            let request = Request {
                method,
                uri,
                version: Version::Http11,
                headers,
                body: Vec::new(),
            };
            assert(request@.body =~= Seq::<u8>::empty());
            Some(request)
        },
        _ => None,
    }
}

/// Whether the head at the start of `buffer`, where there is one, describes a request.
pub open spec fn buildable(buffer: Seq<u8>) -> bool {
    request_head(buffer, MAX_NUM_HEADERS as nat) matches Ok(Some(head)) ==> built(
        head,
        uri_text(head.path),
    ) is Some
}

/// Whether a request can be read back once it is written: it is an HTTP/1.1 request with a
/// method, a URI and header fields as they can be sent, and no more fields than are accepted.
pub open spec fn is_readable(request: RequestModel) -> bool {
    &&& is_plain(request.method, request.uri, request.fields)
    &&& uri_text(request.uri) == Some(request.uri)
    &&& request.version == Version::Http11
    &&& all_valid(request.fields)
    &&& is_grouped(request.fields)
    &&& request.fields.len() <= MAX_NUM_HEADERS
}

/// The head of a request that can be read back.
pub open spec fn written_head(request: RequestModel) -> RequestHeadModel {
    RequestHeadModel {
        method: request.method,
        path: request.uri,
        fields: request.fields,
        len: head_bytes(request_line(request), request.fields).len(),
    }
}

/// A written request starts with its head, and the head describes the request again.
proof fn lemma_written_head(request: RequestModel)
    requires
        is_readable(request),
    ensures
        starts_with(request_bytes(request), written_head(request)),
        built(written_head(request), uri_text(request.uri)) == Some(
            RequestModel { body: Seq::empty(), ..request },
        ),
        behind(request_bytes(request), written_head(request).len) == request.body,
{
    let bytes = head_bytes(request_line(request), request.fields);
    assert(request_bytes(request) =~= bytes + request.body);
    assert(bytes.is_prefix_of(request_bytes(request)));
    assert(behind(request_bytes(request), bytes.len()) =~= request.body);
    lemma_collect_grouped(request.fields);
}

/// A request that was built from a plain head can be read back.
proof fn lemma_built_readable(head: RequestHeadModel, uri: Seq<char>)
    requires
        built(head, Some(uri)) is Some,
        is_plain(head.method, head.path, head.fields),
        head.fields.len() <= MAX_NUM_HEADERS,
        is_target(uri),
        uri_text(uri) == Some(uri),
    ensures
        is_readable(built(head, Some(uri))->0),
{
    lemma_collected(head.fields);
    lemma_collected_len(head.fields);
}

/// A buffer that is a written request starts with its head.
proof fn lemma_written_heads(buffer: Seq<u8>)
    ensures
        forall|written: RequestModel| #[trigger]
            request_bytes(written) == buffer && is_readable(written) ==> starts_with(
                buffer,
                written_head(written),
            ) && built(written_head(written), uri_text(written.uri)) is Some,
{
    assert forall|written: RequestModel| #[trigger]
        request_bytes(written) == buffer && is_readable(written) implies starts_with(
        buffer,
        written_head(written),
    ) && built(written_head(written), uri_text(written.uri)) is Some by {
        lemma_written_head(written);
    }
}

/// Tells whether the head at the start of `buffer`, where there is one, describes a request.
pub fn is_buildable(buffer: &[u8]) -> (possible: bool)
    ensures
        possible == buildable(buffer@),
        forall|written: RequestModel| #[trigger]
            request_bytes(written) == buffer@ && is_readable(written) ==> possible,
{
    proof {
        lemma_written_heads(buffer@);
    }
    match parse_request_head(buffer, MAX_NUM_HEADERS) {
        Ok(Some(head)) => {
            let uri = parse_uri(head.path.as_str());
            build_request(head, uri).is_some()
        },
        _ => true,
    }
}

/// Looks for a request head at the start of `buffer`. Once it is complete, gives the request
/// without a body, and the length of the head. What follows the head has no influence. What is
/// written of a request that was found here, with whatever body, is found again as that request.
pub fn parse_request(buffer: &[u8]) -> (parsed: Result<Option<(Request, usize)>, Error>)
    requires
        buildable(buffer@),
    ensures
        match request_head(buffer@, MAX_NUM_HEADERS as nat) {
            Ok(Some(head)) => parsed matches Ok(Some((request, len))) && built(
                head,
                uri_text(head.path),
            ) == Some(request@) && len == head.len && len <= buffer@.len() && request@.fields.len()
                <= MAX_NUM_HEADERS,
            Ok(None) => parsed matches Ok(None),
            Err(error) => parsed == Err::<Option<(Request, usize)>, Error>(
                Error::MalformedRequest(error),
            ),
        },
        parsed matches Ok(Some((_, len))) ==> len > 0,
        request_ends_itself(
            buffer@,
            MAX_NUM_HEADERS as nat,
            request_head(buffer@, MAX_NUM_HEADERS as nat),
        ),
        parsed matches Ok(Some((request, _))) ==> encode_utf8(request@.uri).len() <= buffer@.len()
            && (encode_utf8(request@.uri).len() <= MAX_URI_LEN ==> is_readable(request@)),
        forall|written: RequestModel| #[trigger]
            request_bytes(written) == buffer@ && is_readable(written) ==> (parsed matches Ok(
                Some((request, len)),
            ) && request@ == (RequestModel { body: Seq::empty(), ..written }) && behind(
                buffer@,
                len as nat,
            ) == written.body),
{
    proof {
        lemma_written_heads(buffer@);
    }
    match parse_request_head(buffer, MAX_NUM_HEADERS) {
        Ok(Some(head)) => {
            let len: usize = head.len;
            let ghost model = head@;
            let uri = parse_uri(head.path.as_str());
            match build_request(head, uri) {
                Some(request) => {
                    proof {
                        if encode_utf8(request@.uri).len() <= MAX_URI_LEN {
                            lemma_built_readable(model, request@.uri);
                        }
                        assert forall|written: RequestModel| #[trigger]
                            request_bytes(written) == buffer@ && is_readable(written) implies
                            request@ == (RequestModel { body: Seq::empty(), ..written }) && behind(
                            buffer@,
                            len as nat,
                        ) == written.body by {
                            lemma_written_head(written);
                        }
                    }
                    Ok(Some((request, len)))
                },
                None => Ok(None),
            }
        },
        Ok(None) => Ok(None),
        Err(error) => Err(Error::MalformedRequest(error)),
    }
}

/// What the reader of a request waits for.
pub enum ReadState {
    /// More of the head; these bytes have arrived so far.
    Head(Vec<u8>),
    /// More of the body of this request, up to this length.
    Body(Request, usize),
}

/// What a read leads to.
pub enum ReadStep {
    /// More has to be read.
    Read(ReadState),
    /// The request is complete.
    Done(Request),
    /// The request cannot be read.
    Failed(Error),
    /// The head is complete, but describes nothing that can be a request.
    Unusable,
}

/// The model of `ReadState`.
pub enum StateModel {
    Head(Seq<u8>),
    Body(RequestModel, nat),
}

/// The model of `ReadStep`.
pub enum StepModel {
    Read(StateModel),
    Done(RequestModel),
    Failed(Error),
    Unusable,
}

impl View for ReadState {
    type V = StateModel;

    open spec fn view(&self) -> StateModel {
        match *self {
            ReadState::Head(received) => StateModel::Head(received@),
            ReadState::Body(request, length) => StateModel::Body(request@, length as nat),
        }
    }
}

impl View for ReadStep {
    type V = StepModel;

    open spec fn view(&self) -> StepModel {
        match *self {
            ReadStep::Read(state) => StepModel::Read(state@),
            ReadStep::Done(request) => StepModel::Done(request@),
            ReadStep::Failed(error) => StepModel::Failed(error),
            ReadStep::Unusable => StepModel::Unusable,
        }
    }
}

/// What holds of a state in which the reader waits: a head never outgrows its room, and a
/// body is waited for only while it is short of an acceptable length.
pub open spec fn waiting(state: StateModel) -> bool {
    match state {
        StateModel::Head(received) => received.len() <= MAX_HEADERS_SIZE,
        StateModel::Body(request, length) => request.body.len() < length <= MAX_BODY_SIZE,
    }
}

/// How many header fields the reader holds on to.
pub open spec fn fields_held(state: StateModel) -> nat {
    match state {
        StateModel::Head(_) => 0,
        StateModel::Body(request, _) => request.fields.len(),
    }
}

/// Whether the request whose body the reader waits for can be read back. Without a request there
/// is nothing to hold against it.
pub open spec fn holds_readable(state: StateModel) -> bool {
    state matches StateModel::Body(request, _) ==> is_readable(request)
}

/// How many bytes the next read asks for.
pub open spec fn read_size(state: StateModel) -> nat {
    match state {
        StateModel::Head(received) => (MAX_HEADERS_SIZE - received.len()) as nat,
        StateModel::Body(_, length) => if length < MAX_READ_SIZE {
            length
        } else {
            MAX_READ_SIZE as nat
        },
    }
}

/// The request with more bytes in its body.
pub open spec fn with_more(request: RequestModel, bytes: Seq<u8>) -> RequestModel {
    RequestModel { body: request.body + bytes, ..request }
}

/// A request with a declared length is complete as soon as its body has that length. A body
/// that is longer does not match it.
pub open spec fn until(request: RequestModel, length: nat) -> StepModel {
    if request.body.len() < length {
        StepModel::Read(StateModel::Body(request, length))
    } else if request.body.len() == length {
        StepModel::Done(request)
    } else {
        StepModel::Failed(Error::ContentLengthMismatch)
    }
}

/// What follows a complete head: a request that declares no length is complete, with the
/// bytes that came along with the head as its body.
pub open spec fn after_head(request: RequestModel) -> StepModel {
    match content_length(request.fields) {
        Err(_) => StepModel::Failed(Error::InvalidContentLength),
        Ok(None) => StepModel::Done(request),
        Ok(Some(length)) => if length > MAX_BODY_SIZE {
            StepModel::Failed(Error::RequestBodyTooLarge)
        } else {
            until(request, length as nat)
        },
    }
}

/// What is known of a head after a read.
pub enum HeaderModel {
    More(Seq<u8>),
    Complete(RequestModel),
    Failed(Error),
    Unusable,
}

/// What a read of the head leads to. The head may arrive in any number of pieces: after each
/// of them everything that has arrived is looked at again. What arrived behind a complete
/// head is the start of the body.
pub open spec fn header_step(received: Seq<u8>, read: IncomingModel) -> HeaderModel {
    match read {
        Err(error) => HeaderModel::Failed(Error::ConnectionError(error)),
        Ok(bytes) => if bytes.len() == 0 {
            HeaderModel::Failed(Error::IncompleteRequest(received.len() as usize))
        } else {
            let buffer = received + bytes;
            match request_head(buffer, MAX_NUM_HEADERS as nat) {
                Err(error) => HeaderModel::Failed(Error::MalformedRequest(error)),
                Ok(None) => HeaderModel::More(buffer),
                Ok(Some(head)) => match built(head, uri_text(head.path)) {
                    None => HeaderModel::Unusable,
                    Some(request) => HeaderModel::Complete(
                        with_more(request, behind(buffer, head.len)),
                    ),
                },
            }
        },
    }
}

/// What a read of the body leads to: neither no bytes nor too many are acceptable. A body that
/// is not shorter than its length needs no read: it is taken or refused as it stands.
pub open spec fn body_step(request: RequestModel, length: nat, read: IncomingModel) -> StepModel {
    if request.body.len() >= length {
        until(request, length)
    } else {
        match read {
            Err(error) => StepModel::Failed(Error::ConnectionError(error)),
            Ok(bytes) => if bytes.len() == 0 {
                StepModel::Failed(Error::ContentLengthMismatch)
            } else {
                until(with_more(request, bytes), length)
            },
        }
    }
}

/// What a read leads to.
pub open spec fn read_step(state: StateModel, read: IncomingModel) -> StepModel {
    match state {
        StateModel::Head(received) => match header_step(received, read) {
            HeaderModel::More(buffer) => StepModel::Read(StateModel::Head(buffer)),
            HeaderModel::Complete(request) => after_head(request),
            HeaderModel::Failed(error) => StepModel::Failed(error),
            HeaderModel::Unusable => StepModel::Unusable,
        },
        StateModel::Body(request, length) => body_step(request, length, read),
    }
}

impl ReadState {
    /// The state in which nothing has arrived yet.
    pub fn new() -> (state: ReadState)
        ensures
            state@ == StateModel::Head(Seq::empty()),
            waiting(state@),
            fields_held(state@) <= MAX_NUM_HEADERS,
            holds_readable(state@),
    {
        let received: Vec<u8> = Vec::new();
        assert(received@ =~= Seq::<u8>::empty());
        ReadState::Head(received)
    }

    /// The size of the buffer for the next read.
    pub fn read_size(&self) -> (size: usize)
        requires
            waiting(self@),
        ensures
            size == read_size(self@),
    {
        match self {
            ReadState::Head(received) => MAX_HEADERS_SIZE - received.len(),
            ReadState::Body(_, length) => if *length < MAX_READ_SIZE {
                *length
            } else {
                MAX_READ_SIZE
            },
        }
    }
}

/// What a read of the head leads to.
pub enum HeaderStep {
    /// The head is still incomplete; these bytes have arrived so far.
    More(Vec<u8>),
    /// The head is complete. What arrived behind it is the start of the body.
    Complete(Request),
    /// The head cannot be read.
    Failed(Error),
    /// The head is complete, but describes nothing that can be a request.
    Unusable,
}

impl View for HeaderStep {
    type V = HeaderModel;

    open spec fn view(&self) -> HeaderModel {
        match *self {
            HeaderStep::More(received) => HeaderModel::More(received@),
            HeaderStep::Complete(request) => HeaderModel::Complete(request@),
            HeaderStep::Failed(error) => HeaderModel::Failed(error),
            HeaderStep::Unusable => HeaderModel::Unusable,
        }
    }
}

/// Whether two requests have the same head, and of their bodies one starts with the other.
pub open spec fn same_head(request: RequestModel, other: RequestModel) -> bool {
    &&& RequestModel { body: Seq::empty(), ..request } == RequestModel {
        body: Seq::empty(),
        ..other
    }
    &&& request.body.is_prefix_of(other.body) || other.body.is_prefix_of(request.body)
}

/// Whether the head that is complete with these bytes does not rest on how they were split into
/// reads: on every connection with the same bytes, as far as they have arrived, a complete head
/// is the same one.
pub open spec fn however_split(request: RequestModel, bytes: Seq<u8>) -> bool {
    forall|received: Seq<u8>, last: Seq<u8>|
        #![trigger header_step(received, Ok(last))]
        (received + last).is_prefix_of(bytes) || bytes.is_prefix_of(received + last) ==> (
        header_step(received, Ok(last)) matches HeaderModel::Complete(other) ==> same_head(
            request,
            other,
        ))
}

/// A head that rests on its own bytes alone is the same however they were split.
proof fn lemma_however_split(bytes: Seq<u8>, head: RequestHeadModel)
    requires
        request_head(bytes, MAX_NUM_HEADERS as nat) == Ok::<
            Option<RequestHeadModel>,
            httparse::Error,
        >(Some(head)),
        head.len <= bytes.len(),
        built(head, uri_text(head.path)) is Some,
        request_ends_itself(
            bytes,
            MAX_NUM_HEADERS as nat,
            request_head(bytes, MAX_NUM_HEADERS as nat),
        ),
    ensures
        however_split(
            with_more(built(head, uri_text(head.path))->0, behind(bytes, head.len)),
            bytes,
        ),
{
    let request = with_more(built(head, uri_text(head.path))->0, behind(bytes, head.len));
    assert forall|received: Seq<u8>, last: Seq<u8>|
        #![trigger header_step(received, Ok(last))]
        (received + last).is_prefix_of(bytes) || bytes.is_prefix_of(received + last) implies (
    header_step(received, Ok(last)) matches HeaderModel::Complete(other) ==> same_head(
        request,
        other,
    )) by {
        let other_bytes = received + last;
        if let HeaderModel::Complete(other) = header_step(received, Ok(last)) {
            if bytes.is_prefix_of(other_bytes) {
                assert(bytes.take(head.len as int).is_prefix_of(other_bytes));
                assert(behind(bytes, head.len).is_prefix_of(behind(other_bytes, head.len)));
            } else {
                assert(behind(other_bytes, head.len).is_prefix_of(behind(bytes, head.len)));
            }
            assert(request_head(other_bytes, MAX_NUM_HEADERS as nat) == request_head(
                bytes,
                MAX_NUM_HEADERS as nat,
            ));
            assert(request.body =~= behind(bytes, head.len));
            assert(other.body =~= behind(other_bytes, head.len));
        }
    }
}

/// Takes in one read of the head. A head is the same however its bytes were split into reads,
/// and a request that was written out is read back.
pub fn read_header(received: Vec<u8>, read: Incoming) -> (step: HeaderStep)
    requires
        read matches Ok(bytes) ==> received@.len() + bytes@.len() <= MAX_HEADERS_SIZE,
    ensures
        step@ == header_step(received@, incoming(read)),
        step@ matches HeaderModel::Complete(request) ==> request.fields.len() <= MAX_NUM_HEADERS
            && is_readable(request) && however_split(request, received@ + incoming(read)->Ok_0),
        forall|written: RequestModel| #[trigger]
            request_bytes(written) == received@ + incoming(read)->Ok_0 && is_readable(written)
                ==> (incoming(read) matches Ok(bytes) ==> (bytes.len() > 0 ==> step@
                == HeaderModel::Complete(written))),
{
    match read {
        Err(error) => HeaderStep::Failed(Error::ConnectionError(error)),
        Ok(bytes) => {
            if bytes.len() == 0 {
                return HeaderStep::Failed(Error::IncompleteRequest(received.len()));
            }
            let mut buffer = received;
            put_bytes(&mut buffer, bytes.as_slice());
            if !is_buildable(buffer.as_slice()) {
                return HeaderStep::Unusable;
            }
            match parse_request(buffer.as_slice()) {
                Err(error) => HeaderStep::Failed(error),
                Ok(None) => HeaderStep::More(buffer),
                Ok(Some((mut request, len))) => {
                    let ghost bare = request@;
                    let rest = vstd::slice::slice_subrange(buffer.as_slice(), len, buffer.len());
                    put_bytes(&mut request.body, rest);
                    proof {
                        let head = request_head(buffer@, MAX_NUM_HEADERS as nat)->Ok_0->0;
                        lemma_however_split(buffer@, head);
                        assert(request@ =~= with_more(bare, behind(buffer@, head.len)));
                        assert forall|written: RequestModel| #[trigger]
                            request_bytes(written) == buffer@ && is_readable(written) implies
                            request@ == written by {
                            assert(bare == RequestModel { body: Seq::empty(), ..written });
                            assert(request@.body =~= written.body);
                        }
                    }
                    HeaderStep::Complete(request)
                },
            }
        },
    }
}

/// Decides whether a body has the length that it is to have.
fn check_body(request: Request, content_length: usize) -> (step: ReadStep)
    ensures
        step@ == until(request@, content_length as nat),
{
    if request.body.len() < content_length {
        ReadStep::Read(ReadState::Body(request, content_length))
    } else if request.body.len() == content_length {
        ReadStep::Done(request)
    } else {
        ReadStep::Failed(Error::ContentLengthMismatch)
    }
}

/// Takes in one read of a body that is to reach `content_length` bytes.
pub fn read_body(request: Request, content_length: usize, read: Incoming) -> (step: ReadStep)
    ensures
        step@ == body_step(request@, content_length as nat, incoming(read)),
{
    if request.body.len() >= content_length {
        return check_body(request, content_length);
    }
    match read {
        Err(error) => ReadStep::Failed(Error::ConnectionError(error)),
        Ok(bytes) => {
            if bytes.len() == 0 {
                return ReadStep::Failed(Error::ContentLengthMismatch);
            }
            let mut request = request;
            put_bytes(&mut request.body, bytes.as_slice());
            check_body(request, content_length)
        },
    }
}

/// Tells how the reading of a request goes on once its head is complete.
pub fn after_header(request: Request) -> (step: ReadStep)
    ensures
        step@ == after_head(request@),
{
    match get_content_length(&request) {
        Err(error) => ReadStep::Failed(error),
        Ok(None) => ReadStep::Done(request),
        Ok(Some(length)) => if length > MAX_BODY_SIZE {
            ReadStep::Failed(Error::RequestBodyTooLarge)
        } else {
            check_body(request, length)
        },
    }
}

/// Takes in one read from a client, and tells how the reading of its request goes on. A request
/// that is delivered can be read back once it is written: this holds from a fresh reader on, and
/// every read keeps it.
pub fn read_from_stream(state: ReadState, read: Incoming) -> (step: ReadStep)
    requires
        waiting(state@),
        fields_held(state@) <= MAX_NUM_HEADERS,
        read matches Ok(bytes) ==> bytes@.len() <= read_size(state@),
    ensures
        step@ == read_step(state@, incoming(read)),
        step@ matches StepModel::Read(next) ==> waiting(next) && fields_held(next)
            <= MAX_NUM_HEADERS,
        step@ matches StepModel::Done(request) ==> request.fields.len() <= MAX_NUM_HEADERS,
        holds_readable(state@) ==> match step@ {
            StepModel::Read(next) => holds_readable(next),
            StepModel::Done(request) => is_readable(request),
            _ => true,
        },
{
    match state {
        ReadState::Body(request, content_length) => read_body(request, content_length, read),
        ReadState::Head(received) => match read_header(received, read) {
            HeaderStep::More(buffer) => ReadStep::Read(ReadState::Head(buffer)),
            HeaderStep::Failed(error) => ReadStep::Failed(error),
            HeaderStep::Unusable => ReadStep::Unusable,
            HeaderStep::Complete(request) => after_header(request),
        },
    }
}

/// What a series of reads from a fresh connection leads to.
pub open spec fn run(reads: Seq<IncomingModel>) -> StepModel
    decreases reads.len(),
{
    if reads.len() == 0 {
        StepModel::Read(StateModel::Head(Seq::empty()))
    } else {
        match run(reads.drop_last()) {
            StepModel::Read(state) => read_step(state, reads.last()),
            over => over,
        }
    }
}

/// Whether each of these reads was still waited for, and brought in no more than was asked.
pub open spec fn history(reads: Seq<IncomingModel>) -> bool
    decreases reads.len(),
{
    reads.len() > 0 ==> history(reads.drop_last()) && match run(reads.drop_last()) {
        StepModel::Read(state) => reads.last() matches Ok(bytes) ==> bytes.len() <= read_size(
            state,
        ),
        _ => false,
    }
}

/// Whether `request` is what the bytes on a connection stand for, where its head was complete
/// after the first `k` of them: its head is the one found there, and its body is every byte
/// that followed the head.
pub open spec fn came_from(request: RequestModel, bytes: Seq<u8>, k: int) -> bool {
    &&& 0 <= k <= bytes.len()
    &&& request_head(bytes.take(k), MAX_NUM_HEADERS as nat) matches Ok(Some(head)) && built(
        head,
        uri_text(head.path),
    ) == Some(RequestModel { body: Seq::empty(), ..request }) && request.body == behind(
        bytes.take(k),
        head.len,
    ) + bytes.skip(k)
}

/// A request whose head has just become complete is what all bytes so far stand for.
proof fn lemma_complete_head(received: Seq<u8>, bytes: Seq<u8>)
    requires
        header_step(received, Ok(bytes)) is Complete,
    ensures
        came_from(
            header_step(received, Ok(bytes))->Complete_0,
            received + bytes,
            (received + bytes).len() as int,
        ),
        header_step(received, Ok(bytes))->Complete_0.body.len() <= (received + bytes).len(),
{
    let all = received + bytes;
    let k = all.len() as int;
    let request = header_step(received, Ok(bytes))->Complete_0;
    assert(all.take(k) =~= all);
    assert(all.skip(k) =~= Seq::<u8>::empty());
    let head = request_head(all, MAX_NUM_HEADERS as nat)->Ok_0->0;
    assert(built(head, uri_text(head.path))->0 =~= RequestModel { body: Seq::empty(), ..request });
    assert(request.body =~= behind(all.take(k), head.len) + all.skip(k));
}

/// No byte is lost or taken twice: at every point of the reading of a request, what has
/// arrived is the head so far, or a complete head and the body so far.
pub proof fn law_reading_keeps_bytes(reads: Seq<IncomingModel>)
    requires
        history(reads),
    ensures
        match run(reads) {
            StepModel::Read(StateModel::Head(received)) => received == total(reads),
            StepModel::Read(StateModel::Body(request, _)) => exists|k: int|
                came_from(request, total(reads), k),
            StepModel::Done(request) => exists|k: int| came_from(request, total(reads), k),
            _ => true,
        },
    decreases reads.len(),
{
    if reads.len() > 0 {
        let before = reads.drop_last();
        law_reading_keeps_bytes(before);
        match run(before) {
            StepModel::Read(StateModel::Head(received)) => {
                if let Ok(bytes) = reads.last() {
                    assert(total(reads) == received + bytes);
                    if header_step(received, Ok(bytes)) is Complete {
                        lemma_complete_head(received, bytes);
                    }
                }
            },
            StepModel::Read(StateModel::Body(request, _)) => {
                if let Ok(bytes) = reads.last() {
                    let old_all = total(before);
                    let all = total(reads);
                    let k = choose|k: int| came_from(request, old_all, k);
                    let longer = with_more(request, bytes);
                    assert(all.take(k) =~= old_all.take(k));
                    assert(all.skip(k) =~= old_all.skip(k) + bytes);
                    let head = request_head(all.take(k), MAX_NUM_HEADERS as nat)->Ok_0->0;
                    assert(longer.body =~= behind(all.take(k), head.len) + all.skip(k));
                    assert((RequestModel { body: Seq::empty(), ..longer }) =~= RequestModel {
                        body: Seq::empty(),
                        ..request
                    });
                    assert(came_from(longer, all, k));
                }
            },
            _ => {},
        }
    }
}

/// The reader never waits for more than it has room for, and waits for a body only while it
/// is shorter than its declared length, which is one that is accepted.
pub proof fn law_reading_waits(reads: Seq<IncomingModel>)
    requires
        history(reads),
    ensures
        run(reads) matches StepModel::Read(state) ==> waiting(state) && (
        state matches StateModel::Body(request, length) ==> content_length(request.fields) == Ok::<
            Option<usize>,
            (),
        >(Some(length as usize))),
    decreases reads.len(),
{
    if reads.len() > 0 {
        law_reading_waits(reads.drop_last());
    }
}

/// A request is delivered only with a body of the declared length. Without a declared length
/// the body is what arrived together with the end of the head. No body is larger than
/// `MAX_BODY_SIZE`.
pub proof fn law_delivered_length(reads: Seq<IncomingModel>)
    requires
        history(reads),
        run(reads) is Done,
    ensures
        run(reads) matches StepModel::Done(request) && request.body.len() <= MAX_BODY_SIZE
            && match content_length(request.fields) {
            Ok(Some(length)) => length <= MAX_BODY_SIZE && request.body.len() == length,
            Ok(None) => came_from(request, total(reads), total(reads).len() as int),
            Err(_) => false,
        },
{
    let before = reads.drop_last();
    law_reading_waits(before);
    law_reading_keeps_bytes(before);
    if let StepModel::Read(StateModel::Head(received)) = run(before) {
        let bytes = reads.last()->Ok_0;
        assert(total(reads) == received + bytes);
        lemma_complete_head(received, bytes);
    }
}

/// Reading comes to an end: while the reader waits, each read has brought in something, and
/// all of them together no more than the room for a head and the largest body.
pub proof fn law_reading_ends(reads: Seq<IncomingModel>)
    requires
        history(reads),
    ensures
        run(reads) matches StepModel::Read(state) ==> reads.len() <= total(reads).len() && (
        state matches StateModel::Body(request, _) ==> total(reads).len() <= MAX_HEADERS_SIZE
            + request.body.len()) && total(reads).len() <= MAX_HEADERS_SIZE + MAX_BODY_SIZE,
    decreases reads.len(),
{
    if reads.len() > 0 {
        law_reading_ends(reads.drop_last());
        law_reading_waits(reads.drop_last());
        law_reading_keeps_bytes(reads.drop_last());
    }
    law_reading_waits(reads);
    law_reading_keeps_bytes(reads);
}

/// Where the bytes of a request end within its head, the error holds their number, which is
/// zero exactly when the client sent nothing at all.
pub proof fn law_hang_up(reads: Seq<IncomingModel>)
    requires
        history(reads),
        run(reads) matches StepModel::Failed(Error::IncompleteRequest(_)),
    ensures
        run(reads) == StepModel::Failed(Error::IncompleteRequest(total(reads).len() as usize)),
        total(reads).len() <= MAX_HEADERS_SIZE,
{
    let before = reads.drop_last();
    law_reading_waits(before);
    law_reading_keeps_bytes(before);
    assert(total(reads) =~= total(before));
}

/// The first line of a request: its method, URI and version.
pub open spec fn request_line(request: RequestModel) -> Seq<char> {
    request.method + " "@ + request.uri + " "@ + version_text(request.version)
}

/// Writes the first line of a request as text, without its line end.
pub fn format_request_line(request: &Request) -> (line: String)
    ensures
        line@ == request_line(request@),
{
    let mut line = request.method.clone();
    line.append(" ");
    line.append(request.uri.as_str());
    line.append(" ");
    line.append(request.version.as_str());
    line
}

/// A request as it is sent: its first line, its header, an empty line and its body.
pub open spec fn request_bytes(request: RequestModel) -> Seq<u8> {
    head_bytes(request_line(request), request.fields) + request.body
}

/// Writes a request to the end of an output.
pub fn write_to_stream(request: &Request, stream: &mut Vec<u8>)
    ensures
        final(stream)@ == old(stream)@ + request_bytes(request@),
{
    let line = format_request_line(request);
    put_text(stream, line.as_str());
    put_crlf(stream);
    put_fields(stream, &request.headers);
    put_crlf(stream);
    if request.body.len() > 0 {
        put_bytes(stream, request.body.as_slice());
    }
    assert(stream@ =~= old(stream)@ + request_bytes(request@));
}

/// A header value with one more item at its end.
pub open spec fn extended(value: Option<Seq<u8>>, item: Seq<u8>) -> Seq<u8> {
    match value {
        Some(value) => value + seq![44u8] + item,
        None => item,
    }
}

/// Adds an item to the end of a header value, behind a comma. A header that is not there yet
/// is added. Where the header has several values, the first of them is the one that grows,
/// and the others go.
pub fn extend_header_value(request: &mut Request, name: &'static str, extend_value: &str)
    requires
        is_header_name(name@),
        is_header_value(encode_utf8(extend_value@)),
        names(old(request)@.fields).len() < MAX_SURE_NAMES,
    ensures
        final(request)@ == (RequestModel {
            fields: inserted(
                old(request)@.fields,
                lower(name@),
                extended(
                    first_value(old(request)@.fields, lower(name@)),
                    encode_utf8(extend_value@),
                ),
            ),
            ..old(request)@
        }),
{
    let mut new_value: Vec<u8> = Vec::new();
    let ghost found = first_value(request@.fields, lower(name@));
    let item = extend_value.as_bytes();
    match get_value(&request.headers, name) {
        Some(existing_value) => {
            put_bytes(&mut new_value, existing_value);
            new_value.push(44);
            put_bytes(&mut new_value, item);
            assert(new_value@ =~= extended(found, item@));
        },
        None => {
            put_bytes(&mut new_value, item);
            assert(new_value@ =~= extended(found, item@));
        },
    }
    insert_field(&mut request.headers, name, new_value.as_slice());
}

/// A request that can be read back still can be after a header was extended, as long as it has
/// no more fields than are accepted.
pub proof fn law_extended_readable(request: RequestModel, name: Seq<char>, item: Seq<u8>)
    requires
        is_readable(request),
        is_header_name(name),
        lower(name) == name,
        is_header_value(item),
        is_trimmed(item),
        inserted(request.fields, name, extended(first_value(request.fields, name), item)).len()
            <= MAX_NUM_HEADERS,
    ensures
        is_readable(
            RequestModel {
                fields: inserted(
                    request.fields,
                    name,
                    extended(first_value(request.fields, name), item),
                ),
                ..request
            },
        ),
{
    let fields = request.fields;
    let value = extended(first_value(fields, name), item);
    let after = inserted(fields, name, value);
    lemma_inserted_grouped(fields, name, value);
    lemma_value_of(fields, name);
    assert(is_header_value(value) && is_trimmed(value)) by {
        if let Some(first) = first_value(fields, name) {
            assert forall|i: int| 0 <= i < value.len() implies is_value_byte(
                #[trigger] value[i],
            ) by {
                if i < first.len() {
                    assert(value[i] == first[i]);
                } else if i > first.len() {
                    assert(value[i] == item[i - first.len() - 1]);
                }
            }
        }
    }
    assert forall|i: int| 0 <= i < after.len() implies is_header_name((#[trigger] after[i]).0)
        && is_header_value(after[i].1) && is_trimmed(after[i].1) by {
        if after[i] != (name, value) {
            let k = choose|k: int| 0 <= k < fields.len() && fields[k] == after[i];
            assert(is_header_name(fields[k].0) && is_trimmed(fields[k].1));
        }
    }
}

/// Extending a header makes the extended value the only value of that header, and changes
/// nothing else of the request: not its other headers, and not its first line or its body.
pub proof fn law_extended_header(
    before: RequestModel,
    after: RequestModel,
    name: Seq<char>,
    item: Seq<u8>,
    other: Seq<char>,
)
    requires
        after == (RequestModel {
            fields: inserted(before.fields, name, extended(first_value(before.fields, name), item)),
            ..before
        }),
    ensures
        first_value(after.fields, name) == Some(extended(first_value(before.fields, name), item)),
        without(after.fields, name) == without(before.fields, name),
        other != name ==> first_value(after.fields, other) == first_value(before.fields, other),
        request_line(after) == request_line(before),
        after.body == before.body,
{
    law_inserted(before.fields, name, extended(first_value(before.fields, name), item), other);
}

} // verus!
