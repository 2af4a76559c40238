//! The heads of HTTP messages: what the `httparse` crate finds in a buffer, and what the
//! `http` crate makes of the pieces.

use crate::headers::{fields_bytes, is_header_value, is_token, is_trimmed, Field};
use crate::stream::crlf;
use httparse::Error as HeadError;
use vstd::prelude::*;
use vstd::string::*;
use vstd::utf8::*;

verus! {

/// The request line and the header fields of a request.
pub struct RequestHead {
    /// The method, as it was sent.
    pub method: String,
    /// The request target, as it was sent.
    pub path: String,
    /// The header fields, as they were sent.
    pub fields: Vec<(String, Vec<u8>)>,
    /// How many bytes the head takes up, the closing empty line included.
    pub len: usize,
}

/// The model of a request's head.
pub struct RequestHeadModel {
    pub method: Seq<char>,
    pub path: Seq<char>,
    pub fields: Seq<Field>,
    pub len: nat,
}

/// The status line and the header fields of a response.
pub struct ResponseHead {
    /// The status code.
    pub code: u16,
    /// The header fields, as they were sent.
    pub fields: Vec<(String, Vec<u8>)>,
    /// How many bytes the head takes up, the closing empty line included.
    pub len: usize,
}

/// The model of a response's head.
pub struct ResponseHeadModel {
    pub code: u16,
    pub fields: Seq<Field>,
    pub len: nat,
}

/// The fields that a list of names and values stands for.
pub open spec fn field_list(fields: Seq<(String, Vec<u8>)>) -> Seq<Field> {
    fields.map_values(|f: (String, Vec<u8>)| (f.0@, f.1@))
}

impl View for RequestHead {
    type V = RequestHeadModel;

    open spec fn view(&self) -> RequestHeadModel {
        RequestHeadModel {
            method: self.method@,
            path: self.path@,
            fields: field_list(self.fields@),
            len: self.len as nat,
        }
    }
}

impl View for ResponseHead {
    type V = ResponseHeadModel;

    open spec fn view(&self) -> ResponseHeadModel {
        ResponseHeadModel {
            code: self.code,
            fields: field_list(self.fields@),
            len: self.len as nat,
        }
    }
}

/// The model of an attempt to find a request's head.
pub open spec fn request_parse(parsed: Result<Option<RequestHead>, HeadError>) -> Result<
    Option<RequestHeadModel>,
    HeadError,
> {
    match parsed {
        Ok(Some(head)) => Ok(Some(head@)),
        Ok(None) => Ok(None),
        Err(error) => Err(error),
    }
}

/// The model of an attempt to find a response's head.
pub open spec fn response_parse(parsed: Result<Option<ResponseHead>, HeadError>) -> Result<
    Option<ResponseHeadModel>,
    HeadError,
> {
    match parsed {
        Ok(Some(head)) => Ok(Some(head@)),
        Ok(None) => Ok(None),
        Err(error) => Err(error),
    }
}

/// The longest URI that the `http` crate reads, in bytes.
pub const MAX_URI_LEN: usize = 65534;

/// Whether `text` can be a request target: not empty, and without ASCII spaces and control
/// characters.
pub open spec fn is_target(text: Seq<char>) -> bool {
    text.len() > 0 && forall|i: int|
        0 <= i < text.len() ==> (#[trigger] text[i]) > ' ' && text[i] != '\u{7f}'
}

/// Whether the parts of a head are such that each ends where its delimiter stands: the method
/// and the names are tokens, the target is one, and the values have no space around them.
pub open spec fn is_plain(method: Seq<char>, path: Seq<char>, fields: Seq<Field>) -> bool {
    &&& is_token(method)
    &&& is_target(path)
    &&& forall|i: int|
        0 <= i < fields.len() ==> is_token((#[trigger] fields[i]).0) && is_header_value(fields[i].1)
            && is_trimmed(fields[i].1)
}

/// A head as it is written: its first line, the lines of its header and an empty line.
pub open spec fn head_bytes(line: Seq<char>, fields: Seq<Field>) -> Seq<u8> {
    encode_utf8(line) + crlf() + fields_bytes(fields) + crlf()
}

/// Whether `buffer` starts with this head, written as an HTTP/1.1 request.
pub open spec fn starts_with(buffer: Seq<u8>, head: RequestHeadModel) -> bool {
    let written = head_bytes(
        head.method + " "@ + head.path + " "@ + "HTTP/1.1"@,
        head.fields,
    );
    &&& is_plain(head.method, head.path, head.fields)
    &&& head.len == written.len()
    &&& written.is_prefix_of(buffer)
}

/// The errors of the `httparse` crate.
#[verifier::external_type_specification]
#[verifier::external_body]
pub struct ExHeadError(HeadError);

/// What `httparse` makes of a buffer that should start with a request: its head, nothing yet
/// where the head is incomplete, or an error. A head with more than `max_headers` fields is
/// an error.
pub uninterp spec fn request_head(buffer: Seq<u8>, max_headers: nat) -> Result<
    Option<RequestHeadModel>,
    HeadError,
>;

/// What `httparse` makes of a buffer that should start with a response.
pub uninterp spec fn response_head(buffer: Seq<u8>, max_headers: nat) -> Result<
    Option<ResponseHeadModel>,
    HeadError,
>;

/// Whether what was found in `buffer` rests on the bytes of the head alone: every buffer that
/// starts with these bytes has the same head, and so has `buffer` where it starts with another
/// one that has a head.
pub open spec fn request_ends_itself(
    buffer: Seq<u8>,
    max_headers: nat,
    found: Result<Option<RequestHeadModel>, HeadError>,
) -> bool {
    &&& found matches Ok(Some(head)) ==> forall|other: Seq<u8>|
        buffer.take(head.len as int).is_prefix_of(other) ==> #[trigger] request_head(
            other,
            max_headers,
        ) == found
    &&& forall|other: Seq<u8>|
        other.is_prefix_of(buffer) && (#[trigger] request_head(other, max_headers) matches Ok(
            Some(_),
        )) ==> request_head(other, max_headers) == found
}

/// The same for responses.
pub open spec fn response_ends_itself(
    buffer: Seq<u8>,
    max_headers: nat,
    found: Result<Option<ResponseHeadModel>, HeadError>,
) -> bool {
    &&& found matches Ok(Some(head)) ==> forall|other: Seq<u8>|
        buffer.take(head.len as int).is_prefix_of(other) ==> #[trigger] response_head(
            other,
            max_headers,
        ) == found
    &&& forall|other: Seq<u8>|
        other.is_prefix_of(buffer) && (#[trigger] response_head(other, max_headers) matches Ok(
            Some(_),
        )) ==> response_head(other, max_headers) == found
}

/// Whether the head that was written at the start of `buffer`, where one was, is the one that
/// was found.
pub open spec fn written_is_found(
    buffer: Seq<u8>,
    max_headers: nat,
    found: Result<Option<RequestHeadModel>, HeadError>,
) -> bool {
    forall|head: RequestHeadModel|
        #[trigger] starts_with(buffer, head) && head.fields.len() <= max_headers ==> found == Ok::<
            Option<RequestHeadModel>,
            HeadError,
        >(Some(head))
}

/// The text of the URI that the `http` crate reads from a request target, or `None` where it
/// finds none.
pub uninterp spec fn uri_text(path: Seq<char>) -> Option<Seq<char>>;

/// The reason phrase that goes with a status code, where one is standardised.
pub uninterp spec fn canonical_reason(code: u16) -> Option<Seq<char>>;

/// `httparse::Request::parse`: looks for the head of a request at the start of `buffer`. The
/// head of a request lies within the buffer and has at most `max_headers` fields, for which
/// room is set aside beforehand; its parts are plain. The parser takes the bytes one after the
/// other and stops at the end of the head, so what stands behind it has no influence: another
/// buffer with the same head bytes has the same head, and so has this buffer where it starts
/// with another that has one. A head that was written out as HTTP/1.1 is found again.
#[verifier::external_body]
pub(crate) fn parse_request_head(buffer: &[u8], max_headers: usize) -> (parsed: Result<
    Option<RequestHead>,
    HeadError,
>)
    requires
        max_headers <= 65535,
    ensures
        request_parse(parsed) == request_head(buffer@, max_headers as nat),
        parsed matches Ok(Some(head)) ==> 0 < head.len <= buffer@.len() && head.fields@.len()
            <= max_headers && encode_utf8(head.path@).len() < head.len && is_plain(
            head@.method,
            head@.path,
            head@.fields,
        ),
        request_ends_itself(buffer@, max_headers as nat, request_parse(parsed)),
        written_is_found(buffer@, max_headers as nat, request_parse(parsed)),
{
    let mut headers = vec![httparse::EMPTY_HEADER; max_headers];
    let mut request = httparse::Request::new(&mut headers);
    Ok(match request.parse(buffer)? {
        httparse::Status::Complete(len) => Some(RequestHead {
            method: request.method.unwrap().to_owned(),
            path: request.path.unwrap().to_owned(),
            fields: request.headers.iter().map(|h| (h.name.to_owned(), h.value.to_vec())).collect(),
            len,
        }),
        httparse::Status::Partial => None,
    })
}

/// `httparse::Response::parse`: looks for the head of a response at the start of `buffer`.
/// The head of a response lies within the buffer, has at most `max_headers` fields, for which
/// room is set aside beforehand, and its status code has at most three digits. As with requests,
/// what stands behind the head has no influence: another buffer with the same head bytes has the
/// same head, and so has this buffer where it starts with another that has one.
#[verifier::external_body]
pub(crate) fn parse_response_head(buffer: &[u8], max_headers: usize) -> (parsed: Result<
    Option<ResponseHead>,
    HeadError,
>)
    requires
        max_headers <= 65535,
    ensures
        response_parse(parsed) == response_head(buffer@, max_headers as nat),
        parsed matches Ok(Some(head)) ==> 0 < head.len <= buffer@.len() && head.fields@.len()
            <= max_headers && head.code <= 999,
        response_ends_itself(buffer@, max_headers as nat, response_parse(parsed)),
{
    let mut headers = vec![httparse::EMPTY_HEADER; max_headers];
    let mut response = httparse::Response::new(&mut headers);
    Ok(match response.parse(buffer)? {
        httparse::Status::Complete(len) => Some(ResponseHead {
            code: response.code.unwrap(),
            fields: response.headers.iter().map(|h| (h.name.to_owned(), h.value.to_vec())).collect(),
            len,
        }),
        httparse::Status::Partial => None,
    })
}

/// `http::Method::from_bytes`: takes any token for a method and keeps its text.
#[verifier::external_body]
pub(crate) fn parse_method(name: &str) -> (method: Option<String>)
    ensures
        method is Some <==> is_token(name@),
        method matches Some(text) ==> text@ == name@,
{
    http::Method::from_bytes(name.as_bytes()).ok().map(|method| method.as_str().to_owned())
}

/// `http::Uri::from_str`: reads a URI and gives the text in which it is written again. That text
/// can be a request target. It may be one byte longer than what was read (a missing `/` is put
/// in), and stands for itself when it is read once more, where it is not too long for that.
#[verifier::external_body]
pub(crate) fn parse_uri(path: &str) -> (uri: Option<String>)
    ensures
        match uri {
            Some(text) => uri_text(path@) == Some(text@) && is_target(text@) && encode_utf8(
                text@,
            ).len() <= encode_utf8(path@).len() + 1 && (encode_utf8(text@).len() <= MAX_URI_LEN
                ==> uri_text(text@) == Some(text@)),
            None => uri_text(path@) is None,
        },
{
    path.parse::<http::Uri>().ok().map(|uri| uri.to_string())
}

/// `http::StatusCode::canonical_reason`: the reason phrase of a status code.
#[verifier::external_body]
pub(crate) fn reason_phrase(code: u16) -> (reason: Option<&'static str>)
    requires
        100 <= code <= 999,
    ensures
        match reason {
            Some(text) => canonical_reason(code) == Some(text@),
            None => canonical_reason(code) is None,
        },
{
    http::StatusCode::from_u16(code).unwrap().canonical_reason()
}

} // verus!
