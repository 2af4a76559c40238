//! What the library promises, in plain terms.
//!
//! The contracts of the other modules are built up from spec functions, step by step. The laws
//! here say what comes out in the end: they speak of the inputs and the results alone, with the
//! numbers, the names and the status codes written out.

use crate::decimal::{decimal, unsigned};
use crate::head::{
    canonical_reason, field_list, request_head, response_head, uri_text, RequestHead,
    RequestHeadModel, ResponseHead, ResponseHeadModel,
};
use crate::headers::{
    all_valid, collected, content_length, fields_bytes, first_value, header_fields, inserted,
    is_token, is_token_char, is_value_byte, lemma_appended_position, lemma_no_value, lower, without, Field,
};
use crate::proxy::{
    action_after, count_after, error_status, forwarded, Action, ActionModel, Event, EventModel,
    Turn,
};
use crate::request::{extended, request_bytes, request_line, RequestModel};
use crate::response::{
    bytes_of, error_of, http_error, line_of, response_bytes, response_line, ResponseModel,
};
use crate::stream::{incoming, total, Incoming, IncomingModel};
use crate::upstream::{health_request, live_after, removed, texts, Probe};
use crate::version::{version_text, Version};
use crate::{request, response};
use vstd::prelude::*;
use vstd::seq_lib::*;
use vstd::string::*;
use vstd::utf8::*;

verus! {

// Numbers.

/// A number is read digit by digit: each further digit makes it ten times as large and adds its
/// own worth, up to the largest number that fits.
pub proof fn law_number_grows(bytes: Seq<u8>, digit: u8)
    requires
        48 <= digit <= 57,
    ensures
        unsigned(seq![digit]) == Some((digit - 48) as usize),
        unsigned(seq![43u8, digit]) == Some((digit - 48) as usize),
        unsigned(bytes) matches Some(number) ==> unsigned(bytes.push(digit)) == if 10 * number + (
        digit - 48) <= usize::MAX {
            Some((10 * number + (digit - 48)) as usize)
        } else {
            None
        },
        bytes.len() > 1 && unsigned(bytes) is None ==> unsigned(bytes.push(digit)) is None,
{
    reveal_with_fuel(crate::decimal::digits_value, 3);
    let longer = bytes.push(digit);
    let digits = crate::decimal::without_sign(bytes);
    let longer_digits = crate::decimal::without_sign(longer);
    assert(crate::decimal::without_sign(seq![43u8, digit]) =~= seq![digit]);
    assert(seq![digit].drop_last() =~= Seq::<u8>::empty());
    if bytes.len() > 0 {
        assert(longer_digits =~= digits.push(digit));
        assert(longer_digits.drop_last() =~= digits);
        if forall|i: int|
            0 <= i < longer_digits.len() ==> crate::decimal::is_digit(#[trigger] longer_digits[i]) {
            assert forall|i: int| 0 <= i < digits.len() implies crate::decimal::is_digit(
                #[trigger] digits[i],
            ) by {
                assert(longer_digits[i] == digits[i]);
            }
        }
    }
}

/// Nothing but digits, with at most a `+` in front, is a number.
pub proof fn law_no_number(bytes: Seq<u8>, i: int)
    requires
        bytes.len() == 0 || bytes == seq![43u8] || (0 <= i < bytes.len() && !(48 <= bytes[i] <= 57)
            && !(i == 0 && bytes[i] == 43)),
    ensures
        unsigned(bytes) is None,
{
    let digits = crate::decimal::without_sign(bytes);
    if bytes.len() > 0 && bytes != seq![43u8] {
        let k = if bytes[0] == 43 {
            i - 1
        } else {
            i
        };
        assert(digits[k] == bytes[i]);
        assert(!crate::decimal::is_digit(digits[k]));
    }
}

/// A number is written with its digits from the first to the last, and without leading zeros.
pub proof fn law_number_text(n: nat)
    ensures
        n < 10 ==> decimal(n) == seq![(48 + n) as char],
        n >= 10 ==> decimal(n) == decimal(n / 10).push((48 + n % 10) as char),
        n > 0 ==> decimal(n)[0] != '0',
    decreases n,
{
    if n >= 10 {
        law_number_text(n / 10);
        crate::decimal::lemma_decimal_digits(n / 10);
    }
}

// Header fields.

/// The declared length is the number in the first Content-Length field; other fields have no
/// influence on it.
pub proof fn law_declared_length(fields: Seq<Field>, i: int)
    ensures
        (forall|k: int| 0 <= k < fields.len() ==> (#[trigger] fields[k]).0 != "content-length"@)
            ==> content_length(fields) == Ok::<Option<usize>, ()>(None),
        0 <= i < fields.len() && fields[i].0 == "content-length"@ && (forall|k: int|
            0 <= k < i ==> (#[trigger] fields[k]).0 != "content-length"@) ==> content_length(fields)
            == match unsigned(fields[i].1) {
            Some(length) => Ok::<Option<usize>, ()>(Some(length)),
            None => Err(()),
        },
{
    lemma_no_value(fields, "content-length"@);
    if 0 <= i < fields.len() && fields[i].0 == "content-length"@ && (forall|k: int|
        0 <= k < i ==> (#[trigger] fields[k]).0 != "content-length"@) {
        lemma_first_at(fields, "content-length"@, i);
    }
}

/// The length that a message declares is the number in the first Content-Length field that was
/// sent, in whatever case its name was.
pub proof fn law_sent_length(fields: Seq<Field>, i: int)
    ensures
        (forall|k: int|
            0 <= k < fields.len() ==> lower((#[trigger] fields[k]).0) != "content-length"@)
            ==> content_length(collected(fields)) == Ok::<Option<usize>, ()>(None),
        0 <= i < fields.len() && lower(fields[i].0) == "content-length"@ && (forall|k: int|
            0 <= k < i ==> lower((#[trigger] fields[k]).0) != "content-length"@) ==> content_length(
            collected(fields),
        ) == match unsigned(fields[i].1) {
            Some(length) => Ok::<Option<usize>, ()>(Some(length)),
            None => Err(()),
        },
{
    if forall|k: int| 0 <= k < fields.len() ==> lower((#[trigger] fields[k]).0)
        != "content-length"@ {
        lemma_collected_first(fields, "content-length"@, fields.len() as int);
    }
    if 0 <= i < fields.len() && lower(fields[i].0) == "content-length"@ && (forall|k: int|
        0 <= k < i ==> lower((#[trigger] fields[k]).0) != "content-length"@) {
        lemma_collected_first(fields, "content-length"@, i);
    }
}

/// Collecting keeps the first value of a name, which stands at position `i`, if anywhere.
proof fn lemma_collected_first(fields: Seq<Field>, name: Seq<char>, i: int)
    requires
        0 <= i <= fields.len(),
        i < fields.len() ==> lower(fields[i].0) == name,
        forall|k: int| 0 <= k < i ==> lower((#[trigger] fields[k]).0) != name,
    ensures
        first_value(collected(fields), name) == if i < fields.len() {
            Some(fields[i].1)
        } else {
            None
        },
    decreases fields.len(),
{
    if fields.len() > 0 {
        let front = fields.drop_last();
        let n = fields.len() - 1;
        let last = fields[n];
        assert forall|k: int| 0 <= k < i && k < n implies lower((#[trigger] front[k]).0) != name by {
            assert(front[k] == fields[k]);
        }
        if i == fields.len() {
            assert(lower(fields[n].0) != name);
        }
        lemma_collected_first(
            front,
            name,
            if i < n {
                i
            } else {
                n
            },
        );
        crate::headers::law_appended(collected(front), lower(last.0), last.1, name);
    }
}

/// The first value of a name is that of the first field with that name.
proof fn lemma_first_at(fields: Seq<Field>, name: Seq<char>, i: int)
    requires
        0 <= i < fields.len(),
        fields[i].0 == name,
        forall|k: int| 0 <= k < i ==> (#[trigger] fields[k]).0 != name,
    ensures
        first_value(fields, name) == Some(fields[i].1),
    decreases i,
{
    if i > 0 {
        let rest = fields.drop_first();
        assert(fields[0].0 != name);
        assert forall|k: int| 0 <= k < i - 1 implies (#[trigger] rest[k]).0 != name by {
            assert(rest[k] == fields[k + 1]);
        }
        lemma_first_at(rest, name, i - 1);
    }
}

/// The filter of a sequence with one item at its end.
proof fn lemma_filter_push<A>(list: Seq<A>, item: A, keep: spec_fn(A) -> bool)
    ensures
        list.push(item).filter(keep) == if keep(item) {
            list.filter(keep).push(item)
        } else {
            list.filter(keep)
        },
{
    reveal(Seq::filter);
    assert(list.push(item).drop_last() =~= list);
}

/// Nothing is left of a sequence of which nothing is to be kept.
proof fn lemma_filter_nothing<A>(list: Seq<A>, keep: spec_fn(A) -> bool)
    requires
        forall|i: int| 0 <= i < list.len() ==> !keep(#[trigger] list[i]),
    ensures
        list.filter(keep) == Seq::<A>::empty(),
    decreases list.len(),
{
    reveal(Seq::filter);
    if list.len() > 0 {
        assert(!keep(list[list.len() - 1]));
        assert forall|i: int| 0 <= i < list.drop_last().len() implies !keep(
            #[trigger] list.drop_last()[i],
        ) by {
            assert(list.drop_last()[i] == list[i]);
        }
        lemma_filter_nothing(list.drop_last(), keep);
    }
}

/// Every header field that was sent is kept: for each name, the header has the values that were
/// sent under that name, in whatever case, in the order in which they came. No field is added.
pub proof fn law_fields_kept(fields: Seq<Field>, name: Seq<char>)
    ensures
        collected(fields).filter(|f: Field| f.0 == name) == fields.map_values(
            |f: Field| (lower(f.0), f.1),
        ).filter(|f: Field| f.0 == name),
        collected(fields).len() == fields.len(),
    decreases fields.len(),
{
    let keep = |f: Field| f.0 == name;
    let lowered = fields.map_values(|f: Field| (lower(f.0), f.1));
    crate::headers::lemma_collected_len(fields);
    if fields.len() == 0 {
        assert(lowered =~= collected(fields));
    } else {
        let front = fields.drop_last();
        let last = (lower(fields.last().0), fields.last().1);
        law_fields_kept(front, name);
        let lowered_front = front.map_values(|f: Field| (lower(f.0), f.1));
        assert(lowered =~= lowered_front.push(last));
        lemma_filter_push(lowered_front, last, keep);
        let before = collected(front);
        let p = lemma_appended_position(before, last.0, last.1);
        let (a, b) = (before.take(p), before.skip(p));
        assert(before =~= a + b);
        assert(collected(fields) =~= a.push(last) + b);
        Seq::filter_distributes_over_add(a, b, keep);
        Seq::filter_distributes_over_add(a.push(last), b, keep);
        lemma_filter_push(a, last, keep);
        if last.0 == name {
            assert forall|i: int| 0 <= i < b.len() implies !keep(#[trigger] b[i]) by {
                assert(b[i] == before[p + i]);
            }
            lemma_filter_nothing(b, keep);
        }
    }
}

/// Fields with different names stay in the order in which they were sent.
pub proof fn law_fields_in_order(fields: Seq<Field>)
    requires
        forall|i: int, j: int|
            0 <= i < j < fields.len() ==> lower((#[trigger] fields[i]).0) != lower(
                (#[trigger] fields[j]).0,
            ),
    ensures
        collected(fields) == fields.map_values(|f: Field| (lower(f.0), f.1)),
    decreases fields.len(),
{
    let lowered = fields.map_values(|f: Field| (lower(f.0), f.1));
    if fields.len() == 0 {
        assert(collected(fields) =~= lowered);
    } else {
        let front = fields.drop_last();
        let n = fields.len() - 1;
        let name = lower(fields[n].0);
        assert forall|i: int, j: int| 0 <= i < j < front.len() implies lower(
            (#[trigger] front[i]).0,
        ) != lower((#[trigger] front[j]).0) by {
            assert(lower(fields[i].0) != lower(fields[j].0));
        }
        law_fields_in_order(front);
        assert forall|k: int| 0 <= k < front.len() implies lower((#[trigger] front[k]).0) != name by {
            assert(lower(fields[k].0) != lower(fields[n].0));
        }
        lemma_collected_first(front, name, front.len() as int);
        assert(collected(fields) =~= lowered);
    }
}

/// A name in lower case differs from the name in the letters A to Z alone.
pub proof fn law_lower_case(name: Seq<char>, i: int)
    ensures
        lower(name).len() == name.len(),
        0 <= i < name.len() ==> lower(name)[i] == if 'A' <= name[i] <= 'Z' {
            (name[i] as u32 + 32) as char
        } else {
            name[i]
        },
{
}

/// Which characters may stand in a method or in the name of a header, and which bytes in a value.
pub proof fn law_legal_characters(c: char, b: u8)
    ensures
        is_token_char(c) <==> ('a' <= c <= 'z' || 'A' <= c <= 'Z' || '0' <= c <= '9'
            || "!#$%&'*+-.^_`|~"@.contains(c)),
        is_value_byte(b) <==> (b == 9 || 32 <= b <= 126 || b >= 128),
{
    reveal_strlit("!#$%&'*+-.^_`|~");
    let marks = "!#$%&'*+-.^_`|~"@;
    assert(marks.len() == 15);
    assert(marks[0] == '!' && marks[1] == '#' && marks[2] == '$' && marks[3] == '%' && marks[4]
        == '&' && marks[5] == '\'' && marks[6] == '*' && marks[7] == '+' && marks[8] == '-'
        && marks[9] == '.' && marks[10] == '^' && marks[11] == '_' && marks[12] == '`'
        && marks[13] == '|' && marks[14] == '~');
}

/// Fields can stand in a header exactly when each of them can, whatever their number: its name
/// has 1 to 65535 characters that are all legal, and its value has only legal bytes.
pub proof fn law_legal_fields(fields: Seq<Field>)
    ensures
        all_valid(fields) <==> forall|i: int|
            #![trigger fields[i]]
            0 <= i < fields.len() ==> {
                &&& 1 <= fields[i].0.len() <= 65535
                &&& forall|k: int|
                    0 <= k < fields[i].0.len() ==> is_token_char(#[trigger] fields[i].0[k])
                &&& forall|k: int|
                    0 <= k < fields[i].1.len() ==> is_value_byte(#[trigger] fields[i].1[k])
            },
{
}

/// What is left without a name are the fields with other names.
proof fn lemma_without_filter(fields: Seq<Field>, name: Seq<char>)
    ensures
        without(fields, name) == fields.filter(|f: Field| f.0 != name),
    decreases fields.len(),
{
    let keep = |f: Field| f.0 != name;
    if fields.len() == 0 {
        lemma_filter_nothing(fields, keep);
    } else {
        let first = seq![fields[0]];
        let rest = fields.drop_first();
        lemma_without_filter(rest, name);
        assert(fields =~= first + rest);
        Seq::filter_distributes_over_add(first, rest, keep);
        assert(first =~= Seq::<Field>::empty().push(fields[0]));
        lemma_filter_push(Seq::empty(), fields[0], keep);
        lemma_filter_nothing(Seq::empty(), keep);
        assert(without(fields, name) =~= first.filter(keep) + rest.filter(keep));
    }
}

/// Inserting a value at the place of the first field of its name.
proof fn lemma_inserted_at(fields: Seq<Field>, name: Seq<char>, value: Seq<u8>, i: int)
    requires
        0 <= i < fields.len(),
        fields[i].0 == name,
        forall|k: int| 0 <= k < i ==> (#[trigger] fields[k]).0 != name,
    ensures
        inserted(fields, name, value) == fields.take(i) + seq![(name, value)] + fields.skip(
            i + 1,
        ).filter(|f: Field| f.0 != name),
    decreases i,
{
    let rest = fields.drop_first();
    if i == 0 {
        lemma_without_filter(rest, name);
        assert(rest =~= fields.skip(1));
        assert(inserted(fields, name, value) =~= fields.take(0) + seq![(name, value)]
            + fields.skip(1).filter(|f: Field| f.0 != name));
    } else {
        assert(fields[0].0 != name);
        assert forall|k: int| 0 <= k < i - 1 implies (#[trigger] rest[k]).0 != name by {
            assert(rest[k] == fields[k + 1]);
        }
        lemma_inserted_at(rest, name, value, i - 1);
        assert(rest.skip(i) =~= fields.skip(i + 1));
        assert(seq![fields[0]] + rest.take(i - 1) =~= fields.take(i));
        assert(inserted(fields, name, value) =~= fields.take(i) + seq![(name, value)] + fields.skip(
            i + 1,
        ).filter(|f: Field| f.0 != name));
    }
}

/// Extending a header by an item keeps what was there: the new value is the old one, a comma and
/// the item, whatever their lengths. A header that was not there comes last, with the item as its
/// value. The header has no other value then, and all other fields stay as they were.
pub proof fn law_item_added(fields: Seq<Field>, name: Seq<char>, item: Seq<u8>, i: int)
    ensures
        ({
            let after = inserted(fields, name, extended(first_value(fields, name), item));
            &&& (forall|k: int| 0 <= k < fields.len() ==> (#[trigger] fields[k]).0 != name)
                ==> after == fields.push((name, item))
            &&& 0 <= i < fields.len() && fields[i].0 == name && (forall|k: int|
                0 <= k < i ==> (#[trigger] fields[k]).0 != name) ==> {
                let old_value = fields[i].1;
                let new_value = after[i].1;
                &&& i < after.len()
                &&& after[i].0 == name
                &&& new_value.len() == old_value.len() + 1 + item.len()
                &&& new_value.take(old_value.len() as int) == old_value
                &&& new_value[old_value.len() as int] == 44
                &&& new_value.skip(old_value.len() as int + 1) == item
                &&& after.take(i) == fields.take(i)
                &&& after.skip(i + 1) == fields.skip(i + 1).filter(|f: Field| f.0 != name)
            }
        }),
{
    let new_value = extended(first_value(fields, name), item);
    let after = inserted(fields, name, new_value);
    if forall|k: int| 0 <= k < fields.len() ==> (#[trigger] fields[k]).0 != name {
        lemma_no_value(fields, name);
        crate::headers::lemma_inserted_new(fields, name, item);
    }
    if 0 <= i < fields.len() && fields[i].0 == name && (forall|k: int|
        0 <= k < i ==> (#[trigger] fields[k]).0 != name) {
        lemma_first_at(fields, name, i);
        lemma_inserted_at(fields, name, new_value, i);
        let old_value = fields[i].1;
        assert(new_value.take(old_value.len() as int) =~= old_value);
        assert(new_value.skip(old_value.len() as int + 1) =~= item);
        assert(after.take(i) =~= fields.take(i));
        assert(after.skip(i + 1) =~= fields.skip(i + 1).filter(|f: Field| f.0 != name));
    }
}

// Models.

/// The model of a request and of its head is that of its parts, as they are.
pub proof fn law_request_model(request: request::Request, head: RequestHead)
    ensures
        request@.method == request.method@,
        request@.uri == request.uri@,
        request@.version == request.version,
        request@.fields == header_fields(request.headers),
        request@.body == request.body@,
        head@.method == head.method@,
        head@.path == head.path@,
        head@.fields == field_list(head.fields@),
        head@.len == head.len,
{
}

/// The model of a response and of its head is that of its parts, as they are.
pub proof fn law_response_model(response: response::Response, head: ResponseHead)
    ensures
        response@.version == response.version,
        response@.status == response.status,
        response@.fields == header_fields(response.headers),
        response@.body == response.body@,
        head@.code == head.code,
        head@.fields == field_list(head.fields@),
        head@.len == head.len,
{
}

/// The model of a step in reading a request tells what the step is.
pub proof fn law_request_step_model(
    step: request::ReadStep,
    header: request::HeaderStep,
    read: Incoming,
)
    ensures
        match step {
            request::ReadStep::Read(request::ReadState::Head(received)) => step@
                == request::StepModel::Read(request::StateModel::Head(received@)),
            request::ReadStep::Read(request::ReadState::Body(request, length)) => step@
                == request::StepModel::Read(request::StateModel::Body(request@, length as nat)),
            request::ReadStep::Done(request) => step@ == request::StepModel::Done(request@),
            request::ReadStep::Failed(error) => step@ == request::StepModel::Failed(error),
            request::ReadStep::Unusable => step@ is Unusable,
        },
        match header {
            request::HeaderStep::More(received) => header@ == request::HeaderModel::More(received@),
            request::HeaderStep::Complete(request) => header@ == request::HeaderModel::Complete(
                request@,
            ),
            request::HeaderStep::Failed(error) => header@ == request::HeaderModel::Failed(error),
            request::HeaderStep::Unusable => header@ is Unusable,
        },
        match read {
            Ok(bytes) => incoming(read) == Ok::<Seq<u8>, std::io::Error>(bytes@),
            Err(error) => incoming(read) == Err::<Seq<u8>, std::io::Error>(error),
        },
{
}

/// The model of a step in reading a response tells what the step is.
pub proof fn law_response_step_model(step: response::ReadStep, header: response::HeaderStep)
    ensures
        match step {
            response::ReadStep::Read(response::ReadState::Head(received)) => step@
                == response::StepModel::Read(response::StateModel::Head(received@)),
            response::ReadStep::Read(response::ReadState::Body(response, length)) => step@
                == response::StepModel::Read(response::StateModel::Body(response@, length)),
            response::ReadStep::Done(response) => step@ == response::StepModel::Done(response@),
            response::ReadStep::Failed(error) => step@ == response::StepModel::Failed(error),
            response::ReadStep::Unusable => step@ is Unusable,
        },
        match header {
            response::HeaderStep::More(received) => header@ == response::HeaderModel::More(
                received@,
            ),
            response::HeaderStep::Complete(response) => header@ == response::HeaderModel::Complete(
                response@,
            ),
            response::HeaderStep::Failed(error) => header@ == response::HeaderModel::Failed(error),
            response::HeaderStep::Unusable => header@ is Unusable,
        },
{
}

/// The models of an event and of an action tell what they are.
pub proof fn law_event_model(event: Event, action: Action)
    ensures
        match event {
            Event::Connected => event@ is Connected,
            Event::AllDead => event@ is AllDead,
            Event::RequestRead(Ok(request)) => event@ == EventModel::RequestRead(Ok(request@)),
            Event::RequestRead(Err(error)) => event@ == EventModel::RequestRead(Err(error)),
            Event::Forwarded(request) => event@ == EventModel::Forwarded(request@),
            Event::ForwardFailed => event@ is ForwardFailed,
            Event::ResponseRead(Ok(response)) => event@ == EventModel::ResponseRead(Ok(response@)),
            Event::ResponseRead(Err(error)) => event@ == EventModel::ResponseRead(Err(error)),
        },
        match action {
            Action::ReadRequest => action@ is ReadRequest,
            Action::Forward(request) => action@ == ActionModel::Forward(request@),
            Action::ReadResponse(method) => action@ == ActionModel::ReadResponse(method@),
            Action::Reply(response) => action@ == ActionModel::Reply(response@),
            Action::ReplyAndClose(response) => action@ == ActionModel::ReplyAndClose(response@),
            Action::Close => action@ is Close,
        },
{
}

// Reading requests.

/// How much a reader of requests asks for: what is left of the 8000 bytes for a head, and of a
/// body 512 bytes at a time, or its whole length where that is less.
pub proof fn law_request_read_size(received: Seq<u8>, request: RequestModel, length: nat)
    ensures
        received.len() <= 8000 ==> request::read_size(request::StateModel::Head(received)) == 8000
            - received.len(),
        length <= 512 ==> request::read_size(request::StateModel::Body(request, length)) == length,
        length >= 512 ==> request::read_size(request::StateModel::Body(request, length)) == 512,
        request::waiting(request::StateModel::Head(received)) <==> received.len() <= 8000,
        request::waiting(request::StateModel::Body(request, length)) <==> request.body.len()
            < length && length <= 10000,
{
}

/// A head of which more is to come is read on. Where nothing more comes, the request is
/// incomplete, where the bytes are no head, it is malformed, and a broken connection is reported.
pub proof fn law_request_head_read(received: Seq<u8>, read: IncomingModel)
    ensures
        ({
            let step = request::read_step(request::StateModel::Head(received), read);
            match read {
                Err(error) => step == request::StepModel::Failed(
                    request::Error::ConnectionError(error),
                ),
                Ok(bytes) => if bytes.len() == 0 {
                    step == request::StepModel::Failed(
                        request::Error::IncompleteRequest(received.len() as usize),
                    )
                } else {
                    match request_head(received + bytes, 32) {
                        Err(error) => step == request::StepModel::Failed(
                            request::Error::MalformedRequest(error),
                        ),
                        Ok(None) => step == request::StepModel::Read(
                            request::StateModel::Head(received + bytes),
                        ),
                        Ok(Some(_)) => !(step matches request::StepModel::Read(
                            request::StateModel::Head(_),
                        )),
                    }
                },
            }
        }),
{
}

/// A head can become a request exactly when its method is a token, its target is a URI and its
/// fields can stand in a header. The request has that method, that URI, those fields and no body.
pub proof fn law_request_built(buffer: Seq<u8>, head: RequestHeadModel, uri: Option<Seq<char>>)
    ensures
        request::built(head, uri) is Some <==> head.method.len() > 0 && (forall|k: int|
            0 <= k < head.method.len() ==> is_token_char(#[trigger] head.method[k])) && uri is Some
            && all_valid(head.fields),
        request::built(head, uri) matches Some(request) ==> request.method == head.method
            && request.uri == uri->0 && request.version == Version::Http11 && request.fields
            == collected(head.fields) && request.body.len() == 0,
        request_head(buffer, 32) == Ok::<Option<RequestHeadModel>, httparse::Error>(Some(head)) ==> (
        request::buildable(buffer) <==> request::built(head, uri_text(head.path)) is Some),
        !(request_head(buffer, 32) matches Ok(Some(_))) ==> request::buildable(buffer),
{
}

/// How the reading of a request goes on once its head is complete: a request without a declared
/// length is complete. A declared length beyond 10000 is refused. Otherwise the request is
/// complete with exactly the declared length, waits while it has less, and does not match where it
/// has more.
pub proof fn law_request_after_head(request: RequestModel)
    ensures
        ({
            let step = request::after_head(request);
            match content_length(request.fields) {
                Err(_) => step == request::StepModel::Failed(request::Error::InvalidContentLength),
                Ok(None) => step == request::StepModel::Done(request),
                Ok(Some(length)) => {
                    let size = request.body.len();
                    &&& length > 10000 ==> step == request::StepModel::Failed(
                        request::Error::RequestBodyTooLarge,
                    )
                    &&& length <= 10000 && size == length ==> step == request::StepModel::Done(
                        request,
                    )
                    &&& length <= 10000 && size < length ==> step == request::StepModel::Read(
                        request::StateModel::Body(request, length as nat),
                    )
                    &&& length <= 10000 && size > length ==> step == request::StepModel::Failed(
                        request::Error::ContentLengthMismatch,
                    )
                },
            }
        }),
{
}

/// What a complete head leads to, and what the request then is. All bytes that came behind the
/// head are its body. Without a declared length that is all of it. A declared length beyond 10000
/// is refused. Otherwise the request is complete with exactly the declared length, waits while it
/// has less, and does not match where it has more.
pub proof fn law_request_head_complete(received: Seq<u8>, bytes: Seq<u8>, head: RequestHeadModel)
    requires
        bytes.len() > 0,
        request_head(received + bytes, 32) == Ok::<Option<RequestHeadModel>, httparse::Error>(
            Some(head),
        ),
        head.len <= (received + bytes).len(),
    ensures
        ({
            let step = request::read_step(request::StateModel::Head(received), Ok(bytes));
            let body = (received + bytes).skip(head.len as int);
            let request = RequestModel {
                method: head.method,
                uri: uri_text(head.path)->0,
                version: Version::Http11,
                fields: collected(head.fields),
                body,
            };
            let header = request::header_step(received, Ok(bytes));
            if !is_token(head.method) || uri_text(head.path) is None || !all_valid(head.fields) {
                step is Unusable && header is Unusable
            } else {
                header == request::HeaderModel::Complete(request) && match content_length(
                    collected(head.fields),
                ) {
                    Err(_) => step == request::StepModel::Failed(
                        request::Error::InvalidContentLength,
                    ),
                    Ok(None) => step == request::StepModel::Done(request),
                    Ok(Some(length)) => {
                        &&& length > 10000 ==> step == request::StepModel::Failed(
                            request::Error::RequestBodyTooLarge,
                        )
                        &&& length <= 10000 && body.len() == length ==> step
                            == request::StepModel::Done(request)
                        &&& length <= 10000 && body.len() < length ==> step
                            == request::StepModel::Read(
                            request::StateModel::Body(request, length as nat),
                        )
                        &&& length <= 10000 && body.len() > length ==> step
                            == request::StepModel::Failed(request::Error::ContentLengthMismatch)
                    },
                }
            }
        }),
{
    if let Some(bare) = request::built(head, uri_text(head.path)) {
        assert(request::with_more(bare, (received + bytes).skip(head.len as int))
            =~= RequestModel {
            method: head.method,
            uri: uri_text(head.path)->0,
            version: Version::Http11,
            fields: collected(head.fields),
            body: (received + bytes).skip(head.len as int),
        });
    }
}

/// What a read of a body leads to: the bytes join the body, however many they are, as long as
/// they are not too many in all. No bytes before the body has its length are a mismatch, and so
/// are too many; nothing else is.
pub proof fn law_request_body_read(request: RequestModel, length: nat, read: IncomingModel)
    requires
        request.body.len() < length,
    ensures
        ({
            let step = request::read_step(request::StateModel::Body(request, length), read);
            step == request::body_step(request, length, read) && match read {
                Err(error) => step == request::StepModel::Failed(
                    request::Error::ConnectionError(error),
                ),
                Ok(bytes) => {
                    let longer = RequestModel { body: request.body + bytes, ..request };
                    let size = request.body.len() + bytes.len();
                    &&& bytes.len() > 0 && size < length ==> step == request::StepModel::Read(
                        request::StateModel::Body(longer, length),
                    )
                    &&& bytes.len() > 0 && size == length ==> step == request::StepModel::Done(
                        longer,
                    )
                    &&& bytes.len() == 0 || size > length ==> step == request::StepModel::Failed(
                        request::Error::ContentLengthMismatch,
                    )
                },
            }
        }),
{
}

/// A body that is not shorter than its length is decided without a read.
pub proof fn law_request_body_decided(request: RequestModel, length: nat, read: IncomingModel)
    requires
        request.body.len() >= length,
    ensures
        request.body.len() == length ==> request::body_step(request, length, read)
            == request::StepModel::Done(request),
        request.body.len() > length ==> request::body_step(request, length, read)
            == request::StepModel::Failed(request::Error::ContentLengthMismatch),
{
}

/// It makes no difference whether bytes come in one read or in two.
pub proof fn law_request_reads_join(state: request::StateModel, first: Seq<u8>, second: Seq<u8>)
    requires
        first.len() > 0,
        second.len() > 0,
        state matches request::StateModel::Body(request, length) ==> request.body.len() < length,
        request::read_step(state, Ok(first)) matches request::StepModel::Read(next) && (next
            is Head <==> state is Head),
    ensures
        request::read_step(request::read_step(state, Ok(first))->Read_0, Ok(second))
            == request::read_step(state, Ok(first + second)),
{
    match state {
        request::StateModel::Head(received) => {
            assert((received + first) + second =~= received + (first + second));
        },
        request::StateModel::Body(request, length) => {
            assert((request.body + first) + second =~= request.body + (first + second));
            assert(request::with_more(request::with_more(request, first), second)
                =~= request::with_more(request, first + second));
        },
    }
}

/// Whether none of these reads failed, and each brought something.
pub open spec fn all_bring(reads: Seq<IncomingModel>) -> bool {
    forall|i: int|
        0 <= i < reads.len() ==> ((#[trigger] reads[i]) matches Ok(bytes) && bytes.len() > 0)
}

/// Reads that bring something make the bytes more.
proof fn lemma_total_grows(reads: Seq<IncomingModel>, k: int)
    requires
        all_bring(reads),
        0 <= k <= reads.len(),
    ensures
        total(reads.take(k)).is_prefix_of(total(reads)),
        k < reads.len() ==> total(reads.take(k)).len() < total(reads).len(),
    decreases reads.len(),
{
    if k == reads.len() {
        assert(reads.take(k) =~= reads);
    } else {
        let before = reads.drop_last();
        assert(reads[reads.len() - 1] == reads.last());
        assert forall|i: int| 0 <= i < before.len() implies ((#[trigger] before[i]) matches Ok(
            bytes,
        ) && bytes.len() > 0) by {
            assert(before[i] == reads[i]);
        }
        lemma_total_grows(before, k);
        assert(before.take(k) =~= reads.take(k));
    }
}

/// While no head is complete, the reader of a request keeps all bytes.
proof fn lemma_request_head_so_far(reads: Seq<IncomingModel>, m: int)
    requires
        all_bring(reads),
        0 <= m <= reads.len(),
        forall|j: int|
            0 < j <= m ==> request_head(#[trigger] total(reads.take(j)), 32) == Ok::<
                Option<RequestHeadModel>,
                httparse::Error,
            >(None),
    ensures
        request::run(reads.take(m)) == request::StepModel::Read(
            request::StateModel::Head(total(reads.take(m))),
        ),
    decreases m,
{
    if m == 0 {
        assert(total(reads.take(0)) =~= Seq::<u8>::empty());
    } else {
        lemma_request_head_so_far(reads, m - 1);
        let now = reads.take(m);
        assert(now.drop_last() =~= reads.take(m - 1));
        assert(now.last() == reads[m - 1]);
        assert(request_head(total(reads.take(m)), 32) == Ok::<
            Option<RequestHeadModel>,
            httparse::Error,
        >(None));
    }
}

/// A client that sends what it declared is understood, however its bytes are split into reads:
/// once the head is complete, a request with a declared length of at most 10000 is delivered with
/// the bytes behind the head as its body when exactly that many have arrived. While there are
/// fewer, the reader waits. It is a mismatch as soon as there are more.
pub proof fn law_request_understood(
    reads: Seq<IncomingModel>,
    m: int,
    head: RequestHeadModel,
    length: usize,
)
    requires
        all_bring(reads),
        0 < m <= reads.len(),
        forall|j: int|
            0 < j < m ==> request_head(#[trigger] total(reads.take(j)), 32) == Ok::<
                Option<RequestHeadModel>,
                httparse::Error,
            >(None),
        request_head(total(reads.take(m)), 32) == Ok::<Option<RequestHeadModel>, httparse::Error>(
            Some(head),
        ),
        head.len <= total(reads.take(m)).len(),
        is_token(head.method),
        uri_text(head.path) is Some,
        all_valid(head.fields),
        content_length(collected(head.fields)) == Ok::<Option<usize>, ()>(Some(length)),
        length <= 10000,
        m == reads.len() || total(reads.drop_last()).len() - head.len < length,
    ensures
        ({
            let body = total(reads).skip(head.len as int);
            let request = RequestModel {
                method: head.method,
                uri: uri_text(head.path)->0,
                version: Version::Http11,
                fields: collected(head.fields),
                body,
            };
            &&& body.len() == total(reads).len() - head.len
            &&& body.len() < length ==> request::run(reads) == request::StepModel::Read(
                request::StateModel::Body(request, length as nat),
            )
            &&& body.len() == length ==> request::run(reads) == request::StepModel::Done(request)
            &&& body.len() > length ==> request::run(reads) == request::StepModel::Failed(
                request::Error::ContentLengthMismatch,
            )
        }),
    decreases reads.len(),
{
    let before = reads.drop_last();
    let last = reads.len() - 1;
    assert(reads[last] == reads.last());
    let bytes = reads.last()->Ok_0;
    lemma_total_grows(reads, m);
    if m == reads.len() {
        assert(reads.take(m) =~= reads);
        assert(before =~= reads.take(m - 1));
        lemma_request_head_so_far(reads, m - 1);
        law_request_head_complete(total(before), bytes, head);
    } else {
        assert forall|i: int| 0 <= i < before.len() implies ((#[trigger] before[i]) matches Ok(
            bytes,
        ) && bytes.len() > 0) by {
            assert(before[i] == reads[i]);
        }
        assert forall|j: int| 0 < j < m implies request_head(
            #[trigger] total(before.take(j)),
            32,
        ) == Ok::<Option<RequestHeadModel>, httparse::Error>(None) by {
            assert(before.take(j) =~= reads.take(j));
        }
        assert(before.take(m) =~= reads.take(m));
        lemma_total_grows(before, m);
        if m < before.len() {
            assert(before.take(last - 1) =~= before.drop_last());
            lemma_total_grows(before, last - 1);
        }
        law_request_understood(before, m, head, length);
        let arrived = total(before).skip(head.len as int);
        assert(total(reads).skip(head.len as int) =~= arrived + bytes);
    }
}

/// A request that declares no length is delivered as soon as its head is complete.
pub proof fn law_request_without_length(
    reads: Seq<IncomingModel>,
    head: RequestHeadModel,
)
    requires
        all_bring(reads),
        reads.len() > 0,
        forall|j: int|
            0 < j < reads.len() ==> request_head(#[trigger] total(reads.take(j)), 32) == Ok::<
                Option<RequestHeadModel>,
                httparse::Error,
            >(None),
        request_head(total(reads), 32) == Ok::<Option<RequestHeadModel>, httparse::Error>(
            Some(head),
        ),
        head.len <= total(reads).len(),
        is_token(head.method),
        uri_text(head.path) is Some,
        all_valid(head.fields),
        content_length(collected(head.fields)) == Ok::<Option<usize>, ()>(None),
    ensures
        request::run(reads) == request::StepModel::Done(
            RequestModel {
                method: head.method,
                uri: uri_text(head.path)->0,
                version: Version::Http11,
                fields: collected(head.fields),
                body: total(reads).skip(head.len as int),
            },
        ),
{
    let before = reads.drop_last();
    assert(reads[reads.len() - 1] == reads.last());
    assert(before =~= reads.take(reads.len() - 1));
    lemma_request_head_so_far(reads, reads.len() - 1);
    law_request_head_complete(total(before), reads.last()->Ok_0, head);
}

// Reading responses.

/// How much a reader of responses asks for: what is left of the 8000 bytes for a head, and of a
/// body 512 bytes at a time.
pub proof fn law_response_read_size(
    received: Seq<u8>,
    response: ResponseModel,
    length: Option<usize>,
)
    ensures
        received.len() <= 8000 ==> response::read_size(response::StateModel::Head(received)) == 8000
            - received.len(),
        response::read_size(response::StateModel::Body(response, length)) == 512,
        response::waiting(response::StateModel::Head(received)) <==> received.len() <= 8000,
        response::waiting(response::StateModel::Body(response, length)) <==> 100 <= response.status
            <= 999 && response.body.len() <= 10000000 && (length matches Some(declared)
            ==> response.body.len() < declared),
{
}

/// A head of which more is to come is read on. Where nothing more comes, the response is
/// incomplete, where the bytes are no head, it is malformed, and a broken connection is reported.
pub proof fn law_response_head_read(method: Seq<char>, received: Seq<u8>, read: IncomingModel)
    ensures
        ({
            let step = response::read_step(method, response::StateModel::Head(received), read);
            match read {
                Err(error) => step == response::StepModel::Failed(
                    response::Error::ConnectionError(error),
                ),
                Ok(bytes) => if bytes.len() == 0 {
                    step == response::StepModel::Failed(response::Error::IncompleteResponse)
                } else {
                    match response_head(received + bytes, 32) {
                        Err(error) => step == response::StepModel::Failed(
                            response::Error::MalformeResponse(error),
                        ),
                        Ok(None) => step == response::StepModel::Read(
                            response::StateModel::Head(received + bytes),
                        ),
                        Ok(Some(_)) => !(step matches response::StepModel::Read(
                            response::StateModel::Head(_),
                        )),
                    }
                },
            }
        }),
{
}

/// A head can become a response exactly when its code has three digits and its fields can stand
/// in a header. The response has that code, those fields and no body.
pub proof fn law_response_built(buffer: Seq<u8>, head: ResponseHeadModel)
    ensures
        response::built(head) is Some <==> 100 <= head.code <= 999 && all_valid(head.fields),
        response::built(head) matches Some(response) ==> response.status == head.code
            && response.version == Version::Http11 && response.fields == collected(head.fields)
            && response.body.len() == 0,
        response_head(buffer, 32) == Ok::<Option<ResponseHeadModel>, httparse::Error>(Some(head))
            ==> (response::buildable(buffer) <==> response::built(head) is Some),
        !(response_head(buffer, 32) matches Ok(Some(_))) ==> response::buildable(buffer),
{
}

/// How the reading of a response goes on once its head is complete. The answer to a HEAD, and one
/// with a status below 200, with 204 or with 304, is complete; any other has a body, whatever the
/// method, and is read up to its declared length, or until the server hangs up.
pub proof fn law_response_after_head(method: Seq<char>, response: ResponseModel)
    ensures
        ({
            let step = response::after_head(method, response);
            let size = response.body.len();
            if method == "HEAD"@ || response.status < 200 || response.status == 204
                || response.status == 304 {
                step == response::StepModel::Done(response)
            } else {
                match content_length(response.fields) {
                    Err(_) => step == response::StepModel::Failed(
                        response::Error::InvalidContentLength,
                    ),
                    Ok(None) => step == response::StepModel::Read(
                        response::StateModel::Body(response, None),
                    ),
                    Ok(Some(length)) => {
                        &&& size == length ==> step == response::StepModel::Done(response)
                        &&& size < length ==> step == response::StepModel::Read(
                            response::StateModel::Body(response, Some(length)),
                        )
                        &&& size > length ==> step == response::StepModel::Failed(
                            response::Error::ContentLengthMismatch,
                        )
                    },
                }
            }
        }),
{
}

/// What a complete head leads to, and what the response then is. All bytes that came behind the
/// head are its body. The answer to a HEAD, and one with a status below 200, with 204 or with 304,
/// has no body to wait for; any other does, whatever the method. It is complete with exactly the
/// declared length, waits while it has less or where none is declared, and does not match where it
/// has more.
pub proof fn law_response_head_complete(
    method: Seq<char>,
    received: Seq<u8>,
    bytes: Seq<u8>,
    head: ResponseHeadModel,
)
    requires
        bytes.len() > 0,
        response_head(received + bytes, 32) == Ok::<Option<ResponseHeadModel>, httparse::Error>(
            Some(head),
        ),
        head.len <= (received + bytes).len(),
    ensures
        ({
            let step = response::read_step(
                method,
                response::StateModel::Head(received),
                Ok(bytes),
            );
            let body = (received + bytes).skip(head.len as int);
            let response = ResponseModel {
                version: Version::Http11,
                status: head.code,
                fields: collected(head.fields),
                body,
            };
            let header = response::header_step(received, Ok(bytes));
            if !(100 <= head.code <= 999) || !all_valid(head.fields) {
                step is Unusable && header is Unusable
            } else if header != response::HeaderModel::Complete(response) {
                false
            } else if method == "HEAD"@ || head.code < 200 || head.code == 204 || head.code
                == 304 {
                step == response::StepModel::Done(response)
            } else {
                match content_length(collected(head.fields)) {
                    Err(_) => step == response::StepModel::Failed(
                        response::Error::InvalidContentLength,
                    ),
                    Ok(None) => step == response::StepModel::Read(
                        response::StateModel::Body(response, None),
                    ),
                    Ok(Some(length)) => {
                        &&& body.len() == length ==> step == response::StepModel::Done(response)
                        &&& body.len() < length ==> step == response::StepModel::Read(
                            response::StateModel::Body(response, Some(length)),
                        )
                        &&& body.len() > length ==> step == response::StepModel::Failed(
                            response::Error::ContentLengthMismatch,
                        )
                    },
                }
            }
        }),
{
    if let Some(bare) = response::built(head) {
        assert(response::with_more(bare, (received + bytes).skip(head.len as int))
            =~= ResponseModel {
            version: Version::Http11,
            status: head.code,
            fields: collected(head.fields),
            body: (received + bytes).skip(head.len as int),
        });
    }
}

/// What a read of a body leads to: the bytes join the body, however many they are, up to the
/// declared length and to 10000000 in all. A server that hangs up has ended a body without a
/// declared length, and has broken off one that declares more.
pub proof fn law_response_body_read(
    method: Seq<char>,
    response: ResponseModel,
    length: Option<usize>,
    read: IncomingModel,
)
    requires
        length matches Some(declared) ==> response.body.len() < declared,
    ensures
        ({
            let step = response::read_step(
                method,
                response::StateModel::Body(response, length),
                read,
            );
            step == response::body_step(response, length, read) && match read {
                Err(error) => step == response::StepModel::Failed(
                    response::Error::ConnectionError(error),
                ),
                Ok(bytes) => {
                    let longer = ResponseModel { body: response.body + bytes, ..response };
                    let size = response.body.len() + bytes.len();
                    &&& bytes.len() == 0 && length is None ==> step == response::StepModel::Done(
                        response,
                    )
                    &&& bytes.len() == 0 && length is Some ==> step == response::StepModel::Failed(
                        response::Error::ContentLengthMismatch,
                    )
                    &&& bytes.len() > 0 && length is Some && size > length->0 ==> step
                        == response::StepModel::Failed(response::Error::ContentLengthMismatch)
                    &&& bytes.len() > 0 && !(length is Some && size > length->0) && size > 10000000
                        ==> step == response::StepModel::Failed(
                        response::Error::ResponseBodyTooLarge,
                    )
                    &&& bytes.len() > 0 && length is Some && size == length->0 && size <= 10000000
                        ==> step == response::StepModel::Done(longer)
                    &&& bytes.len() > 0 && (length is None || size < length->0) && size <= 10000000
                        ==> step == response::StepModel::Read(
                        response::StateModel::Body(longer, length),
                    )
                },
            }
        }),
{
}

/// A body that is not shorter than its declared length is decided without a read.
pub proof fn law_response_body_decided(
    response: ResponseModel,
    length: usize,
    read: IncomingModel,
)
    requires
        response.body.len() >= length,
    ensures
        response.body.len() == length ==> response::body_step(response, Some(length), read)
            == response::StepModel::Done(response),
        response.body.len() > length ==> response::body_step(response, Some(length), read)
            == response::StepModel::Failed(response::Error::ContentLengthMismatch),
{
}

/// It makes no difference whether bytes come in one read or in two.
pub proof fn law_response_reads_join(
    method: Seq<char>,
    state: response::StateModel,
    first: Seq<u8>,
    second: Seq<u8>,
)
    requires
        first.len() > 0,
        second.len() > 0,
        state matches response::StateModel::Body(response, length) ==> (length matches Some(
            declared,
        ) ==> response.body.len() < declared),
        response::read_step(method, state, Ok(first)) matches response::StepModel::Read(next) && (
        next is Head <==> state is Head),
    ensures
        response::read_step(
            method,
            response::read_step(method, state, Ok(first))->Read_0,
            Ok(second),
        ) == response::read_step(method, state, Ok(first + second)),
{
    match state {
        response::StateModel::Head(received) => {
            assert((received + first) + second =~= received + (first + second));
        },
        response::StateModel::Body(response, length) => {
            assert((response.body + first) + second =~= response.body + (first + second));
            assert(response::with_more(response::with_more(response, first), second)
                =~= response::with_more(response, first + second));
        },
    }
}

/// While no head is complete, the reader of a response keeps all bytes.
proof fn lemma_response_head_so_far(method: Seq<char>, reads: Seq<IncomingModel>, m: int)
    requires
        all_bring(reads),
        0 <= m <= reads.len(),
        forall|j: int|
            0 < j <= m ==> response_head(#[trigger] total(reads.take(j)), 32) == Ok::<
                Option<ResponseHeadModel>,
                httparse::Error,
            >(None),
    ensures
        response::run(method, reads.take(m)) == response::StepModel::Read(
            response::StateModel::Head(total(reads.take(m))),
        ),
    decreases m,
{
    if m == 0 {
        assert(total(reads.take(0)) =~= Seq::<u8>::empty());
    } else {
        lemma_response_head_so_far(method, reads, m - 1);
        let now = reads.take(m);
        assert(now.drop_last() =~= reads.take(m - 1));
        assert(now.last() == reads[m - 1]);
        assert(response_head(total(reads.take(m)), 32) == Ok::<
            Option<ResponseHeadModel>,
            httparse::Error,
        >(None));
    }
}

/// A server that sends what it declared is understood, however its bytes are split into reads:
/// once the head is complete, a response with a declared length is delivered with the bytes behind
/// the head as its body when exactly that many have arrived. While there are fewer, the reader
/// waits. It is a mismatch as soon as there are more. Without a declared length the reader waits
/// until the server hangs up, and delivers all that arrived by then.
pub proof fn law_response_understood(
    method: Seq<char>,
    reads: Seq<IncomingModel>,
    m: int,
    head: ResponseHeadModel,
    length: Option<usize>,
)
    requires
        all_bring(reads),
        0 < m <= reads.len(),
        forall|j: int|
            0 < j < m ==> response_head(#[trigger] total(reads.take(j)), 32) == Ok::<
                Option<ResponseHeadModel>,
                httparse::Error,
            >(None),
        response_head(total(reads.take(m)), 32) == Ok::<
            Option<ResponseHeadModel>,
            httparse::Error,
        >(Some(head)),
        head.len <= total(reads.take(m)).len(),
        method != "HEAD"@,
        200 <= head.code <= 999,
        head.code != 204,
        head.code != 304,
        all_valid(head.fields),
        content_length(collected(head.fields)) == Ok::<Option<usize>, ()>(length),
        total(reads).len() - head.len <= 10000000,
        length matches Some(declared) ==> m == reads.len() || total(reads.drop_last()).len()
            - head.len < declared,
    ensures
        ({
            let body = total(reads).skip(head.len as int);
            let response = ResponseModel {
                version: Version::Http11,
                status: head.code,
                fields: collected(head.fields),
                body,
            };
            let hung_up = reads.push(Ok(Seq::empty()));
            &&& body.len() == total(reads).len() - head.len
            &&& length is None || body.len() < length->0 ==> response::run(method, reads)
                == response::StepModel::Read(response::StateModel::Body(response, length))
            &&& length is Some && body.len() == length->0 ==> response::run(method, reads)
                == response::StepModel::Done(response)
            &&& length is Some && body.len() > length->0 ==> response::run(method, reads)
                == response::StepModel::Failed(response::Error::ContentLengthMismatch)
            &&& length is None ==> response::run(method, hung_up) == response::StepModel::Done(
                response,
            )
        }),
    decreases reads.len(),
{
    let before = reads.drop_last();
    let last = reads.len() - 1;
    let hung_up = reads.push(Ok(Seq::<u8>::empty()));
    assert(hung_up.drop_last() =~= reads);
    assert(reads[last] == reads.last());
    let bytes = reads.last()->Ok_0;
    lemma_total_grows(reads, m);
    if m == reads.len() {
        assert(reads.take(m) =~= reads);
        assert(before =~= reads.take(m - 1));
        lemma_response_head_so_far(method, reads, m - 1);
        law_response_head_complete(method, total(before), bytes, head);
    } else {
        assert forall|i: int| 0 <= i < before.len() implies ((#[trigger] before[i]) matches Ok(
            bytes,
        ) && bytes.len() > 0) by {
            assert(before[i] == reads[i]);
        }
        assert forall|j: int| 0 < j < m implies response_head(
            #[trigger] total(before.take(j)),
            32,
        ) == Ok::<Option<ResponseHeadModel>, httparse::Error>(None) by {
            assert(before.take(j) =~= reads.take(j));
        }
        assert(before.take(m) =~= reads.take(m));
        lemma_total_grows(before, m);
        if m < before.len() {
            assert(before.take(last - 1) =~= before.drop_last());
            lemma_total_grows(before, last - 1);
        }
        law_response_understood(method, before, m, head, length);
        let arrived = total(before).skip(head.len as int);
        assert(total(reads).skip(head.len as int) =~= arrived + bytes);
    }
}

/// A response that has no body by its nature, the answer to a HEAD or one with a status below 200,
/// with 204 or with 304, is delivered as soon as its head is complete.
pub proof fn law_response_without_body(
    method: Seq<char>,
    reads: Seq<IncomingModel>,
    head: ResponseHeadModel,
)
    requires
        all_bring(reads),
        reads.len() > 0,
        forall|j: int|
            0 < j < reads.len() ==> response_head(#[trigger] total(reads.take(j)), 32) == Ok::<
                Option<ResponseHeadModel>,
                httparse::Error,
            >(None),
        response_head(total(reads), 32) == Ok::<Option<ResponseHeadModel>, httparse::Error>(
            Some(head),
        ),
        head.len <= total(reads).len(),
        100 <= head.code <= 999,
        method == "HEAD"@ || head.code < 200 || head.code == 204 || head.code == 304,
        all_valid(head.fields),
    ensures
        response::run(method, reads) == response::StepModel::Done(
            ResponseModel {
                version: Version::Http11,
                status: head.code,
                fields: collected(head.fields),
                body: total(reads).skip(head.len as int),
            },
        ),
{
    let before = reads.drop_last();
    assert(reads[reads.len() - 1] == reads.last());
    assert(before =~= reads.take(reads.len() - 1));
    lemma_response_head_so_far(method, reads, reads.len() - 1);
    law_response_head_complete(method, total(before), reads.last()->Ok_0, head);
}

/// No body is left behind on the connection: unless the request was a HEAD or the status is below
/// 200, 204 or 304, a delivered response has a body of exactly the declared length, or, where none
/// is declared, was delivered only once the server had hung up.
pub proof fn law_body_not_left_behind(method: Seq<char>, reads: Seq<IncomingModel>)
    requires
        response::history(method, reads),
        method != "HEAD"@,
    ensures
        response::run(method, reads) matches response::StepModel::Done(response) ==> (
        response.status >= 200 && response.status != 204 && response.status != 304 ==> match (
            content_length(response.fields)
        ) {
            Ok(Some(length)) => response.body.len() == length,
            Ok(None) => reads.last() == Ok::<Seq<u8>, std::io::Error>(Seq::empty()),
            Err(_) => false,
        }),
{
    if response::run(method, reads) is Done {
        response::law_delivered_length(method, reads);
        if let Ok(bytes) = reads.last() {
            if bytes.len() == 0 {
                assert(bytes =~= Seq::empty());
            }
        }
    }
}

// Writing.

/// How the versions of the protocol are written.
pub proof fn law_version_texts()
    ensures
        version_text(Version::Http09) == "HTTP/0.9"@,
        version_text(Version::Http10) == "HTTP/1.0"@,
        version_text(Version::Http11) == "HTTP/1.1"@,
        version_text(Version::H2) == "HTTP/2.0"@,
        version_text(Version::H3) == "HTTP/3.0"@,
{
}

/// Every header field is written on a line of its own, in its turn: the name, a colon, the value,
/// and a carriage return with a line feed.
pub proof fn law_fields_written(fields: Seq<Field>, field: Field)
    ensures
        fields_bytes(Seq::empty()) == Seq::<u8>::empty(),
        fields_bytes(fields.push(field)) == fields_bytes(fields) + encode_utf8(field.0) + seq![58u8]
            + field.1 + seq![13u8, 10u8],
{
    assert(fields.push(field).drop_last() =~= fields);
    assert(fields_bytes(fields.push(field)) =~= fields_bytes(fields) + encode_utf8(field.0)
        + seq![58u8] + field.1 + seq![13u8, 10u8]);
}

/// A request is written as its method, URI and version with a space between them, the lines of
/// its header, an empty line and its body.
pub proof fn law_request_written(request: RequestModel)
    ensures
        request_line(request) == request.method + " "@ + request.uri + " "@ + version_text(
            request.version,
        ),
        request_bytes(request) == encode_utf8(
            request.method + " "@ + request.uri + " "@ + version_text(request.version),
        ) + seq![13u8, 10u8] + fields_bytes(request.fields) + seq![13u8, 10u8] + request.body,
{
}

/// A response is written as its version, a space and a comma, its status code, a space and its
/// reason phrase, then the lines of its header, an empty line and its body. The phrase is the one
/// that goes with the code, and is left empty where there is none.
pub proof fn law_response_written(response: ResponseModel, reason: Seq<char>)
    ensures
        line_of(response, reason) == version_text(response.version) + " ,"@ + decimal(
            response.status as nat,
        ) + " "@ + reason,
        bytes_of(response, reason) == encode_utf8(
            version_text(response.version) + " ,"@ + decimal(response.status as nat) + " "@
                + reason,
        ) + seq![13u8, 10u8] + fields_bytes(response.fields) + seq![13u8, 10u8] + response.body,
        canonical_reason(response.status) == Some(reason) ==> response_line(response) == line_of(
            response,
            reason,
        ) && response_bytes(response) == bytes_of(response, reason),
        canonical_reason(response.status) is None ==> response_line(response) == line_of(
            response,
            Seq::empty(),
        ) && response_bytes(response) == bytes_of(response, Seq::empty()),
{
}

/// A response that tells of an error has the code and the phrase in its body, and declares the
/// type and the length of that body.
pub proof fn law_error_response(status: u16, reason: Seq<char>)
    ensures
        ({
            let response = error_of(status, reason);
            &&& response.version == Version::Http11
            &&& response.status == status
            &&& response.body == encode_utf8("HTTP "@ + decimal(status as nat) + ", "@ + reason)
            &&& response.fields.len() == 2
            &&& response.fields[0] == ("content-type"@, encode_utf8("test/plain"@))
            &&& response.fields[1] == (
                "content-length"@,
                encode_utf8(decimal(response.body.len())),
            )
            &&& canonical_reason(status) == Some(reason) ==> http_error(status) == response
        }),
        canonical_reason(status) is None ==> http_error(status) == error_of(status, Seq::empty()),
{
}

// The limit and the course of a connection.

/// Only a request that was read is counted, and once: it raises the count of its client by one,
/// where the limit asks for counting at all and the count can still be raised. No other event
/// changes the counter, and no count of another client ever changes.
pub proof fn law_counted_once(
    event: EventModel,
    counter: Map<Seq<char>, usize>,
    max: usize,
    client: Seq<char>,
    other: Seq<char>,
)
    ensures
        ({
            let after = count_after(event, counter, max, client);
            let had = if counter.contains_key(client) {
                counter[client] as int
            } else {
                0
            };
            let is_request = event matches EventModel::RequestRead(Ok(_));
            &&& !is_request || max == 0 ==> after == counter
            &&& is_request && max > 0 ==> after.contains_key(client) && after[client] == if had
                < usize::MAX {
                had + 1
            } else {
                had
            }
            &&& other != client ==> after.contains_key(other) == counter.contains_key(other) && (
            counter.contains_key(other) ==> after[other] == counter[other])
        }),
{
}

/// What comes of each event, given how many requests the client had made before. A request is
/// refused with 429 exactly when there is a limit and the client had made that many already; any
/// other is forwarded. A client that sent something unreadable is told so with 400, or with 413
/// for too large a body, and one that is gone is told nothing. A failure of the upstream server
/// is told with 502, after which the connection ends. A response goes to the client as it came.
pub proof fn law_event_answered(
    event: EventModel,
    counter: Map<Seq<char>, usize>,
    max: usize,
    client: Seq<char>,
)
    ensures
        ({
            let action = action_after(event, counter, max, client);
            let had = if counter.contains_key(client) {
                counter[client] as int
            } else {
                0
            };
            match event {
                EventModel::Connected => action is ReadRequest,
                EventModel::AllDead => action == ActionModel::ReplyAndClose(http_error(502)),
                EventModel::ForwardFailed => action == ActionModel::ReplyAndClose(http_error(502)),
                EventModel::ResponseRead(Err(_)) => action == ActionModel::ReplyAndClose(
                    http_error(502),
                ),
                EventModel::ResponseRead(Ok(response)) => action == ActionModel::Reply(response),
                EventModel::Forwarded(request) => action == ActionModel::ReadResponse(
                    request.method,
                ),
                EventModel::RequestRead(Err(error)) => match error {
                    request::Error::IncompleteRequest(received) => if received == 0 {
                        action is Close
                    } else {
                        action == ActionModel::Reply(http_error(400))
                    },
                    request::Error::MalformedRequest(_) => action == ActionModel::Reply(
                        http_error(400),
                    ),
                    request::Error::InvalidContentLength => action == ActionModel::Reply(
                        http_error(400),
                    ),
                    request::Error::ContentLengthMismatch => action == ActionModel::Reply(
                        http_error(400),
                    ),
                    request::Error::RequestBodyTooLarge => action == ActionModel::Reply(
                        http_error(413),
                    ),
                    request::Error::ConnectionError(_) => action is Close,
                },
                EventModel::RequestRead(Ok(request)) => if 0 < max < usize::MAX && had >= max {
                    action == ActionModel::Reply(http_error(429))
                } else {
                    action == ActionModel::Forward(forwarded(request, client))
                },
            }
        }),
        http_error(400).status == 400,
        http_error(413).status == 413,
        http_error(429).status == 429,
        http_error(502).status == 502,
{
}

/// The status code for each reason why a request could not be read.
pub proof fn law_error_codes(error: request::Error)
    ensures
        error_status(error) == match error {
            request::Error::RequestBodyTooLarge => 413u16,
            request::Error::ConnectionError(_) => 503u16,
            _ => 400u16,
        },
{
}

/// A forwarded request is the one that was read, with the client's address at the end of its
/// X-Forwarded-For header: behind all that stood there and a comma, whatever its length, or alone
/// in a new header. Nothing else of it changes.
pub proof fn law_address_added(request: RequestModel, client: Seq<char>, i: int)
    ensures
        ({
            let sent = forwarded(request, client);
            let name = "x-forwarded-for"@;
            let address = encode_utf8(client);
            let fields = request.fields;
            &&& sent.method == request.method
            &&& sent.uri == request.uri
            &&& sent.version == request.version
            &&& sent.body == request.body
            &&& (forall|k: int| 0 <= k < fields.len() ==> (#[trigger] fields[k]).0 != name)
                ==> sent.fields == fields.push((name, address))
            &&& 0 <= i < fields.len() && fields[i].0 == name && (forall|k: int|
                0 <= k < i ==> (#[trigger] fields[k]).0 != name) ==> {
                let listed = fields[i].1;
                let now_listed = sent.fields[i].1;
                &&& i < sent.fields.len()
                &&& sent.fields[i].0 == name
                &&& now_listed.len() == listed.len() + 1 + address.len()
                &&& now_listed.take(listed.len() as int) == listed
                &&& now_listed[listed.len() as int] == 44
                &&& now_listed.skip(listed.len() as int + 1) == address
                &&& sent.fields.take(i) == fields.take(i)
                &&& sent.fields.skip(i + 1) == fields.skip(i + 1).filter(|f: Field| f.0 != name)
            }
        }),
{
    law_item_added(request.fields, "x-forwarded-for"@, encode_utf8(client), i);
}

/// Whether turn `i` finds the counter as the turn before it left it.
pub open spec fn is_undisturbed(turns: Seq<Turn>, i: int, max: usize, client: Seq<char>) -> bool {
    turns[i].counter == count_after(turns[i - 1].event, turns[i - 1].counter, max, client)
}

/// How many requests were read in the first `n` turns.
pub open spec fn requests_read(turns: Seq<Turn>, n: int) -> nat
    decreases n,
{
    if n <= 0 {
        0
    } else {
        requests_read(turns, n - 1) + if turns[n - 1].event matches EventModel::RequestRead(
            Ok(_),
        ) {
            1nat
        } else {
            0
        }
    }
}

/// Over a connection with whose counter nobody interferes, the count of the client is what it was
/// at the start plus the number of requests that were read. So a client that had made `start`
/// requests has exactly its next `max - start` requests forwarded, and every one after these is
/// answered with 429, whatever else happens in between.
pub proof fn law_limit_over_connection(
    turns: Seq<Turn>,
    i: int,
    start: nat,
    max: usize,
    client: Seq<char>,
)
    requires
        0 <= i < turns.len(),
        0 < max < usize::MAX,
        start + turns.len() <= usize::MAX,
        start == if turns[0].counter.contains_key(client) {
            turns[0].counter[client] as int
        } else {
            0
        },
        forall|k: int| 0 < k < turns.len() ==> #[trigger] is_undisturbed(turns, k, max, client),
    ensures
        requests_read(turns, i) <= i,
        start + requests_read(turns, i) == if turns[i].counter.contains_key(client) {
            turns[i].counter[client] as int
        } else {
            0
        },
        turns[i].event matches EventModel::RequestRead(Ok(request)) ==> action_after(
            turns[i].event,
            turns[i].counter,
            max,
            client,
        ) == if start + requests_read(turns, i) < max {
            ActionModel::Forward(forwarded(request, client))
        } else {
            ActionModel::Reply(http_error(429))
        },
    decreases i,
{
    law_event_answered(turns[i].event, turns[i].counter, max, client);
    if i > 0 {
        law_limit_over_connection(turns, i - 1, start, max, client);
        assert(is_undisturbed(turns, i, max, client));
        law_counted_once(turns[i - 1].event, turns[i - 1].counter, max, client, client);
    }
}

/// What one client does has no influence on another: with the same count of their own, two
/// clients get the same kind of answer, whatever else the counters hold.
pub proof fn law_clients_apart(
    request: RequestModel,
    counter: Map<Seq<char>, usize>,
    other_counter: Map<Seq<char>, usize>,
    max: usize,
    client: Seq<char>,
)
    requires
        counter.contains_key(client) == other_counter.contains_key(client),
        counter.contains_key(client) ==> counter[client] == other_counter[client],
    ensures
        action_after(EventModel::RequestRead(Ok(request)), counter, max, client) == action_after(
            EventModel::RequestRead(Ok(request)),
            other_counter,
            max,
            client,
        ),
{
}

// The upstream servers.

/// The texts of a list of strings are those of its items, in their order.
pub proof fn law_texts(strings: Seq<String>, i: int)
    ensures
        texts(strings).len() == strings.len(),
        0 <= i < strings.len() ==> texts(strings)[i] == strings[i]@,
{
}

/// The fields of a list of names and values are its items, in their order.
pub proof fn law_field_list(fields: Seq<(String, Vec<u8>)>, i: int)
    ensures
        field_list(fields).len() == fields.len(),
        0 <= i < fields.len() ==> field_list(fields)[i] == (fields[i].0@, fields[i].1@),
{
}

/// A server is on the list after a round exactly when it answered its check with 200. No other
/// status, and no failure, puts a server there.
pub proof fn law_only_200_is_alive<A>(servers: Seq<A>, probes: Seq<Probe>, server: A)
    requires
        probes.len() <= servers.len(),
    ensures
        live_after(servers, probes).contains(server) <==> exists|i: int|
            0 <= i < probes.len() && servers[i] == server && (#[trigger] probes[i])
                == Probe::Answered(200),
{
    crate::upstream::law_live_iff_healthy(servers, probes, server);
    if live_after(servers, probes).contains(server) {
        let i = choose|i: int|
            0 <= i < probes.len() && servers[i] == server && crate::upstream::is_healthy(
                #[trigger] probes[i],
            );
        assert(probes[i] == Probe::Answered(200));
    }
    if exists|i: int|
        0 <= i < probes.len() && servers[i] == server && (#[trigger] probes[i]) == Probe::Answered(
            200,
        ) {
        let i = choose|i: int|
            0 <= i < probes.len() && servers[i] == server && (#[trigger] probes[i])
                == Probe::Answered(200);
        assert(crate::upstream::is_healthy(probes[i]));
    }
}

/// A round goes from server to server: each adds itself to the list when it answers with 200, and
/// leaves the list as it is otherwise.
pub proof fn law_round_goes_on<A>(servers: Seq<A>, probes: Seq<Probe>, probe: Probe)
    ensures
        live_after(servers, Seq::<Probe>::empty()) == Seq::<A>::empty(),
        live_after(servers, probes.push(probe)) == if probe == Probe::Answered(200) {
            live_after(servers, probes).push(servers[probes.len() as int])
        } else {
            live_after(servers, probes)
        },
{
    assert(probes.push(probe).drop_last() =~= probes);
}

/// After a failed attempt the last server of the list stands in the place of the one that was
/// tried, and all others stay where they are.
pub proof fn law_tried_server_replaced<A>(list: Seq<A>, index: int, k: int)
    requires
        0 <= index < list.len(),
        0 <= k < list.len() - 1,
    ensures
        removed(list, index).len() == list.len() - 1,
        removed(list, index)[k] == if k == index {
            list[list.len() - 1]
        } else {
            list[k]
        },
{
}

/// A health check asks with a GET for the given URI, names the server as the host, and sends
/// nothing else.
pub proof fn law_health_request(uri: Seq<char>, upstream: Seq<char>)
    ensures
        ({
            let request = health_request(uri, upstream);
            &&& request.method == "GET"@
            &&& request.uri == uri
            &&& request.version == Version::Http11
            &&& request.fields == seq![("host"@, encode_utf8(upstream))]
            &&& request.body.len() == 0
        }),
{
}

} // verus!
