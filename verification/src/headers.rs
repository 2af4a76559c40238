//! Header fields, kept in an `http::HeaderMap`.
//!
//! A header map is modelled by the sequence of its fields, name and value, in the order in
//! which the map hands them out. Names are lower case there, and the fields of one name
//! stand next to each other.

use crate::decimal::{parse_unsigned, unsigned};
use crate::head::field_list;
use crate::stream::{crlf, put_bytes, put_crlf, put_text};
use vstd::prelude::*;
use vstd::string::*;
use vstd::utf8::*;

verus! {

/// A header field: its lower-case name and the bytes of its value.
pub type Field = (Seq<char>, Seq<u8>);

/// With fewer distinct names than this a header map always has room for one more. From here
/// on it depends on how the names hash.
pub const MAX_SURE_NAMES: usize = 6554;

/// The longest name that a header can have.
pub const MAX_NAME_LEN: usize = 65535;

/// Whether `c` may stand in a token: a letter, a digit or one of fifteen other marks.
pub open spec fn is_token_char(c: char) -> bool {
    ||| 'a' <= c <= 'z'
    ||| 'A' <= c <= 'Z'
    ||| '0' <= c <= '9'
    ||| c == '!'
    ||| c == '#'
    ||| c == '$'
    ||| c == '%'
    ||| c == '&'
    ||| c == '\''
    ||| c == '*'
    ||| c == '+'
    ||| c == '-'
    ||| c == '.'
    ||| c == '^'
    ||| c == '_'
    ||| c == '`'
    ||| c == '|'
    ||| c == '~'
}

/// Whether `text` is a token: one or more token characters.
pub open spec fn is_token(text: Seq<char>) -> bool {
    text.len() > 0 && forall|i: int| 0 <= i < text.len() ==> is_token_char(#[trigger] text[i])
}

/// Whether `name` can be the name of a header.
pub open spec fn is_header_name(name: Seq<char>) -> bool {
    is_token(name) && name.len() <= MAX_NAME_LEN
}

/// Whether `b` may stand in a header value: a tab, or anything but a control character.
pub open spec fn is_value_byte(b: u8) -> bool {
    b == 9 || (b >= 32 && b != 127)
}

/// Whether `value` can be the value of a header.
pub open spec fn is_header_value(value: Seq<u8>) -> bool {
    forall|i: int| 0 <= i < value.len() ==> is_value_byte(#[trigger] value[i])
}

/// The lower-case form of an ASCII letter; any other character unchanged.
pub open spec fn lower_char(c: char) -> char {
    if 'A' <= c <= 'Z' {
        (c as u32 + 32) as char
    } else {
        c
    }
}

/// A name with its ASCII letters in lower case.
pub open spec fn lower(name: Seq<char>) -> Seq<char> {
    name.map_values(|c: char| lower_char(c))
}

/// The distinct names among `fields`.
pub open spec fn names(fields: Seq<Field>) -> Set<Seq<char>> {
    fields.map_values(|f: Field| f.0).to_set()
}

/// The value of the first field called `name`.
pub open spec fn first_value(fields: Seq<Field>, name: Seq<char>) -> Option<Seq<u8>>
    decreases fields.len(),
{
    if fields.len() == 0 {
        None
    } else if fields[0].0 == name {
        Some(fields[0].1)
    } else {
        first_value(fields.drop_first(), name)
    }
}

/// `fields` without those called `name`.
pub open spec fn without(fields: Seq<Field>, name: Seq<char>) -> Seq<Field>
    decreases fields.len(),
{
    if fields.len() == 0 {
        fields
    } else if fields[0].0 == name {
        without(fields.drop_first(), name)
    } else {
        seq![fields[0]] + without(fields.drop_first(), name)
    }
}

/// `fields` with one more, behind the last field of the same name, or at the end where the
/// name is new.
pub open spec fn appended(fields: Seq<Field>, name: Seq<char>, value: Seq<u8>) -> Seq<Field>
    decreases fields.len(),
{
    if first_value(fields, name) is None || fields.last().0 == name {
        fields.push((name, value))
    } else {
        appended(fields.drop_last(), name, value).push(fields.last())
    }
}

/// `fields` with `value` as the only value of `name`: in place of the first field of that
/// name, or at the end where the name is new.
pub open spec fn inserted(fields: Seq<Field>, name: Seq<char>, value: Seq<u8>) -> Seq<Field>
    decreases fields.len(),
{
    if fields.len() == 0 {
        seq![(name, value)]
    } else if fields[0].0 == name {
        seq![(name, value)] + without(fields.drop_first(), name)
    } else {
        seq![fields[0]] + inserted(fields.drop_first(), name, value)
    }
}

/// Whether every one of these fields can stand in a header map.
pub open spec fn all_valid(fields: Seq<Field>) -> bool {
    forall|i: int|
        0 <= i < fields.len() ==> is_header_name((#[trigger] fields[i]).0) && is_header_value(
            fields[i].1,
        )
}

/// The fields of a header map to which `fields` were added one after the other.
pub open spec fn collected(fields: Seq<Field>) -> Seq<Field>
    decreases fields.len(),
{
    if fields.len() == 0 {
        fields
    } else {
        appended(collected(fields.drop_last()), lower(fields.last().0), fields.last().1)
    }
}

/// The body length that a message declares: `Ok(None)` where it declares none, `Err` where
/// its first Content-Length field holds no number.
pub open spec fn content_length(fields: Seq<Field>) -> Result<Option<usize>, ()> {
    match first_value(fields, "content-length"@) {
        None => Ok(None),
        Some(value) => match unsigned(value) {
            Some(length) => Ok(Some(length)),
            None => Err(()),
        },
    }
}

/// Whether a header value neither starts nor ends with a space or a tab.
pub open spec fn is_trimmed(value: Seq<u8>) -> bool {
    value.len() > 0 ==> value[0] != 32 && value[0] != 9 && value.last() != 32 && value.last() != 9
}

/// A line of the header: the name, a colon, the value and the line end.
pub open spec fn field_bytes(field: Field) -> Seq<u8> {
    encode_utf8(field.0) + seq![58u8] + field.1 + crlf()
}

/// The lines of the header.
pub open spec fn fields_bytes(fields: Seq<Field>) -> Seq<u8>
    decreases fields.len(),
{
    if fields.len() == 0 {
        Seq::empty()
    } else {
        fields_bytes(fields.drop_last()) + field_bytes(fields.last())
    }
}

/// The header map of the `http` crate.
#[verifier::external_type_specification]
#[verifier::external_body]
#[verifier::reject_recursive_types(T)]
pub struct ExHeaderMap<T>(http::HeaderMap<T>);

/// The header value of the `http` crate.
#[verifier::external_type_specification]
#[verifier::external_body]
pub struct ExHeaderValue(http::HeaderValue);

/// The fields that a header map holds, in the order in which it hands them out.
pub uninterp spec fn header_fields(headers: http::HeaderMap<http::HeaderValue>) -> Seq<Field>;

/// `http::HeaderMap::new`: a map without fields.
#[verifier::external_body]
pub(crate) fn new_headers() -> (headers: http::HeaderMap<http::HeaderValue>)
    ensures
        header_fields(headers) == Seq::<Field>::empty(),
{
    http::HeaderMap::new()
}

/// `http::HeaderMap::get`: the value of the first field of that name, whatever the case of
/// its letters. A value never holds a byte that header values cannot hold.
#[verifier::external_body]
pub(crate) fn get_value<'a>(
    headers: &'a http::HeaderMap<http::HeaderValue>,
    name: &str,
) -> (found: Option<&'a [u8]>)
    requires
        is_header_name(name@),
    ensures
        match found {
            Some(value) => first_value(header_fields(*headers), lower(name@)) == Some(value@)
                && is_header_value(value@),
            None => first_value(header_fields(*headers), lower(name@)) is None,
        },
{
    headers.get(name).map(|value| value.as_bytes())
}

/// `http::HeaderMap::append`: adds a field, and keeps the values that its name already has.
/// Nothing is added where the name or the value cannot stand in a header; the result tells.
#[verifier::external_body]
pub(crate) fn append_field(
    headers: &mut http::HeaderMap<http::HeaderValue>,
    name: &str,
    value: &[u8],
) -> (added: bool)
    requires
        names(header_fields(*old(headers))).len() < MAX_SURE_NAMES,
    ensures
        added == (is_header_name(name@) && is_header_value(value@)),
        header_fields(*final(headers)) == if added {
            appended(header_fields(*old(headers)), lower(name@), value@)
        } else {
            header_fields(*old(headers))
        },
{
    match (http::HeaderName::from_bytes(name.as_bytes()), http::HeaderValue::from_bytes(value)) {
        (Ok(name), Ok(value)) => {
            headers.append(name, value);
            true
        },
        _ => false,
    }
}

/// `http::HeaderMap::insert`: makes `value` the only value of that name.
#[verifier::external_body]
pub(crate) fn insert_field(
    headers: &mut http::HeaderMap<http::HeaderValue>,
    name: &'static str,
    value: &[u8],
)
    requires
        is_header_name(name@),
        is_header_value(value@),
        names(header_fields(*old(headers))).len() < MAX_SURE_NAMES,
    ensures
        header_fields(*final(headers)) == inserted(
            header_fields(*old(headers)),
            lower(name@),
            value@,
        ),
{
    headers.insert(name, http::HeaderValue::from_bytes(value).unwrap());
}

/// `http::HeaderMap::iter`: every field, with its name in lower case.
#[verifier::external_body]
pub(crate) fn list_fields(headers: &http::HeaderMap<http::HeaderValue>) -> (fields: Vec<
    (String, Vec<u8>),
>)
    ensures
        fields@.len() == header_fields(*headers).len(),
        forall|i: int|
            0 <= i < fields@.len() ==> (#[trigger] fields@[i]).0@ == header_fields(*headers)[i].0
                && fields@[i].1@ == header_fields(*headers)[i].1,
{
    headers.iter().map(|(name, value)| (name.as_str().to_owned(), value.as_bytes().to_vec())).collect()
}

/// There are no more distinct names than fields.
pub proof fn lemma_names_bound(fields: Seq<Field>)
    ensures
        names(fields).len() <= fields.len(),
{
    fields.map_values(|f: Field| f.0).lemma_cardinality_of_set();
}

/// Looking for a name in a longer list of fields.
proof fn lemma_first_value_push(fields: Seq<Field>, field: Field, name: Seq<char>)
    ensures
        first_value(fields.push(field), name) == match first_value(fields, name) {
            Some(value) => Some(value),
            None => if field.0 == name {
                Some(field.1)
            } else {
                None
            },
        },
    decreases fields.len(),
{
    let longer = fields.push(field);
    if fields.len() == 0 {
        assert(longer.drop_first() =~= Seq::<Field>::empty());
        assert(first_value(longer.drop_first(), name) is None);
    } else {
        assert(longer.drop_first() =~= fields.drop_first().push(field));
        lemma_first_value_push(fields.drop_first(), field, name);
    }
}

/// Adding a field adds one field. Its name then has a first value: the one that it had, or
/// else the new one. Every other name keeps its first value.
pub proof fn law_appended(fields: Seq<Field>, name: Seq<char>, value: Seq<u8>, other: Seq<char>)
    ensures
        appended(fields, name, value).len() == fields.len() + 1,
        first_value(appended(fields, name, value), name) == match first_value(fields, name) {
            Some(first) => Some(first),
            None => Some(value),
        },
        other != name ==> first_value(appended(fields, name, value), other) == first_value(
            fields,
            other,
        ),
    decreases fields.len(),
{
    if first_value(fields, name) is None || fields.last().0 == name {
        lemma_first_value_push(fields, (name, value), name);
        lemma_first_value_push(fields, (name, value), other);
    } else {
        let front = fields.drop_last();
        assert(front.push(fields.last()) =~= fields);
        law_appended(front, name, value, other);
        lemma_first_value_push(front, fields.last(), name);
        lemma_first_value_push(front, fields.last(), other);
        lemma_first_value_push(appended(front, name, value), fields.last(), name);
        lemma_first_value_push(appended(front, name, value), fields.last(), other);
    }
}

/// Removing a name removes all its fields and no other.
proof fn lemma_without(fields: Seq<Field>, name: Seq<char>, other: Seq<char>)
    ensures
        first_value(without(fields, name), name) is None,
        without(without(fields, name), name) == without(fields, name),
        other != name ==> first_value(without(fields, name), other) == first_value(fields, other),
    decreases fields.len(),
{
    if fields.len() > 0 {
        let rest = fields.drop_first();
        lemma_without(rest, name, other);
        if fields[0].0 != name {
            let kept = without(fields, name);
            assert(kept.drop_first() =~= without(rest, name));
        }
    }
}

/// Inserting a value leaves it as the only value of its name, and leaves all other fields as
/// they were.
pub proof fn law_inserted(fields: Seq<Field>, name: Seq<char>, value: Seq<u8>, other: Seq<char>)
    ensures
        first_value(inserted(fields, name, value), name) == Some(value),
        without(inserted(fields, name, value), name) == without(fields, name),
        inserted(fields, name, value).len() == without(fields, name).len() + 1,
        other != name ==> first_value(inserted(fields, name, value), other) == first_value(
            fields,
            other,
        ),
    decreases fields.len(),
{
    let all = inserted(fields, name, value);
    if fields.len() == 0 {
        assert(all.drop_first() =~= fields);
        assert(without(all.drop_first(), name) == fields);
        assert(first_value(all.drop_first(), other) is None);
    } else {
        let rest = fields.drop_first();
        if fields[0].0 == name {
            assert(all.drop_first() =~= without(rest, name));
            lemma_without(rest, name, other);
        } else {
            law_inserted(rest, name, value, other);
            assert(all.drop_first() =~= inserted(rest, name, value));
        }
    }
}

/// Collecting fields keeps their number.
pub proof fn lemma_collected_len(fields: Seq<Field>)
    ensures
        collected(fields).len() == fields.len(),
    decreases fields.len(),
{
    if fields.len() > 0 {
        lemma_collected_len(fields.drop_last());
        law_appended(
            collected(fields.drop_last()),
            lower(fields.last().0),
            fields.last().1,
            lower(fields.last().0),
        );
    }
}

/// Whether fields stand as a header map hands them out: their names can be names, in lower case,
/// and the fields of one name stand next to each other.
pub open spec fn is_grouped(fields: Seq<Field>) -> bool {
    &&& forall|i: int|
        0 <= i < fields.len() ==> lower((#[trigger] fields[i]).0) == fields[i].0
    &&& forall|i: int, k: int, j: int|
        #![trigger fields[i], fields[k], fields[j]]
        0 <= i < k < j < fields.len() && fields[i].0 == fields[j].0 ==> fields[k].0 == fields[i].0
}

/// A name without a first value is the name of no field.
pub proof fn lemma_no_value(fields: Seq<Field>, name: Seq<char>)
    ensures
        first_value(fields, name) is None <==> forall|i: int|
            0 <= i < fields.len() ==> (#[trigger] fields[i]).0 != name,
    decreases fields.len(),
{
    if fields.len() > 0 {
        let rest = fields.drop_first();
        lemma_no_value(rest, name);
        if first_value(fields, name) is None {
            assert forall|i: int| 0 <= i < fields.len() implies (#[trigger] fields[i]).0 != name by {
                if i > 0 {
                    assert(rest[i - 1] == fields[i]);
                }
            }
        } else if fields[0].0 != name {
            let i = choose|i: int| 0 <= i < rest.len() && (#[trigger] rest[i]).0 == name;
            assert(fields[i + 1].0 == name);
        }
    }
}

/// The first value of a name is the value of a field of that name.
pub proof fn lemma_value_of(fields: Seq<Field>, name: Seq<char>)
    ensures
        first_value(fields, name) matches Some(value) ==> fields.contains((name, value)),
    decreases fields.len(),
{
    if fields.len() > 0 {
        let rest = fields.drop_first();
        lemma_value_of(rest, name);
        if fields[0].0 == name {
            assert(fields[0] == (name, fields[0].1));
        } else if let Some(value) = first_value(rest, name) {
            let i = choose|i: int| 0 <= i < rest.len() && rest[i] == (name, value);
            assert(fields[i + 1] == (name, value));
        }
    }
}

/// Adding a field puts it at some position `p`: behind the last field of its name, or at the end
/// where there is none.
pub proof fn lemma_appended_position(fields: Seq<Field>, name: Seq<char>, value: Seq<u8>) -> (p: int)
    ensures
        0 <= p <= fields.len(),
        appended(fields, name, value) == fields.insert(p, (name, value)),
        forall|i: int| p <= i < fields.len() ==> (#[trigger] fields[i]).0 != name,
        p < fields.len() ==> p > 0,
        p > 0 && fields[p - 1].0 != name ==> first_value(fields, name) is None,
    decreases fields.len(),
{
    if first_value(fields, name) is None || fields.last().0 == name {
        assert(appended(fields, name, value) =~= fields.insert(
            fields.len() as int,
            (name, value),
        ));
        fields.len() as int
    } else {
        let front = fields.drop_last();
        assert(front.push(fields.last()) =~= fields);
        lemma_first_value_push(front, fields.last(), name);
        let p = lemma_appended_position(front, name, value);
        if p == 0 {
            lemma_no_value(front, name);
        }
        assert(appended(fields, name, value) =~= fields.insert(p, (name, value)));
        p
    }
}

/// Fields that are grouped stay so when one is added.
proof fn lemma_appended_grouped(fields: Seq<Field>, name: Seq<char>, value: Seq<u8>)
    requires
        is_grouped(fields),
        lower(name) == name,
    ensures
        is_grouped(appended(fields, name, value)),
{
    let p = lemma_appended_position(fields, name, value);
    let longer = fields.insert(p, (name, value));
    lemma_no_value(fields, name);
    assert forall|i: int| 0 <= i < longer.len() implies lower((#[trigger] longer[i]).0)
        == longer[i].0 by {
        if i < p {
            assert(longer[i] == fields[i]);
        } else if i > p {
            assert(longer[i] == fields[i - 1]);
        }
    }
    assert forall|i: int, k: int, j: int|
        #![trigger longer[i], longer[k], longer[j]]
        0 <= i < k < j < longer.len() && longer[i].0 == longer[j].0 implies longer[k].0
        == longer[i].0 by {
        let from = |n: int| if n < p {
            n
        } else {
            n - 1
        };
        let (a, b, c) = (from(i), from(k), from(j));
        if i != p {
            assert(longer[i] == fields[a]);
        }
        if k != p {
            assert(longer[k] == fields[b]);
        }
        if j != p {
            assert(longer[j] == fields[c]);
        }
        if p > 0 && first_value(fields, name) is Some {
            assert(fields[p - 1].0 == name);
        }
    }
}

/// A lower-case name is one that stays as it is, and is a token if the name was.
proof fn lemma_lower(name: Seq<char>)
    ensures
        lower(lower(name)) == lower(name),
        is_token(name) ==> is_token(lower(name)),
        lower(name).len() == name.len(),
{
    assert(lower(lower(name)) =~= lower(name));
    if is_token(name) {
        assert forall|i: int| 0 <= i < name.len() implies is_token_char(
            #[trigger] lower(name)[i],
        ) by {
            assert(is_token_char(name[i]));
        }
    }
}

/// What is collected are grouped fields, with the values that were put in.
pub proof fn lemma_collected(fields: Seq<Field>)
    ensures
        is_grouped(collected(fields)),
        all_valid(fields) ==> all_valid(collected(fields)),
        (forall|i: int| 0 <= i < fields.len() ==> is_trimmed((#[trigger] fields[i]).1)) ==> (
        forall|i: int|
            0 <= i < collected(fields).len() ==> is_trimmed((#[trigger] collected(fields)[i]).1)),
    decreases fields.len(),
{
    if fields.len() > 0 {
        let front = fields.drop_last();
        let (name, value) = fields.last();
        let before = collected(front);
        lemma_collected(front);
        lemma_lower(name);
        lemma_appended_grouped(before, lower(name), value);
        let p = lemma_appended_position(before, lower(name), value);
        let after = collected(fields);
        assert forall|i: int| 0 <= i < after.len() implies (#[trigger] after[i]) == (lower(
            name,
        ), value) || (0 <= i < before.len() && after[i] == before[i]) || (0 < i && after[i]
            == before[i - 1]) by {}
        if all_valid(fields) {
            assert forall|i: int| 0 <= i < front.len() implies is_header_name(
                (#[trigger] front[i]).0,
            ) && is_header_value(front[i].1) by {
                assert(front[i] == fields[i]);
            }
            assert(fields[fields.len() - 1] == (name, value));
        }
        if forall|i: int| 0 <= i < fields.len() ==> is_trimmed((#[trigger] fields[i]).1) {
            assert forall|i: int| 0 <= i < front.len() implies is_trimmed(
                (#[trigger] front[i]).1,
            ) by {
                assert(front[i] == fields[i]);
            }
            assert(is_trimmed(fields[fields.len() - 1].1));
        }
    }
}

/// Collecting grouped fields gives them back as they are.
pub proof fn lemma_collect_grouped(fields: Seq<Field>)
    requires
        is_grouped(fields),
    ensures
        collected(fields) == fields,
    decreases fields.len(),
{
    if fields.len() > 0 {
        let front = fields.drop_last();
        let last = fields.last();
        assert(is_grouped(front)) by {
            assert forall|i: int| 0 <= i < front.len() implies lower((#[trigger] front[i]).0)
                == front[i].0 by {
                assert(front[i] == fields[i]);
            }
            assert forall|i: int, k: int, j: int|
                #![trigger front[i], front[k], front[j]]
                0 <= i < k < j < front.len() && front[i].0 == front[j].0 implies front[k].0
                == front[i].0 by {
                assert(fields[i].0 == fields[j].0);
                assert(fields[k] == front[k]);
            }
        }
        lemma_collect_grouped(front);
        assert(fields[fields.len() - 1] == last);
        lemma_no_value(front, last.0);
        if first_value(front, last.0) is Some {
            let i = choose|i: int| 0 <= i < front.len() && (#[trigger] front[i]).0 == last.0;
            let k = front.len() - 1;
            assert(fields[i] == front[i]);
            assert(fields[k] == front[k]);
            if i < k {
                assert(fields[k].0 == fields[i].0);
            }
            assert(front.last().0 == last.0);
        }
        assert(front.push(last) =~= fields);
    }
}

/// Whether the names in `part` are names in `fields`, in the order in which they stand there:
/// `at` holds the position of each. The fields of `part` are those of `fields`, but for `field`.
pub open spec fn keeps_order(
    part: Seq<Field>,
    fields: Seq<Field>,
    field: Field,
    at: Seq<int>,
) -> bool {
    &&& at.len() == part.len()
    &&& forall|i: int| 0 <= i < at.len() ==> 0 <= #[trigger] at[i] < fields.len()
    &&& forall|i: int|
        0 <= i < at.len() ==> (#[trigger] part[i]).0 == fields[at[i]].0 && (part[i]
            == fields[at[i]] || part[i] == field)
    &&& forall|i: int, j: int| 0 <= i < j < at.len() ==> #[trigger] at[i] < #[trigger] at[j]
}

/// One more field at the front of both keeps the order.
proof fn lemma_keeps_order_front(
    part: Seq<Field>,
    fields: Seq<Field>,
    field: Field,
    at: Seq<int>,
    first: Field,
) -> (positions: Seq<int>)
    requires
        fields.len() > 0,
        keeps_order(part, fields.drop_first(), field, at),
        first.0 == fields[0].0,
        first == fields[0] || first == field,
    ensures
        keeps_order(seq![first] + part, fields, field, positions),
{
    let positions = Seq::new(
        at.len() + 1,
        |i: int|
            if i == 0 {
                0
            } else {
                at[i - 1] + 1
            },
    );
    let longer = seq![first] + part;
    let rest = fields.drop_first();
    assert forall|i: int| 0 <= i < positions.len() implies 0 <= #[trigger] positions[i]
        < fields.len() by {
        if i > 0 {
            assert(0 <= at[i - 1] < rest.len());
        }
    }
    assert forall|i: int| 0 <= i < positions.len() implies (#[trigger] longer[i]).0
        == fields[positions[i]].0 && (longer[i] == fields[positions[i]] || longer[i]
        == field) by {
        if i > 0 {
            assert(longer[i] == part[i - 1]);
            assert(0 <= at[i - 1] < rest.len());
            assert(rest[at[i - 1]] == fields[positions[i]]);
        }
    }
    assert forall|i: int, j: int| 0 <= i < j < positions.len() implies #[trigger] positions[i]
        < #[trigger] positions[j] by {
        assert(0 <= at[j - 1]);
        if i > 0 {
            assert(at[i - 1] < at[j - 1]);
        }
    }
    positions
}

/// Removing a name keeps the order of the other fields.
proof fn lemma_without_order(fields: Seq<Field>, name: Seq<char>, field: Field) -> (at: Seq<int>)
    ensures
        keeps_order(without(fields, name), fields, field, at),
    decreases fields.len(),
{
    if fields.len() == 0 {
        Seq::empty()
    } else {
        let rest = fields.drop_first();
        let at = lemma_without_order(rest, name, field);
        if fields[0].0 == name {
            let positions = at.map_values(|n: int| n + 1);
            assert forall|i: int| 0 <= i < positions.len() implies 0 <= #[trigger] positions[i]
                < fields.len() by {
                assert(0 <= at[i] < rest.len());
            }
            let part = without(fields, name);
            assert forall|i: int| 0 <= i < positions.len() implies (#[trigger] part[i]).0
                == fields[positions[i]].0 && (part[i] == fields[positions[i]] || part[i]
                == field) by {
                assert(0 <= at[i] < rest.len());
                assert(rest[at[i]] == fields[positions[i]]);
            }
            assert forall|i: int, j: int| 0 <= i < j < positions.len() implies #[trigger] positions[i]
                < #[trigger] positions[j] by {
                assert(at[i] < at[j]);
            }
            positions
        } else {
            lemma_keeps_order_front(without(rest, name), fields, field, at, fields[0])
        }
    }
}

/// Inserting a value for a name that is there keeps the order.
proof fn lemma_inserted_order(fields: Seq<Field>, name: Seq<char>, value: Seq<u8>) -> (at: Seq<int>)
    requires
        first_value(fields, name) is Some,
    ensures
        keeps_order(inserted(fields, name, value), fields, (name, value), at),
    decreases fields.len(),
{
    let rest = fields.drop_first();
    if fields[0].0 == name {
        let at = lemma_without_order(rest, name, (name, value));
        lemma_keeps_order_front(without(rest, name), fields, (name, value), at, (name, value))
    } else {
        let at = lemma_inserted_order(rest, name, value);
        lemma_keeps_order_front(
            inserted(rest, name, value),
            fields,
            (name, value),
            at,
            fields[0],
        )
    }
}

/// A value of a new name goes to the end.
pub proof fn lemma_inserted_new(fields: Seq<Field>, name: Seq<char>, value: Seq<u8>)
    requires
        first_value(fields, name) is None,
    ensures
        inserted(fields, name, value) == fields.push((name, value)),
    decreases fields.len(),
{
    if fields.len() > 0 {
        lemma_inserted_new(fields.drop_first(), name, value);
    }
    assert(inserted(fields, name, value) =~= fields.push((name, value)));
}

/// Inserting a value leaves fields grouped. Each field is then the new one or one that was there.
pub proof fn lemma_inserted_grouped(fields: Seq<Field>, name: Seq<char>, value: Seq<u8>)
    requires
        is_grouped(fields),
        lower(name) == name,
    ensures
        is_grouped(inserted(fields, name, value)),
        forall|i: int|
            0 <= i < inserted(fields, name, value).len() ==> {
                ||| #[trigger] inserted(fields, name, value)[i] == (name, value)
                ||| fields.contains(inserted(fields, name, value)[i])
            },
{
    let after = inserted(fields, name, value);
    if first_value(fields, name) is None {
        lemma_inserted_new(fields, name, value);
        lemma_appended_grouped(fields, name, value);
        assert(after =~= appended(fields, name, value));
        assert forall|i: int| 0 <= i < after.len() implies #[trigger] after[i] == (name, value)
            || fields.contains(after[i]) by {
            if i < fields.len() {
                assert(after[i] == fields[i]);
            }
        }
    } else {
        let at = lemma_inserted_order(fields, name, value);
        assert forall|i: int| 0 <= i < after.len() implies lower((#[trigger] after[i]).0)
            == after[i].0 by {
            assert(0 <= at[i] < fields.len());
            assert(lower(fields[at[i]].0) == fields[at[i]].0);
        }
        assert forall|i: int, k: int, j: int|
            #![trigger after[i], after[k], after[j]]
            0 <= i < k < j < after.len() && after[i].0 == after[j].0 implies after[k].0
            == after[i].0 by {
            assert(0 <= at[i] < at[k] < at[j] < fields.len());
            assert(fields[at[k]].0 == fields[at[i]].0);
        }
        assert forall|i: int| 0 <= i < after.len() implies #[trigger] after[i] == (name, value)
            || fields.contains(after[i]) by {
            assert(0 <= at[i] < fields.len());
            if after[i] == fields[at[i]] {
                assert(fields.contains(after[i]));
            }
        }
    }
}

/// Puts a list of fields into a header map, or gives `None` where one of them cannot stand in
/// a header.
pub fn collect_fields(fields: &Vec<(String, Vec<u8>)>) -> (collected_fields: Option<
    http::HeaderMap<http::HeaderValue>,
>)
    requires
        fields@.len() <= MAX_SURE_NAMES,
    ensures
        collected_fields is Some <==> all_valid(field_list(fields@)),
        collected_fields matches Some(headers) ==> header_fields(headers) == collected(
            field_list(fields@),
        ),
{
    let ghost all = field_list(fields@);
    let mut headers = new_headers();
    let mut i: usize = 0;
    assert(all.take(0) =~= Seq::<Field>::empty());
    while i < fields.len()
        invariant
            0 <= i <= fields.len() <= MAX_SURE_NAMES,
            all == field_list(fields@),
            all_valid(all.take(i as int)),
            header_fields(headers) == collected(all.take(i as int)),
        decreases fields.len() - i,
    {
        let ghost longer = all.take(i + 1);
        proof {
            assert(longer.drop_last() =~= all.take(i as int));
            assert(longer.last() == (fields@[i as int].0@, fields@[i as int].1@));
            lemma_collected_len(all.take(i as int));
            lemma_names_bound(header_fields(headers));
        }
        if !append_field(&mut headers, fields[i].0.as_str(), fields[i].1.as_slice()) {
            assert(!(is_header_name(all[i as int].0) && is_header_value(all[i as int].1)));
            return None;
        }
        assert(all_valid(longer)) by {
            assert forall|j: int| 0 <= j < longer.len() implies is_header_name(
                (#[trigger] longer[j]).0,
            ) && is_header_value(longer[j].1) by {
                if j < i {
                    assert(longer[j] == all.take(i as int)[j]);
                }
            }
        }
        i = i + 1;
    }
    assert(all.take(i as int) =~= all);
    Some(headers)
}

/// Writes the lines of the header to the end of an output.
pub(crate) fn put_fields(stream: &mut Vec<u8>, headers: &http::HeaderMap<http::HeaderValue>)
    ensures
        final(stream)@ == old(stream)@ + fields_bytes(header_fields(*headers)),
{
    let ghost start = stream@;
    let fields = list_fields(headers);
    let ghost all = header_fields(*headers);
    let mut i: usize = 0;
    assert(all.take(0) =~= Seq::<Field>::empty());
    assert(stream@ =~= start + fields_bytes(all.take(0)));
    while i < fields.len()
        invariant
            0 <= i <= fields.len(),
            fields@.len() == all.len(),
            forall|j: int|
                0 <= j < fields@.len() ==> (#[trigger] fields@[j]).0@ == all[j].0
                    && fields@[j].1@ == all[j].1,
            stream@ == start + fields_bytes(all.take(i as int)),
        decreases fields.len() - i,
    {
        let ghost longer = all.take(i + 1);
        assert(longer.drop_last() =~= all.take(i as int));
        put_text(stream, fields[i].0.as_str());
        stream.push(58);
        put_bytes(stream, fields[i].1.as_slice());
        put_crlf(stream);
        assert(stream@ =~= start + fields_bytes(longer));
        i = i + 1;
    }
    assert(all.take(i as int) =~= all);
}

/// `content-length` is a header name in lower case.
proof fn lemma_content_length_name()
    ensures
        is_header_name("content-length"@),
        lower("content-length"@) == "content-length"@,
{
    reveal_strlit("content-length");
    assert(lower("content-length"@) =~= "content-length"@);
}

/// Reads the body length that a message declares. A value with bytes that are not visible
/// ASCII characters holds no number, since none of these bytes is a digit.
pub fn declared_length(headers: &http::HeaderMap<http::HeaderValue>) -> (length: Result<
    Option<usize>,
    (),
>)
    ensures
        length == content_length(header_fields(*headers)),
{
    proof {
        lemma_content_length_name();
    }
    match get_value(headers, "content-length") {
        None => Ok(None),
        Some(value) => match parse_unsigned(value) {
            Some(length) => Ok(Some(length)),
            None => Err(()),
        },
    }
}

} // verus!
