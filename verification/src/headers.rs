//! HTTP header maps: the part of the `http` crate that the middleware reads
//! and fills.

use axum::http::header::{HeaderMap, HeaderValue};
use vstd::prelude::*;

verus! {

/// The `http` crate's map from header names to values.
#[verifier::external_type_specification]
#[verifier::external_body]
#[verifier::reject_recursive_types(T)]
pub struct ExHeaderMap<T>(HeaderMap<T>);

/// The `http` crate's header value.
#[verifier::external_type_specification]
#[verifier::external_body]
pub struct ExHeaderValue(HeaderValue);

/// The `http` crate's error for text that is no header value.
#[verifier::external_type_specification]
#[verifier::external_body]
pub struct ExInvalidHeaderValue(axum::http::header::InvalidHeaderValue);

/// The `http` crate's error for a header value that is no text.
#[verifier::external_type_specification]
#[verifier::external_body]
pub struct ExToStrError(axum::http::header::ToStrError);

/// The bytes of a header value.
pub uninterp spec fn value_bytes(value: HeaderValue) -> Seq<u8>;

/// The values of each name in a header map, in their order. Names are filed by
/// their bytes, in lower case.
pub uninterp spec fn header_contents(headers: HeaderMap<HeaderValue>) -> Map<
    Seq<u8>,
    Seq<Seq<u8>>,
>;

/// The bytes of some text.
pub open spec fn bytes_of(text: Seq<char>) -> Seq<u8> {
    vstd::utf8::encode_utf8(text)
}

/// Whether a header value may hold `b`: anything but control characters, a tab
/// excepted.
pub open spec fn value_byte(b: u8) -> bool {
    b >= 32 && b != 127 || b == 9
}

/// Whether `b` is visible ASCII, a space or a tab.
pub open spec fn text_byte(b: u8) -> bool {
    32 <= b < 127 || b == 9
}

/// Whether every byte of a header value is visible ASCII, a space or a tab.
pub open spec fn is_header_text(value: Seq<u8>) -> bool {
    forall|i: int| 0 <= i < value.len() ==> text_byte(#[trigger] value[i])
}

/// The characters of a header value that is visible ASCII.
pub open spec fn header_text(value: Seq<u8>) -> Seq<char> {
    value.map_values(|b: u8| b as char)
}

/// The byte under which a name's byte `b` is filed: letters in lower case, the
/// other bytes that a name may hold as they are, and zero for the rest.
pub open spec fn filed_byte(b: u8) -> u8 {
    if 65 <= b <= 90 {
        (b + 32) as u8
    } else if 97 <= b <= 122 || 48 <= b <= 57 || b == 33 || 35 <= b <= 39 || b == 42 || b == 43
        || b == 45 || b == 46 || 94 <= b <= 96 || b == 124 || b == 126 {
        b
    } else {
        0
    }
}

/// The bytes under which a name is filed.
pub open spec fn filed_name(name: Seq<u8>) -> Seq<u8> {
    name.map_values(|b: u8| filed_byte(b))
}

/// Whether a name is looked up at all: it has a length that a name can have,
/// and, if it is short, no byte that a name cannot hold.
pub open spec fn is_looked_up(name: Seq<u8>) -> bool {
    &&& 1 <= name.len() <= 65_535
    &&& name.len() <= 64 ==> forall|i: int|
        0 <= i < name.len() ==> filed_byte(#[trigger] name[i]) != 0
}

/// Whether a lookup of `name` finds something.
pub open spec fn has_header(contents: Map<Seq<u8>, Seq<Seq<u8>>>, name: Seq<u8>) -> bool {
    is_looked_up(name) && contents.contains_key(filed_name(name))
}

/// Whether a name is a short one that is filed under its own bytes.
pub open spec fn is_plain_name(name: Seq<u8>) -> bool {
    &&& 1 <= name.len() <= 64
    &&& forall|i: int|
        0 <= i < name.len() ==> filed_byte(#[trigger] name[i]) == name[i] && name[i] != 0
}

/// Names that every header map takes, whatever happened to it before.
pub const SAFE_NAMES: usize = 6_554;

/// Whether a map with these contents surely takes `n` more names. A map refuses
/// a new name when it would have to grow beyond 32768 slots; below a fifth of
/// that many names it never has to.
pub open spec fn has_room(contents: Map<Seq<u8>, Seq<Seq<u8>>>, n: nat) -> bool {
    contents.dom().finite() && contents.len() + n <= SAFE_NAMES
}

/// `HeaderValue::from_str`: the value with the bytes of `src`, if it may hold
/// all of them.
pub assume_specification[ HeaderValue::from_str ](src: &str) -> (r: Result<
    HeaderValue,
    axum::http::header::InvalidHeaderValue,
>)
    ensures
        r is Ok <==> forall|i: int|
            0 <= i < bytes_of(src@).len() ==> value_byte(#[trigger] bytes_of(src@)[i]),
        r matches Ok(v) ==> value_bytes(v) == bytes_of(src@),
;

/// `HeaderValue::to_str`: the text of the value, if all of it is visible ASCII,
/// spaces and tabs.
pub assume_specification<'a>[ HeaderValue::to_str ](value: &'a HeaderValue) -> (r: Result<
    &'a str,
    axum::http::header::ToStrError,
>)
    ensures
        r is Ok <==> is_header_text(value_bytes(*value)),
        r matches Ok(s) ==> s@ == header_text(value_bytes(*value)),
;

/// `HeaderMap::new`: a map without headers.
#[verifier::external_body]
pub(crate) fn no_headers() -> (headers: HeaderMap<HeaderValue>)
    ensures
        header_contents(headers).dom().is_empty(),
{
    HeaderMap::new()
}

/// `HeaderMap::get`: the first value of `name`, if the map has one.
#[verifier::external_body]
pub(crate) fn get_header<'a>(headers: &'a HeaderMap<HeaderValue>, name: &str) -> (found: Option<
    &'a HeaderValue,
>)
    ensures
        found is Some <==> has_header(header_contents(*headers), bytes_of(name@)),
        found matches Some(v) ==> value_bytes(*v) == header_contents(*headers)[filed_name(
            bytes_of(name@),
        )][0],
{
    headers.get(name)
}

/// `HeaderMap::try_insert`: `value` becomes the only value of `name`, and the
/// other headers stay as they are; or the map is full, and all of it stays as
/// it is. A map that surely has room takes the value; whether one with more
/// names does depends on how it was filled, and is left open.
#[verifier::external_body]
pub(crate) fn insert_header(
    headers: &mut HeaderMap<HeaderValue>,
    name: &'static str,
    value: HeaderValue,
) -> (done: bool)
    requires
        is_plain_name(bytes_of(name@)),
    ensures
        done ==> header_contents(*final(headers)) == header_contents(*old(headers)).insert(
            bytes_of(name@),
            seq![value_bytes(value)],
        ),
        !done ==> header_contents(*final(headers)) == header_contents(*old(headers)),
        has_room(header_contents(*old(headers)), 1) ==> done,
{
    headers.try_insert(name, value).is_ok()
}

} // verus!
