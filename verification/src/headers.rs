//! Header fields: the map of the `http` crate, as `axum` exports it, and what the
//! library relies on of it.

use axum::http::{HeaderMap, HeaderName, HeaderValue};
use vstd::prelude::*;
use vstd::string::*;

verus! {

/// The multimap of header fields.
#[verifier::external_type_specification]
#[verifier::external_body]
#[verifier::reject_recursive_types(T)]
pub struct ExHeaderMap<T>(axum::http::HeaderMap<T>);

/// A field name.
#[verifier::external_type_specification]
#[verifier::external_body]
pub struct ExHeaderName(axum::http::HeaderName);

/// A field value.
#[verifier::external_type_specification]
#[verifier::external_body]
pub struct ExHeaderValue(axum::http::HeaderValue);

/// The fields that a header map holds: under each name its values, in the order in
/// which they were added.
pub uninterp spec fn header_entries(headers: HeaderMap<HeaderValue>) -> Map<Seq<u8>, Seq<Seq<u8>>>;

/// The bytes of a field name.
pub uninterp spec fn name_bytes(name: HeaderName) -> Seq<u8>;

/// The bytes of a field value.
pub uninterp spec fn value_bytes(value: HeaderValue) -> Seq<u8>;

/// No fields at all.
pub open spec fn no_entries() -> Map<Seq<u8>, Seq<Seq<u8>>> {
    Map::empty()
}

/// The bytes of ASCII text.
pub open spec fn ascii(s: Seq<char>) -> Seq<u8> {
    Seq::new(s.len(), |i: int| s[i] as u8)
}

/// The text of ASCII bytes.
pub open spec fn ascii_text(s: Seq<u8>) -> Seq<char> {
    Seq::new(s.len(), |i: int| s[i] as char)
}

/// Whether `b` is an upper-case ASCII letter.
pub open spec fn is_upper(b: u8) -> bool {
    0x41 <= b <= 0x5a
}

/// Whether `b` may occur in a field name.
pub open spec fn is_name_byte(b: u8) -> bool {
    ||| 0x30 <= b <= 0x39
    ||| is_upper(b)
    ||| 0x61 <= b <= 0x7a
    ||| b == 0x21  // !
    ||| 0x23 <= b <= 0x27  // # $ % & '
    ||| b == 0x2a  // *
    ||| b == 0x2b  // +
    ||| b == 0x2d  // -
    ||| b == 0x2e  // .
    ||| 0x5e <= b <= 0x60  // ^ _ `
    ||| b == 0x7c  // |
    ||| b == 0x7e  // ~
}

/// Whether `s` is a field name.
pub open spec fn is_name(s: Seq<u8>) -> bool {
    1 <= s.len() <= 0xffff && forall|i: int| 0 <= i < s.len() ==> is_name_byte(#[trigger] s[i])
}

/// `s` with its upper-case ASCII letters turned to lower case.
pub open spec fn lower(s: Seq<u8>) -> Seq<u8> {
    Seq::new(
        s.len(),
        |i: int|
            if is_upper(s[i]) {
                (s[i] + 0x20) as u8
            } else {
                s[i]
            },
    )
}

/// Whether `s` holds no upper-case ASCII letter.
pub open spec fn has_no_upper(s: Seq<u8>) -> bool {
    forall|i: int| 0 <= i < s.len() ==> !is_upper(#[trigger] s[i])
}

/// Whether `s` is a field value: anything but control characters other than the tab.
pub open spec fn is_value(s: Seq<u8>) -> bool {
    forall|i: int| 0 <= i < s.len() ==> (#[trigger] s[i] >= 0x20 && s[i] != 0x7f) || s[i] == 0x09
}

/// Whether `s` is visible ASCII, blanks and tabs.
pub open spec fn is_visible(s: Seq<u8>) -> bool {
    forall|i: int| 0 <= i < s.len() ==> 0x20 <= #[trigger] s[i] < 0x7f || s[i] == 0x09
}

/// How many names a header map may hold and still take another one for sure.
pub open spec fn name_limit() -> nat {
    6553
}

/// Whether the fields have so many names that a header map may refuse another one.
pub open spec fn is_crowded(entries: Map<Seq<u8>, Seq<Seq<u8>>>) -> bool {
    !entries.dom().finite() || entries.dom().len() > name_limit()
}

/// Whether a copy of `headers` has room for `extra` further names for sure.
pub open spec fn has_room(headers: HeaderMap<HeaderValue>, extra: nat) -> bool {
    header_entries(headers).dom().finite() && header_entries(headers).dom().len() + extra
        <= name_limit() + 1
}

/// Up to 6553 names are no crowd: there is room for three names beside 6551 others.
pub proof fn law_room_for_names(headers: HeaderMap<HeaderValue>)
    ensures
        is_crowded(header_entries(headers)) <==> !(header_entries(headers).dom().finite()
            && header_entries(headers).dom().len() <= 6553),
        has_room(headers, 3) <==> header_entries(headers).dom().finite() && header_entries(
            headers,
        ).dom().len() <= 6551,
{
}

/// The values that `fields` give to `name`, in their order.
pub open spec fn values_under(fields: Seq<(Vec<u8>, Vec<u8>)>, name: Seq<u8>) -> Seq<Seq<u8>>
    decreases fields.len(),
{
    if fields.len() == 0 {
        Seq::empty()
    } else {
        let before = values_under(fields.drop_last(), name);
        if fields.last().0@ == name {
            before.push(fields.last().1@)
        } else {
            before
        }
    }
}

/// `HeaderMap::new`: a map without fields.
#[verifier::external_body]
pub(crate) fn no_headers() -> (result: HeaderMap<HeaderValue>)
    ensures
        header_entries(result) == no_entries(),
{
    HeaderMap::new()
}

/// `HeaderMap::get` with a text key: the first value under the name. The key is a field
/// name in lower case, the form in which the map keeps its names.
#[verifier::external_body]
pub(crate) fn first_value<'a>(headers: &'a HeaderMap<HeaderValue>, key: &str) -> (result: Option<
    &'a HeaderValue,
>)
    requires
        is_name(key.spec_bytes()),
        has_no_upper(key.spec_bytes()),
    ensures
        match result {
            Some(value) => header_entries(*headers).contains_key(key.spec_bytes())
                && header_entries(*headers)[key.spec_bytes()].len() > 0 && value_bytes(*value)
                == header_entries(*headers)[key.spec_bytes()][0],
            None => !header_entries(*headers).contains_key(key.spec_bytes()),
        },
{
    headers.get(key)
}

/// `HeaderMap::try_insert`: the value becomes the only one under its name, or the map
/// refuses it and stays as it is, where its hash table cannot grow any more. That takes
/// more names than the limit here. Beyond the limit nothing is said: whether the table
/// has to grow depends on how the hashes of the names fall, which may be seeded by
/// chance.
#[verifier::external_body]
pub(crate) fn set_value(
    headers: &mut HeaderMap<HeaderValue>,
    name: HeaderName,
    value: HeaderValue,
) -> (result: bool)
    ensures
        header_entries(*final(headers)) == if result {
            header_entries(*old(headers)).insert(name_bytes(name), seq![value_bytes(value)])
        } else {
            header_entries(*old(headers))
        },
        !result ==> is_crowded(header_entries(*old(headers))),
{
    headers.try_insert(name, value).is_ok()
}

/// `HeaderMap::iter`: every field, once per value. The order of the names is open, the
/// values under one name come in their order, no name is without a value, and names are
/// in lower case.
#[verifier::external_body]
pub(crate) fn all_fields(headers: &HeaderMap<HeaderValue>) -> (result: Vec<(Vec<u8>, Vec<u8>)>)
    ensures
        forall|name: Seq<u8>| #[trigger]
            values_under(result@, name) == if header_entries(*headers).contains_key(name) {
                header_entries(*headers)[name]
            } else {
                Seq::empty()
            },
        forall|name: Seq<u8>|
            header_entries(*headers).contains_key(name) ==> (#[trigger] values_under(
                result@,
                name,
            )).len() > 0,
        forall|i: int| 0 <= i < result@.len() ==> has_no_upper((#[trigger] result@[i]).0@),
{
    headers.iter().map(|(n, v)| (n.as_str().as_bytes().to_vec(), v.as_bytes().to_vec())).collect()
}

/// `HeaderName::from_bytes`: accepts the names of the HTTP grammar, up to 65535 bytes
/// long, and turns them to lower case.
#[verifier::external_body]
pub(crate) fn name_from_bytes(src: &[u8]) -> (result: Option<HeaderName>)
    ensures
        match result {
            Some(name) => is_name(src@) && name_bytes(name) == lower(src@),
            None => !is_name(src@),
        },
{
    HeaderName::from_bytes(src).ok()
}

/// `HeaderValue::from_bytes`: accepts all bytes but control characters, of which it
/// accepts the tab.
#[verifier::external_body]
pub(crate) fn value_from_bytes(src: &[u8]) -> (result: Option<HeaderValue>)
    ensures
        match result {
            Some(value) => is_value(src@) && value_bytes(value) == src@,
            None => !is_value(src@),
        },
{
    HeaderValue::from_bytes(src).ok()
}

/// `HeaderValue::from_str`: as `HeaderValue::from_bytes`, on the bytes of the text.
#[verifier::external_body]
pub(crate) fn value_from_str(src: &str) -> (result: Option<HeaderValue>)
    ensures
        match result {
            Some(value) => is_value(src.spec_bytes()) && value_bytes(value) == src.spec_bytes(),
            None => !is_value(src.spec_bytes()),
        },
{
    HeaderValue::from_str(src).ok()
}

/// `HeaderValue::as_bytes`: the bytes of the value.
pub assume_specification[ HeaderValue::as_bytes ](value: &HeaderValue) -> (result: &[u8])
    ensures
        result@ == value_bytes(*value),
;

/// `HeaderValue::to_str`: the value as text, where it is visible ASCII, blanks and tabs.
#[verifier::external_body]
pub(crate) fn value_to_str(value: &HeaderValue) -> (result: Option<&str>)
    ensures
        match result {
            Some(s) => is_visible(value_bytes(*value)) && s@ == ascii_text(value_bytes(*value)),
            None => !is_visible(value_bytes(*value)),
        },
{
    value.to_str().ok()
}

/// Whether `a` and `b` are the same bytes.
pub(crate) fn same_bytes(a: &[u8], b: &[u8]) -> (result: bool)
    ensures
        result == (a@ == b@),
{
    let n: usize = a.len();
    if n != b.len() {
        return false;
    }
    let mut i: usize = 0;
    while i < n
        invariant
            i <= n,
            n == a@.len(),
            n == b@.len(),
            a@.take(i as int) == b@.take(i as int),
        decreases n - i,
    {
        if a[i] != b[i] {
            return false;
        }
        assert(a@.take(i + 1) =~= a@.take(i as int).push(a@[i as int]));
        assert(b@.take(i + 1) =~= b@.take(i as int).push(b@[i as int]));
        i = i + 1;
    }
    assert(a@.take(n as int) =~= a@);
    assert(b@.take(n as int) =~= b@);
    true
}

} // verus!
