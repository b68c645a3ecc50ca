//! The pieces of a request: methods, headers and URLs.

use reqwest::header::{HeaderMap, HeaderName, HeaderValue};
use reqwest::Method;
use url::Url;
use vstd::prelude::*;
use vstd::utf8::encode_utf8;

use crate::tally::{law_wrapping_goes_on, wrapped};
use crate::text::opt_view;

verus! {

/// `reqwest::Method`, a request method.
#[verifier::external_type_specification]
#[verifier::external_body]
pub struct ExMethod(reqwest::Method);

/// `reqwest::header::HeaderName`, the name of a header.
#[verifier::external_type_specification]
#[verifier::external_body]
pub struct ExHeaderName(reqwest::header::HeaderName);

/// `reqwest::header::HeaderValue`, the value of a header.
#[verifier::external_type_specification]
#[verifier::external_body]
pub struct ExHeaderValue(reqwest::header::HeaderValue);

/// `reqwest::header::HeaderMap`, a map from header names to lists of values.
#[verifier::external_type_specification]
#[verifier::external_body]
#[verifier::reject_recursive_types(T)]
pub struct ExHeaderMap<T>(reqwest::header::HeaderMap<T>);

/// `url::Url`, a URL taken apart.
#[verifier::external_type_specification]
#[verifier::external_body]
pub struct ExUrl(url::Url);

/// The text of a method.
pub uninterp spec fn method_text(m: Method) -> Seq<char>;

/// The text of a header name.
pub uninterp spec fn name_text(n: HeaderName) -> Seq<char>;

/// The bytes of a header value.
pub uninterp spec fn value_bytes(v: HeaderValue) -> Seq<u8>;

/// The values of each header in a map, in the order in which they were added.
pub uninterp spec fn header_values(m: HeaderMap<HeaderValue>) -> Map<Seq<char>, Seq<Seq<u8>>>;

/// The headers of a map one by one, in the order in which it hands them out.
pub uninterp spec fn header_list(m: HeaderMap<HeaderValue>) -> Seq<(Seq<char>, Seq<u8>)>;

/// What `Url::parse` makes of a text; `None` where it is no URL.
pub uninterp spec fn parsed_url(text: Seq<char>) -> Option<Url>;

/// The host of a URL, as text.
pub uninterp spec fn url_host(u: Url) -> Option<Seq<char>>;

/// The path of a URL.
pub uninterp spec fn url_path(u: Url) -> Seq<char>;

/// A character that a method or a header name may hold.
pub open spec fn is_token_char(c: char) -> bool {
    ||| 'a' <= c <= 'z'
    ||| 'A' <= c <= 'Z'
    ||| '0' <= c <= '9'
    ||| c == '!' || c == '#' || c == '$' || c == '%' || c == '&' || c == '\'' || c == '*'
    ||| c == '+' || c == '-' || c == '.' || c == '^' || c == '_' || c == '`' || c == '|' || c == '~'
}

/// A text of token characters only.
pub open spec fn is_token(s: Seq<char>) -> bool {
    s.len() > 0 && forall|i: int| 0 <= i < s.len() ==> is_token_char(#[trigger] s[i])
}

/// A text that names a header.
pub open spec fn is_header_name(s: Seq<char>) -> bool {
    is_token(s) && s.len() <= 65535
}

/// A text that can be the value of a header: no control character but the tab.
pub open spec fn is_header_value(s: Seq<char>) -> bool {
    forall|i: int| 0 <= i < s.len() ==> #[trigger] s[i] == '\t' || (s[i] >= ' ' && s[i] != '\x7f')
}

/// An ASCII letter in lower case; another character as it is.
pub open spec fn ascii_lower(c: char) -> char {
    if 'A' <= c <= 'Z' {
        (c as u8 + 32) as char
    } else {
        c
    }
}

/// A text with its ASCII letters in lower case.
pub open spec fn lowered(s: Seq<char>) -> Seq<char> {
    Seq::new(s.len(), |i: int| ascii_lower(s[i]))
}

/// A byte that stands for a visible ASCII character, a space or a tab.
pub open spec fn is_visible(b: u8) -> bool {
    b == 9 || 32 <= b < 127
}

/// The text of a header value: `None` where a byte is not visible.
pub open spec fn visible_text(bytes: Seq<u8>) -> Option<Seq<char>> {
    if forall|i: int| 0 <= i < bytes.len() ==> is_visible(#[trigger] bytes[i]) {
        Some(Seq::new(bytes.len(), |i: int| bytes[i] as char))
    } else {
        None
    }
}

/// The map without headers.
pub open spec fn no_headers() -> Map<Seq<char>, Seq<Seq<u8>>> {
    Map::empty()
}

/// Headers with one value more under a name.
pub open spec fn appended(
    m: Map<Seq<char>, Seq<Seq<u8>>>,
    name: Seq<char>,
    value: Seq<u8>,
) -> Map<Seq<char>, Seq<Seq<u8>>> {
    m.insert(
        name,
        (if m.contains_key(name) {
            m[name]
        } else {
            Seq::empty()
        }).push(value),
    )
}

/// A list of headers as a map.
pub open spec fn grouped(list: Seq<(Seq<char>, Seq<u8>)>) -> Map<Seq<char>, Seq<Seq<u8>>>
    decreases list.len(),
{
    if list.len() == 0 {
        Map::empty()
    } else {
        appended(grouped(list.drop_last()), list.last().0, list.last().1)
    }
}

/// `Method::from_str`: every token is a method and keeps its text; nothing else is one.
#[verifier::external_body]
pub(crate) fn parse_method(text: &str) -> (r: Option<Method>)
    ensures
        r is Some <==> is_token(text@),
        r matches Some(m) ==> method_text(m) == text@,
{
    text.parse::<Method>().ok()
}

/// `HeaderName::from_str`: a token of at most 65535 characters is a name, in lower case; nothing
/// else is one.
#[verifier::external_body]
pub(crate) fn parse_header_name(text: &str) -> (r: Option<HeaderName>)
    ensures
        r is Some <==> is_header_name(text@),
        r matches Some(n) ==> name_text(n) == lowered(text@),
{
    text.parse::<HeaderName>().ok()
}

/// `HeaderValue::from_str`: a text without control characters other than the tab is a value, in
/// UTF-8; nothing else is one.
#[verifier::external_body]
pub(crate) fn parse_header_value(text: &str) -> (r: Option<HeaderValue>)
    ensures
        r is Some <==> is_header_value(text@),
        r matches Some(v) ==> value_bytes(v) == encode_utf8(text@),
{
    text.parse::<HeaderValue>().ok()
}

/// `HeaderValue::to_str`: the text of a value whose bytes are all visible ASCII, spaces or tabs.
#[verifier::external_body]
pub(crate) fn header_value_text(v: &HeaderValue) -> (r: Option<String>)
    ensures
        opt_view(r) == visible_text(value_bytes(*v)),
{
    v.to_str().ok().map(|s| s.to_owned())
}

/// `HeaderName::clone`, which gives the same name again.
pub assume_specification[ <HeaderName as Clone>::clone ](n: &HeaderName) -> (r: HeaderName)
    ensures
        r == *n,
;

/// `HeaderValue::clone`, which gives the same value again.
pub assume_specification[ <HeaderValue as Clone>::clone ](v: &HeaderValue) -> (r: HeaderValue)
    ensures
        r == *v,
;

/// `HeaderMap::new`: no header yet.
#[verifier::external_body]
pub(crate) fn new_headers() -> (r: HeaderMap<HeaderValue>)
    ensures
        header_values(r) == no_headers(),
{
    HeaderMap::new()
}

/// `HeaderMap::try_append`: the value goes behind the others of its name. `false` where the map
/// is at its limit, which no map with up to 6553 names is; what the map then holds is not stated.
#[verifier::external_body]
pub(crate) fn append_header(
    m: &mut HeaderMap<HeaderValue>,
    name: HeaderName,
    value: HeaderValue,
) -> (r: bool)
    ensures
        header_values(*old(m)).dom().len() <= 6553 ==> r,
        r ==> header_values(*final(m)) == appended(
            header_values(*old(m)),
            name_text(name),
            value_bytes(value),
        ),
{
    m.try_append(name, value).is_ok()
}

/// `HeaderMap::try_insert` under the name `cookie`: the value takes the place of all others of
/// that name. `false` where the map is at its limit, which no map with up to 6553 names is; what
/// the map then holds is not stated.
#[verifier::external_body]
pub(crate) fn insert_cookie(m: &mut HeaderMap<HeaderValue>, value: HeaderValue) -> (r: bool)
    ensures
        header_values(*old(m)).dom().len() <= 6553 ==> r,
        r ==> header_values(*final(m)) == header_values(*old(m)).insert(
            "cookie"@,
            seq![value_bytes(value)],
        ),
{
    m.try_insert(reqwest::header::COOKIE, value).is_ok()
}

/// The views of a list of headers.
pub open spec fn list_view(list: Seq<(HeaderName, HeaderValue)>) -> Seq<(Seq<char>, Seq<u8>)> {
    Seq::new(list.len(), |i: int| (name_text(list[i].0), value_bytes(list[i].1)))
}

/// `HeaderMap::iter`: each name with each of its values, once for every value, and the values of
/// one name in the order in which they were added. The contract names the list.
#[verifier::external_body]
pub(crate) fn headers_listed(m: &HeaderMap<HeaderValue>) -> (r: Vec<(HeaderName, HeaderValue)>)
    ensures
        list_view(r@) == header_list(*m),
        grouped(list_view(r@)) == header_values(*m),
{
    m.iter().map(|(name, value)| (name.clone(), value.clone())).collect()
}

/// `HeaderName::as_str` and `str::len`: a name is ASCII, so its bytes are its characters.
#[verifier::external_body]
pub(crate) fn header_name_len(n: &HeaderName) -> (r: usize)
    ensures
        r == name_text(*n).len(),
{
    n.as_str().len()
}

/// `HeaderValue::len`: the number of bytes.
#[verifier::external_body]
pub(crate) fn header_value_len(v: &HeaderValue) -> (r: usize)
    ensures
        r == value_bytes(*v).len(),
{
    v.len()
}

/// `Url::parse`. The contract names the URL.
#[verifier::external_body]
pub(crate) fn parse_url(text: &str) -> (r: Option<Url>)
    ensures
        r == parsed_url(text@),
{
    Url::parse(text).ok()
}

/// `Url::host`, written out by `ToString::to_string`. The contract names the text.
#[verifier::external_body]
pub(crate) fn host_text(u: &Url) -> (r: Option<String>)
    ensures
        opt_view(r) == url_host(*u),
{
    u.host().map(|host| host.to_string())
}

/// `Url::path`. The contract names the text.
#[verifier::external_body]
pub(crate) fn path_text(u: &Url) -> (r: String)
    ensures
        r@ == url_path(*u),
{
    u.path().to_owned()
}

/// The number of bytes that a list of headers takes: each name and value, the colon and the space
/// between them and the line break after them.
pub open spec fn headers_len(list: Seq<(Seq<char>, Seq<u8>)>) -> int
    decreases list.len(),
{
    if list.len() == 0 {
        0
    } else {
        headers_len(list.drop_last()) + list.last().0.len() + 2 + list.last().1.len() + 2
    }
}

proof fn lemma_headers_len_nonnegative(list: Seq<(Seq<char>, Seq<u8>)>)
    ensures
        headers_len(list) >= 0,
    decreases list.len(),
{
    if list.len() > 0 {
        lemma_headers_len_nonnegative(list.drop_last());
    }
}

/// The number of bytes that headers take, wrapping around.
pub fn headers_size(headers: &HeaderMap<HeaderValue>) -> (r: usize)
    ensures
        r == wrapped(headers_len(header_list(*headers))),
{
    let list = headers_listed(headers);
    let ghost all = header_list(*headers);
    let mut size: usize = 0;
    let mut i: usize = 0;
    assert(all.take(0).len() == 0);
    while i < list.len()
        invariant
            0 <= i <= list.len(),
            all == list_view(list@),
            size == wrapped(headers_len(all.take(i as int))),
        decreases list.len() - i,
    {
        let name: usize = header_name_len(&list[i].0);
        let value: usize = header_value_len(&list[i].1);
        proof {
            let before = headers_len(all.take(i as int));
            lemma_headers_len_nonnegative(all.take(i as int));
            assert(all.take(i + 1).drop_last() == all.take(i as int));
            assert(all.take(i + 1).last() == all[i as int]);
            law_wrapping_goes_on(before, size, name);
            law_wrapping_goes_on(before + name, size.wrapping_add(name), 2);
            law_wrapping_goes_on(before + name + 2, size.wrapping_add(name).wrapping_add(2), value);
            law_wrapping_goes_on(
                before + name + 2 + value,
                size.wrapping_add(name).wrapping_add(2).wrapping_add(value),
                2,
            );
        }
        size = size.wrapping_add(name).wrapping_add(2).wrapping_add(value).wrapping_add(2);
        i = i + 1;
    }
    assert(all.take(i as int) == all);
    size
}

/// Headers take no bytes where there are none, and each header takes those of its name and its
/// value and four more, wherever it stands.
pub proof fn law_headers_add_up(
    first: Seq<(Seq<char>, Seq<u8>)>,
    name: Seq<char>,
    value: Seq<u8>,
    rest: Seq<(Seq<char>, Seq<u8>)>,
)
    ensures
        headers_len(Seq::empty()) == 0,
        headers_len(first.push((name, value)) + rest) == headers_len(first) + headers_len(rest)
            + name.len() + value.len() + 4,
    decreases rest.len(),
{
    let all = first.push((name, value)) + rest;
    if rest.len() == 0 {
        assert(all.drop_last() == first);
        assert(all.last() == (name, value));
    } else {
        law_headers_add_up(first, name, value, rest.drop_last());
        assert(all.drop_last() == first.push((name, value)) + rest.drop_last());
        assert(all.last() == rest.last());
    }
}

/// A lowered text has the same length; its capitals are small letters, and nothing else changes. So
/// it does not change any more.
pub proof fn law_only_capitals_are_lowered(s: Seq<char>, i: int)
    requires
        0 <= i < s.len(),
    ensures
        lowered(s).len() == s.len(),
        'A' <= s[i] <= 'Z' ==> lowered(s)[i] as u32 == s[i] as u32 + 32,
        !('A' <= s[i] <= 'Z') ==> lowered(s)[i] == s[i],
        lowered(lowered(s)) == lowered(s),
{
    assert(lowered(lowered(s)) =~= lowered(s));
}

/// A value whose bytes are all printable ASCII or tabs is a text of the same characters; any other
/// byte makes it none.
pub proof fn law_printable_bytes_are_text(bytes: Seq<u8>, i: int)
    requires
        0 <= i < bytes.len(),
    ensures
        (forall|j: int| 0 <= j < bytes.len() ==> #[trigger] bytes[j] == '\t' as u8 || (' ' as u8
            <= bytes[j] && bytes[j] <= '~' as u8)) ==> (visible_text(bytes) matches Some(t)
            && t.len() == bytes.len() && t[i] as u32 == bytes[i]),
        bytes[i] > '~' as u8 || (bytes[i] < ' ' as u8 && bytes[i] != '\t' as u8) ==> visible_text(
            bytes,
        ) is None,
{
    if forall|j: int| 0 <= j < bytes.len() ==> #[trigger] bytes[j] == '\t' as u8 || (' ' as u8
        <= bytes[j] && bytes[j] <= '~' as u8) {
        assert forall|j: int| 0 <= j < bytes.len() implies is_visible(#[trigger] bytes[j]) by {}
    } else if bytes[i] > '~' as u8 || (bytes[i] < ' ' as u8 && bytes[i] != '\t' as u8) {
        assert(!is_visible(bytes[i]));
    }
}

} // verus!
