//! Requests: how an endpoint and the extracted values become a request that can be sent.

use reqwest::header::{HeaderMap, HeaderValue};
use reqwest::Method;
use serde_json::Value;
use vstd::prelude::*;
use vstd::seq_lib::seq_to_set_is_finite;
use vstd::set_lib::lemma_len_subset;
use vstd::utf8::encode_utf8;

use crate::extract_map::ExtractMap;
use crate::json::{
    json_error_debug, json_from_text, json_object, json_text, parse_error_debug, parse_text,
    value_text,
};
use crate::models::{ApiEndpoint, SetupApiEndpoint};
use crate::net::{
    append_header, appended, grouped, header_value_text, header_values, headers_listed,
    insert_cookie, is_header_name, is_header_value, is_token, list_view, lowered, method_text,
    name_text, new_headers, no_headers, parse_header_name, parse_header_value, parse_method,
    value_bytes, visible_text,
};
use crate::template::{fill_if, filled, filled_if, render_with, rendering, Rendering};
use crate::text::{
    ascii_only, ascii_raised, debug_text, joined, opt_view, quoted, to_upper, uppercased,
};

verus! {

/// A request that can be sent.
pub struct RequestPlan {
    pub method: Method,
    pub url: String,
    pub headers: HeaderMap<HeaderValue>,
    pub json: Option<Value>,
    pub form: Option<Vec<(String, String)>>,
}

/// What a request plan says.
pub struct PlanView {
    pub method: Seq<char>,
    pub url: Seq<char>,
    pub headers: Map<Seq<char>, Seq<Seq<u8>>>,
    pub json: Option<Value>,
    pub form: Option<Seq<(Seq<char>, Seq<char>)>>,
}

/// Why no request can be made.
pub enum RequestError {
    /// The method is no token.
    BadMethod,
    /// A header has an impossible name.
    BadHeaderName(String),
    /// A header has an impossible value.
    BadHeaderValue(String),
    /// There are more headers than a request can hold.
    TooManyHeaders,
    /// The cookies cannot stand in a header.
    BadCookie,
    /// The filled-in JSON body is no JSON: the parser's error, and the text.
    BadJson(String, String),
    /// The rendering of this template has to be supplied.
    Unrendered(String),
}

/// What a request error says.
pub enum Fault {
    BadMethod,
    BadHeaderName(Seq<char>),
    BadHeaderValue(Seq<char>),
    TooManyHeaders,
    BadCookie,
    BadJson(Seq<char>, Seq<char>),
    Unrendered(Seq<char>),
}

impl View for RequestError {
    type V = Fault;

    open spec fn view(&self) -> Fault {
        match self {
            RequestError::BadMethod => Fault::BadMethod,
            RequestError::BadHeaderName(s) => Fault::BadHeaderName(s@),
            RequestError::BadHeaderValue(s) => Fault::BadHeaderValue(s@),
            RequestError::TooManyHeaders => Fault::TooManyHeaders,
            RequestError::BadCookie => Fault::BadCookie,
            RequestError::BadJson(e, t) => Fault::BadJson(e@, t@),
            RequestError::Unrendered(t) => Fault::Unrendered(t@),
        }
    }
}

/// The pairs of a form, as text.
pub open spec fn pairs_view(s: Seq<(String, String)>) -> Seq<(Seq<char>, Seq<char>)> {
    Seq::new(s.len(), |i: int| (s[i].0@, s[i].1@))
}

/// The pairs of an optional form, as text.
pub open spec fn opt_pairs_view(s: Option<Vec<(String, String)>>) -> Option<
    Seq<(Seq<char>, Seq<char>)>,
> {
    match s {
        None => None,
        Some(v) => Some(pairs_view(v@)),
    }
}

impl View for RequestPlan {
    type V = PlanView;

    open spec fn view(&self) -> PlanView {
        PlanView {
            method: method_text(self.method),
            url: self.url@,
            headers: header_values(self.headers),
            json: self.json,
            form: opt_pairs_view(self.form),
        }
    }
}

/// Headers with one more from a name and a value, the value filled in first where `render` asks
/// for that.
pub open spec fn with_header(
    headers: Map<Seq<char>, Seq<Seq<u8>>>,
    pair: (Seq<char>, Seq<char>),
    render: bool,
    data: Value,
    supplied: Seq<Rendering>,
) -> Result<Map<Seq<char>, Seq<Seq<u8>>>, Fault> {
    if !is_header_name(pair.0) {
        Err(Fault::BadHeaderName(pair.0))
    } else {
        match filled_if(render, pair.1, data, supplied) {
            None => Err(Fault::Unrendered(pair.1)),
            Some(text) => if is_header_value(text) {
                Ok(appended(headers, lowered(pair.0), encode_utf8(text)))
            } else {
                Err(Fault::BadHeaderValue(text))
            },
        }
    }
}

/// The headers that a list of names and values makes.
pub open spec fn headers_from(
    list: Seq<(Seq<char>, Seq<char>)>,
    render: bool,
    data: Value,
    supplied: Seq<Rendering>,
) -> Result<Map<Seq<char>, Seq<Seq<u8>>>, Fault>
    decreases list.len(),
{
    if list.len() == 0 {
        Ok(no_headers())
    } else {
        match headers_from(list.drop_last(), render, data, supplied) {
            Err(f) => Err(f),
            Ok(m) => with_header(m, list.last(), render, data, supplied),
        }
    }
}

/// Headers with the cookies set, filled in first where `render` asks for that.
pub open spec fn with_cookies(
    headers: Map<Seq<char>, Seq<Seq<u8>>>,
    cookies: Option<Seq<char>>,
    render: bool,
    data: Value,
    supplied: Seq<Rendering>,
) -> Result<Map<Seq<char>, Seq<Seq<u8>>>, Fault> {
    match cookies {
        None => Ok(headers),
        Some(c) => match filled_if(render, c, data, supplied) {
            None => Err(Fault::Unrendered(c)),
            Some(text) => if is_header_value(text) {
                Ok(headers.insert("cookie"@, seq![encode_utf8(text)]))
            } else {
                Err(Fault::BadCookie)
            },
        },
    }
}

/// The headers and cookies of a request.
pub open spec fn head_from(
    list: Option<Seq<(Seq<char>, Seq<char>)>>,
    cookies: Option<Seq<char>>,
    render: bool,
    data: Value,
    supplied: Seq<Rendering>,
) -> Result<Map<Seq<char>, Seq<Seq<u8>>>, Fault> {
    match (match list {
        None => Ok(no_headers()),
        Some(l) => headers_from(l, render, data, supplied),
    }) {
        Err(f) => Err(f),
        Ok(m) => with_cookies(m, cookies, render, data, supplied),
    }
}

/// The JSON body of a request: the value as it is, or, where `render` asks for that, what its
/// filled-in text reads as.
pub open spec fn json_from(
    json: Option<Value>,
    render: bool,
    data: Value,
    supplied: Seq<Rendering>,
) -> Result<Option<Value>, Fault> {
    match json {
        None => Ok(None),
        Some(v) => if !render {
            Ok(Some(v))
        } else {
            match filled(json_text(v), data, supplied) {
                None => Err(Fault::Unrendered(json_text(v))),
                Some(text) => match json_from_text(text) {
                    Ok(w) => Ok(Some(w)),
                    Err(e) => Err(Fault::BadJson(json_error_debug(e), text)),
                },
            }
        },
    }
}

/// The pairs of a form, their values filled in where `render` asks for that.
pub open spec fn pairs_from(
    pairs: Seq<(Seq<char>, Seq<char>)>,
    render: bool,
    data: Value,
    supplied: Seq<Rendering>,
) -> Result<Seq<(Seq<char>, Seq<char>)>, Fault>
    decreases pairs.len(),
{
    if pairs.len() == 0 {
        Ok(Seq::empty())
    } else {
        match pairs_from(pairs.drop_last(), render, data, supplied) {
            Err(f) => Err(f),
            Ok(done) => match filled_if(render, pairs.last().1, data, supplied) {
                None => Err(Fault::Unrendered(pairs.last().1)),
                Some(text) => Ok(done.push((pairs.last().0, text))),
            },
        }
    }
}

/// The form of a request.
pub open spec fn form_from(
    form: Option<Seq<(Seq<char>, Seq<char>)>>,
    render: bool,
    data: Value,
    supplied: Seq<Rendering>,
) -> Result<Option<Seq<(Seq<char>, Seq<char>)>>, Fault> {
    match form {
        None => Ok(None),
        Some(pairs) => match pairs_from(pairs, render, data, supplied) {
            Err(f) => Err(f),
            Ok(done) => Ok(Some(done)),
        },
    }
}

/// The request of an endpoint. `render_template` fills in headers, cookies and JSON, and
/// `render_form` the form; the URL stays as it is.
pub open spec fn endpoint_plan(
    endpoint: ApiEndpoint,
    render_template: bool,
    render_form: bool,
    data: Value,
    supplied: Seq<Rendering>,
) -> Result<PlanView, Fault> {
    if !is_token(uppercased(endpoint.method@)) {
        Err(Fault::BadMethod)
    } else {
        match head_from(
            opt_pairs_view(endpoint.headers),
            opt_view(endpoint.cookies),
            render_template,
            data,
            supplied,
        ) {
            Err(f) => Err(f),
            Ok(headers) => match json_from(endpoint.json, render_template, data, supplied) {
                Err(f) => Err(f),
                Ok(json) => match form_from(
                    opt_pairs_view(endpoint.form_data),
                    render_form,
                    data,
                    supplied,
                ) {
                    Err(f) => Err(f),
                    Ok(form) => Ok(
                        PlanView {
                            method: uppercased(endpoint.method@),
                            url: endpoint.url@,
                            headers,
                            json,
                            form,
                        },
                    ),
                },
            },
        }
    }
}

/// The names of the headers in a list, whose letter case does not matter.
pub open spec fn header_names(list: Seq<(Seq<char>, Seq<char>)>) -> Set<Seq<char>> {
    Seq::new(list.len(), |i: int| lowered(list[i].0)).to_set()
}

/// More names of headers than are known to fit into one request, besides the cookies.
pub open spec fn overfull(list: Option<Seq<(Seq<char>, Seq<char>)>>) -> bool {
    list matches Some(l) && header_names(l).len() > 6552
}

proof fn lemma_named(list: Seq<(Seq<char>, Seq<char>)>, i: int)
    requires
        0 <= i < list.len(),
    ensures
        header_names(list).contains(lowered(list[i].0)),
{
    let names = Seq::new(list.len(), |i: int| lowered(list[i].0));
    assert(names[i] == lowered(list[i].0));
}

proof fn lemma_names_bound(list: Seq<(Seq<char>, Seq<char>)>, names: Set<Seq<char>>)
    requires
        names.subset_of(header_names(list)),
    ensures
        names.finite(),
        names.len() <= header_names(list).len(),
{
    seq_to_set_is_finite(Seq::new(list.len(), |i: int| lowered(list[i].0)));
    lemma_len_subset(names, header_names(list));
}

/// The headers of a list, in a header map.
fn make_headers(
    list: &Vec<(String, String)>,
    render: bool,
    data: &Value,
    supplied: &Vec<Rendering>,
) -> (r: Result<HeaderMap<HeaderValue>, RequestError>)
    ensures
        match r {
            Ok(m) => headers_from(pairs_view(list@), render, *data, supplied@) == Ok::<
                Map<Seq<char>, Seq<Seq<u8>>>,
                Fault,
            >(header_values(m)) && header_values(m).dom().subset_of(
                header_names(pairs_view(list@)),
            ),
            Err(RequestError::TooManyHeaders) => header_names(pairs_view(list@)).len() > 6553,
            Err(e) => headers_from(pairs_view(list@), render, *data, supplied@) == Err::<
                Map<Seq<char>, Seq<Seq<u8>>>,
                Fault,
            >(e@),
        },
{
    let ghost pairs = pairs_view(list@);
    let mut headers = new_headers();
    let mut i: usize = 0;
    proof {
        assert(pairs.take(0).len() == 0);
    }
    while i < list.len()
        invariant
            0 <= i <= list.len(),
            pairs == pairs_view(list@),
            headers_from(pairs.take(i as int), render, *data, supplied@) == Ok::<
                Map<Seq<char>, Seq<Seq<u8>>>,
                Fault,
            >(header_values(headers)),
            header_values(headers).dom().subset_of(header_names(pairs)),
        decreases list.len() - i,
    {
        let ghost m = header_values(headers);
        proof {
            assert(pairs.take(i + 1).drop_last() == pairs.take(i as int));
            assert(pairs.take(i + 1).last() == (list@[i as int].0@, list@[i as int].1@));
        }
        let name = match parse_header_name(list[i].0.as_str()) {
            Some(n) => n,
            None => {
                proof {
                    lemma_headers_stuck(pairs, i + 1, render, *data, supplied@);
                }
                return Err(RequestError::BadHeaderName(list[i].0.clone()));
            },
        };
        let text = match fill_if(render, list[i].1.as_str(), data, supplied) {
            Some(t) => t,
            None => {
                proof {
                    lemma_headers_stuck(pairs, i + 1, render, *data, supplied@);
                }
                return Err(RequestError::Unrendered(list[i].1.clone()));
            },
        };
        let value = match parse_header_value(text.as_str()) {
            Some(v) => v,
            None => {
                proof {
                    lemma_headers_stuck(pairs, i + 1, render, *data, supplied@);
                }
                return Err(RequestError::BadHeaderValue(text));
            },
        };
        proof {
            lemma_names_bound(pairs, m.dom());
            lemma_named(pairs, i as int);
            assert(appended(m, name_text(name), value_bytes(value)).dom() == m.dom().insert(
                name_text(name),
            ));
        }
        if !append_header(&mut headers, name, value) {
            return Err(RequestError::TooManyHeaders);
        }
        i = i + 1;
    }
    assert(pairs.take(i as int) == pairs);
    Ok(headers)
}

/// A fault in a list of headers is a fault of every longer list that begins with it.
proof fn lemma_headers_stuck(
    pairs: Seq<(Seq<char>, Seq<char>)>,
    n: int,
    render: bool,
    data: Value,
    supplied: Seq<Rendering>,
)
    requires
        0 <= n <= pairs.len(),
        headers_from(pairs.take(n), render, data, supplied) is Err,
    ensures
        headers_from(pairs, render, data, supplied) == headers_from(
            pairs.take(n),
            render,
            data,
            supplied,
        ),
    decreases pairs.len(),
{
    if n == pairs.len() {
        assert(pairs.take(n) == pairs);
    } else {
        assert(pairs.drop_last().take(n) == pairs.take(n));
        lemma_headers_stuck(pairs.drop_last(), n, render, data, supplied);
    }
}

/// The headers and cookies of a request, in a header map.
fn make_head(
    list: &Option<Vec<(String, String)>>,
    cookies: &Option<String>,
    render: bool,
    data: &Value,
    supplied: &Vec<Rendering>,
) -> (r: Result<HeaderMap<HeaderValue>, RequestError>)
    ensures
        match r {
            Ok(m) => head_from(
                opt_pairs_view(*list),
                opt_view(*cookies),
                render,
                *data,
                supplied@,
            ) == Ok::<Map<Seq<char>, Seq<Seq<u8>>>, Fault>(header_values(m)) && header_values(
                m,
            ).dom().finite() && (header_values(m).dom().len() > 6553 ==> overfull(
                opt_pairs_view(*list),
            )),
            Err(RequestError::TooManyHeaders) => overfull(opt_pairs_view(*list)),
            Err(e) => head_from(
                opt_pairs_view(*list),
                opt_view(*cookies),
                render,
                *data,
                supplied@,
            ) == Err::<Map<Seq<char>, Seq<Seq<u8>>>, Fault>(e@),
        },
{
    let mut headers = match list {
        None => new_headers(),
        Some(l) => match make_headers(l, render, data, supplied) {
            Ok(m) => m,
            Err(e) => return Err(e),
        },
    };
    proof {
        match list {
            None => {},
            Some(l) => lemma_names_bound(pairs_view(l@), header_values(headers).dom()),
        }
    }
    match cookies {
        None => Ok(headers),
        Some(c) => {
            let text = match fill_if(render, c.as_str(), data, supplied) {
                Some(t) => t,
                None => return Err(RequestError::Unrendered(c.clone())),
            };
            let value = match parse_header_value(text.as_str()) {
                Some(v) => v,
                None => return Err(RequestError::BadCookie),
            };
            proof {
                let m = header_values(headers);
                assert(m.insert("cookie"@, seq![value_bytes(value)]).dom() == m.dom().insert(
                    "cookie"@,
                ));
            }
            if insert_cookie(&mut headers, value) {
                Ok(headers)
            } else {
                Err(RequestError::TooManyHeaders)
            }
        },
    }
}

/// The JSON body of a request.
fn make_json(json: &Option<Value>, render: bool, data: &Value, supplied: &Vec<Rendering>) -> (r:
    Result<Option<Value>, RequestError>)
    ensures
        r matches Ok(v) ==> json_from(*json, render, *data, supplied@) == Ok::<
            Option<Value>,
            Fault,
        >(v),
        r matches Err(e) ==> json_from(*json, render, *data, supplied@) == Err::<
            Option<Value>,
            Fault,
        >(e@),
        r matches Err(e) ==> e !is TooManyHeaders,
{
    match json {
        None => Ok(None),
        Some(v) => {
            if !render {
                return Ok(Some(v.clone()));
            }
            let source = value_text(v);
            let text = match fill_if(true, source.as_str(), data, supplied) {
                Some(t) => t,
                None => return Err(RequestError::Unrendered(source)),
            };
            match parse_text(text.as_str()) {
                Ok(w) => Ok(Some(w)),
                Err(e) => Err(RequestError::BadJson(parse_error_debug(&e), text)),
            }
        },
    }
}

/// A fault in the pairs of a form is a fault of every longer form that begins with them.
proof fn lemma_pairs_stuck(
    pairs: Seq<(Seq<char>, Seq<char>)>,
    n: int,
    render: bool,
    data: Value,
    supplied: Seq<Rendering>,
)
    requires
        0 <= n <= pairs.len(),
        pairs_from(pairs.take(n), render, data, supplied) is Err,
    ensures
        pairs_from(pairs, render, data, supplied) == pairs_from(
            pairs.take(n),
            render,
            data,
            supplied,
        ),
    decreases pairs.len(),
{
    if n == pairs.len() {
        assert(pairs.take(n) == pairs);
    } else {
        assert(pairs.drop_last().take(n) == pairs.take(n));
        lemma_pairs_stuck(pairs.drop_last(), n, render, data, supplied);
    }
}

/// The form of a request.
fn make_form(
    form: &Option<Vec<(String, String)>>,
    render: bool,
    data: &Value,
    supplied: &Vec<Rendering>,
) -> (r: Result<Option<Vec<(String, String)>>, RequestError>)
    ensures
        r matches Ok(f) ==> form_from(opt_pairs_view(*form), render, *data, supplied@) == Ok::<
            Option<Seq<(Seq<char>, Seq<char>)>>,
            Fault,
        >(opt_pairs_view(f)),
        r matches Err(e) ==> form_from(opt_pairs_view(*form), render, *data, supplied@) == Err::<
            Option<Seq<(Seq<char>, Seq<char>)>>,
            Fault,
        >(e@),
        r matches Err(e) ==> e !is TooManyHeaders,
{
    let pairs = match form {
        None => return Ok(None),
        Some(pairs) => pairs,
    };
    let ghost all = pairs_view(pairs@);
    let mut done: Vec<(String, String)> = Vec::new();
    let mut i: usize = 0;
    assert(all.take(0).len() == 0);
    assert(pairs_view(done@) == Seq::<(Seq<char>, Seq<char>)>::empty());
    while i < pairs.len()
        invariant
            0 <= i <= pairs.len(),
            all == pairs_view(pairs@),
            *form == Some(*pairs),
            pairs_from(all.take(i as int), render, *data, supplied@) == Ok::<
                Seq<(Seq<char>, Seq<char>)>,
                Fault,
            >(pairs_view(done@)),
        decreases pairs.len() - i,
    {
        let ghost before = pairs_view(done@);
        proof {
            assert(all.take(i + 1).drop_last() == all.take(i as int));
            assert(all.take(i + 1).last() == (pairs@[i as int].0@, pairs@[i as int].1@));
        }
        match fill_if(render, pairs[i].1.as_str(), data, supplied) {
            None => {
                proof {
                    lemma_pairs_stuck(all, i + 1, render, *data, supplied@);
                }
                return Err(RequestError::Unrendered(pairs[i].1.clone()));
            },
            Some(text) => {
                let key = pairs[i].0.clone();
                let ghost pair = (key@, text@);
                done.push((key, text));
                assert(pairs_view(done@) == before.push(pair));
            },
        }
        i = i + 1;
    }
    assert(all.take(i as int) == all);
    Ok(Some(done))
}

/// Makes the request of an endpoint from what was extracted so far.
pub fn prepare_endpoint(
    endpoint: &ApiEndpoint,
    render_template: bool,
    render_form: bool,
    extracted: &ExtractMap,
    supplied: &Vec<Rendering>,
) -> (r: Result<RequestPlan, RequestError>)
    ensures
        match r {
            Err(RequestError::TooManyHeaders) => overfull(opt_pairs_view(endpoint.headers)),
            Err(e) => endpoint_plan(
                *endpoint,
                render_template,
                render_form,
                json_object(extracted@),
                supplied@,
            ) == Err::<PlanView, Fault>(e@),
            Ok(plan) => endpoint_plan(
                *endpoint,
                render_template,
                render_form,
                json_object(extracted@),
                supplied@,
            ) == Ok::<PlanView, Fault>(plan@),
        },
        ascii_only(endpoint.method@) ==> uppercased(endpoint.method@) == ascii_raised(
            endpoint.method@,
        ),
{
    let data = extracted.to_object();
    let name = to_upper(endpoint.method.as_str());
    let method = match parse_method(name.as_str()) {
        Some(m) => m,
        None => return Err(RequestError::BadMethod),
    };
    let headers = match make_head(
        &endpoint.headers,
        &endpoint.cookies,
        render_template,
        &data,
        supplied,
    ) {
        Ok(m) => m,
        Err(e) => return Err(e),
    };
    let json = match make_json(&endpoint.json, render_template, &data, supplied) {
        Ok(v) => v,
        Err(e) => return Err(e),
    };
    let form = match make_form(&endpoint.form_data, render_form, &data, supplied) {
        Ok(f) => f,
        Err(e) => return Err(e),
    };
    Ok(RequestPlan { method, url: endpoint.url.clone(), headers, json, form })
}

/// A header value of a setup request, filled in. A value that is not visible ASCII, or that
/// cannot be rendered, stays as it is.
pub open spec fn rendered_value(bytes: Seq<u8>, data: Value, supplied: Seq<Rendering>) -> Result<
    Seq<u8>,
    Fault,
> {
    match visible_text(bytes) {
        None => Ok(bytes),
        Some(t) => match rendering(t, data, supplied) {
            None => Err(Fault::Unrendered(t)),
            Some(None) => Ok(bytes),
            Some(Some(text)) => if is_header_value(text) {
                Ok(encode_utf8(text))
            } else {
                Err(Fault::BadHeaderValue(text))
            },
        },
    }
}

/// Every header value can be filled in.
pub open spec fn values_fine(
    headers: Map<Seq<char>, Seq<Seq<u8>>>,
    data: Value,
    supplied: Seq<Rendering>,
) -> bool {
    forall|k: Seq<char>, i: int|
        headers.contains_key(k) && 0 <= i < headers[k].len() ==> rendered_value(
            #[trigger] headers[k][i],
            data,
            supplied,
        ) is Ok
}

/// Some header value cannot be filled in, for this reason.
pub open spec fn value_fault(
    headers: Map<Seq<char>, Seq<Seq<u8>>>,
    data: Value,
    supplied: Seq<Rendering>,
    fault: Fault,
) -> bool {
    exists|k: Seq<char>, i: int|
        headers.contains_key(k) && 0 <= i < headers[k].len() && rendered_value(
            #[trigger] headers[k][i],
            data,
            supplied,
        ) == Err::<Seq<u8>, Fault>(fault)
}

/// Header values, all filled in.
pub open spec fn rendered_values(values: Seq<Seq<u8>>, data: Value, supplied: Seq<Rendering>) -> Seq<
    Seq<u8>,
> {
    Seq::new(values.len(), |i: int| rendered_value(values[i], data, supplied)->Ok_0)
}

/// Headers, all their values filled in.
pub open spec fn rendered_headers(
    headers: Map<Seq<char>, Seq<Seq<u8>>>,
    data: Value,
    supplied: Seq<Rendering>,
) -> Map<Seq<char>, Seq<Seq<u8>>> {
    Map::new(
        |k: Seq<char>| headers.contains_key(k),
        |k: Seq<char>| rendered_values(headers[k], data, supplied),
    )
}

/// The request of a setup step: what may come of preparing it. Everything is filled in; which
/// fault comes out where several header values have one is left open.
pub open spec fn setup_plan(
    option: SetupApiEndpoint,
    data: Value,
    supplied: Seq<Rendering>,
    outcome: Result<PlanView, Fault>,
) -> bool {
    if !is_token(uppercased(option.method@)) {
        outcome == Err::<PlanView, Fault>(Fault::BadMethod)
    } else {
        match head_from(
            opt_pairs_view(option.headers),
            opt_view(option.cookies),
            false,
            data,
            supplied,
        ) {
            Err(f) => outcome == Err::<PlanView, Fault>(f),
            Ok(headers) => if !values_fine(headers, data, supplied) {
                outcome matches Err(f) && value_fault(headers, data, supplied, f)
            } else {
                match json_from(option.json, true, data, supplied) {
                    Err(f) => outcome == Err::<PlanView, Fault>(f),
                    Ok(json) => match form_from(
                        opt_pairs_view(option.form_data),
                        true,
                        data,
                        supplied,
                    ) {
                        Err(f) => outcome == Err::<PlanView, Fault>(f),
                        Ok(form) => outcome == Ok::<PlanView, Fault>(
                            PlanView {
                                method: uppercased(option.method@),
                                url: option.url@,
                                headers: rendered_headers(headers, data, supplied),
                                json,
                                form,
                            },
                        ),
                    },
                }
            },
        }
    }
}

/// A header in a list is among the values of its name.
proof fn lemma_grouped_has(list: Seq<(Seq<char>, Seq<u8>)>, i: int)
    requires
        0 <= i < list.len(),
    ensures
        grouped(list).contains_key(list[i].0),
        grouped(list)[list[i].0].contains(list[i].1),
    decreases list.len(),
{
    let before = grouped(list.drop_last());
    let all = grouped(list)[list[i].0];
    if i == list.len() - 1 {
        assert(all[all.len() - 1] == list[i].1);
    } else {
        lemma_grouped_has(list.drop_last(), i);
        assert(list.drop_last()[i] == list[i]);
        let j = before[list[i].0].index_of(list[i].1);
        assert(before[list[i].0][j] == list[i].1);
        assert(all[j] == list[i].1);
    }
}

/// A longer list of headers has no fewer names.
proof fn lemma_grouped_grows(list: Seq<(Seq<char>, Seq<u8>)>, n: int)
    requires
        0 <= n <= list.len(),
    ensures
        grouped(list).dom().finite(),
        grouped(list.take(n)).dom().finite(),
        grouped(list.take(n)).dom().len() <= grouped(list).dom().len(),
    decreases list.len(),
{
    if n == list.len() {
        assert(list.take(n) == list);
        if n > 0 {
            lemma_grouped_grows(list.drop_last(), n - 1);
        }
    } else {
        assert(list.drop_last().take(n) == list.take(n));
        lemma_grouped_grows(list.drop_last(), n);
    }
    if list.len() > 0 {
        assert(grouped(list).dom() == grouped(list.drop_last()).dom().insert(list.last().0));
    }
}

/// Fills in every header value of a setup request.
fn render_headers(headers: &HeaderMap<HeaderValue>, data: &Value, supplied: &Vec<Rendering>) -> (r:
    Result<HeaderMap<HeaderValue>, RequestError>)
    ensures
        match r {
            Ok(m) => values_fine(header_values(*headers), *data, supplied@) && header_values(m)
                == rendered_headers(header_values(*headers), *data, supplied@),
            Err(RequestError::TooManyHeaders) => header_values(*headers).dom().len() > 6553,
            Err(e) => value_fault(header_values(*headers), *data, supplied@, e@),
        },
{
    let list = headers_listed(headers);
    let ghost all = list_view(list@);
    let mut out = new_headers();
    let mut i: usize = 0;
    assert(all.take(0).len() == 0);
    assert(rendered_headers(no_headers(), *data, supplied@) =~= no_headers());
    while i < list.len()
        invariant
            0 <= i <= list.len(),
            all == list_view(list@),
            grouped(all) == header_values(*headers),
            values_fine(grouped(all.take(i as int)), *data, supplied@),
            header_values(out) == rendered_headers(grouped(all.take(i as int)), *data, supplied@),
        decreases list.len() - i,
    {
        let ghost g = grouped(all.take(i as int));
        let ghost bytes = all[i as int].1;
        let ghost name = all[i as int].0;
        proof {
            assert(all.take(i + 1).drop_last() == all.take(i as int));
            assert(all.take(i + 1).last() == all[i as int]);
            lemma_grouped_has(all, i as int);
            let j = grouped(all)[name].index_of(bytes);
            assert(grouped(all)[name][j] == bytes);
        }
        let value = match header_value_text(&list[i].1) {
            None => list[i].1.clone(),
            Some(text) => match render_with(text.as_str(), data, supplied) {
                None => return Err(RequestError::Unrendered(text)),
                Some(None) => list[i].1.clone(),
                Some(Some(new_text)) => match parse_header_value(new_text.as_str()) {
                    None => return Err(RequestError::BadHeaderValue(new_text)),
                    Some(v) => v,
                },
            },
        };
        proof {
            let n = value_bytes(value);
            assert(rendered_value(bytes, *data, supplied@) == Ok::<Seq<u8>, Fault>(n));
            let next = grouped(all.take(i + 1));
            assert(next == appended(g, name, bytes));
            assert(values_fine(next, *data, supplied@));
            lemma_grouped_grows(all, i as int);
            assert(rendered_headers(g, *data, supplied@).dom() =~= g.dom());
            let rendered_next = rendered_headers(next, *data, supplied@);
            let stepped = appended(rendered_headers(g, *data, supplied@), name, n);
            assert(rendered_next[name] =~= stepped[name]);
            assert(rendered_next =~= stepped);
        }
        if !append_header(&mut out, list[i].0.clone(), value) {
            return Err(RequestError::TooManyHeaders);
        }
        i = i + 1;
    }
    assert(all.take(i as int) == all);
    Ok(out)
}

/// Makes the request of a setup step from what was extracted so far.
pub fn prepare_setup(
    option: &SetupApiEndpoint,
    extracted: &ExtractMap,
    supplied: &Vec<Rendering>,
) -> (r: Result<RequestPlan, RequestError>)
    ensures
        match r {
            Err(RequestError::TooManyHeaders) => overfull(opt_pairs_view(option.headers)),
            Err(e) => setup_plan(
                *option,
                json_object(extracted@),
                supplied@,
                Err::<PlanView, Fault>(e@),
            ),
            Ok(plan) => setup_plan(
                *option,
                json_object(extracted@),
                supplied@,
                Ok::<PlanView, Fault>(plan@),
            ),
        },
        ascii_only(option.method@) ==> uppercased(option.method@) == ascii_raised(option.method@),
{
    let data = extracted.to_object();
    let name = to_upper(option.method.as_str());
    let method = match parse_method(name.as_str()) {
        Some(m) => m,
        None => return Err(RequestError::BadMethod),
    };
    let raw = match make_head(&option.headers, &option.cookies, false, &data, supplied) {
        Ok(m) => m,
        Err(e) => return Err(e),
    };
    let headers = match render_headers(&raw, &data, supplied) {
        Ok(m) => m,
        Err(e) => return Err(e),
    };
    let json = match make_json(&option.json, true, &data, supplied) {
        Ok(v) => v,
        Err(e) => return Err(e),
    };
    let form = match make_form(&option.form_data, true, &data, supplied) {
        Ok(f) => f,
        Err(e) => return Err(e),
    };
    Ok(RequestPlan { method, url: option.url.clone(), headers, json, form })
}

/// What a fault reads as. `comma` stands between the parser's error and the text it is about.
pub open spec fn fault_message(fault: Fault, comma: Seq<char>) -> Seq<char> {
    match fault {
        Fault::BadMethod => "构建请求方法失败"@,
        Fault::BadHeaderName(_) => "无效的header名称"@,
        Fault::BadHeaderValue(_) => "无效的header值"@,
        Fault::TooManyHeaders => "size overflows MAX_SIZE"@,
        Fault::BadCookie => "设置cookie失败:InvalidHeaderValue"@,
        Fault::BadJson(e, t) => "转换json失败:"@ + e + comma + "原始json: "@ + quoted(t),
        Fault::Unrendered(t) => t,
    }
}

impl RequestError {
    /// What the error reads as. `comma` stands between the parser's error and the text it is
    /// about.
    pub(crate) fn message_with(&self, comma: &str) -> (r: String)
        ensures
            r@ == fault_message(self@, comma@),
    {
        match self {
            RequestError::BadMethod => "构建请求方法失败".to_owned(),
            RequestError::BadHeaderName(_) => "无效的header名称".to_owned(),
            RequestError::BadHeaderValue(_) => "无效的header值".to_owned(),
            RequestError::TooManyHeaders => "size overflows MAX_SIZE".to_owned(),
            RequestError::BadCookie => "设置cookie失败:InvalidHeaderValue".to_owned(),
            RequestError::BadJson(e, t) => {
                let head = joined("转换json失败:", e.as_str());
                let middle = joined(head.as_str(), comma);
                let label = joined(middle.as_str(), "原始json: ");
                joined(label.as_str(), debug_text(t.as_str()).as_str())
            },
            RequestError::Unrendered(t) => t.clone(),
        }
    }

    /// What the error of an endpoint's request reads as.
    pub fn message(&self) -> (r: String)
        ensures
            r@ == fault_message(self@, ", "@),
    {
        self.message_with(", ")
    }

    /// Tells whether the error is a broken configuration of headers, which stops the program
    /// rather than the request.
    pub fn is_fatal(&self) -> (r: bool)
        ensures
            r == (self is BadHeaderName || self is BadHeaderValue || self is TooManyHeaders),
    {
        match self {
            RequestError::BadHeaderName(_) => true,
            RequestError::BadHeaderValue(_) => true,
            RequestError::TooManyHeaders => true,
            _ => false,
        }
    }
}

/// Without rendering, a request says word for word what its endpoint says: the extracted values
/// and the supplied renderings have no part in it.
pub proof fn law_unrendered_is_verbatim(
    endpoint: ApiEndpoint,
    data: Value,
    other: Value,
    supplied: Seq<Rendering>,
    more: Seq<Rendering>,
)
    ensures
        endpoint_plan(endpoint, false, false, data, supplied) == endpoint_plan(
            endpoint,
            false,
            false,
            other,
            more,
        ),
        endpoint_plan(endpoint, false, false, data, supplied) matches Ok(plan) ==> plan.url
            == endpoint.url@ && plan.json == endpoint.json && plan.form == opt_pairs_view(
            endpoint.form_data,
        ),
{
    if let Some(list) = opt_pairs_view(endpoint.headers) {
        lemma_plain_headers(list, data, other, supplied, more);
    }
    if let Some(pairs) = opt_pairs_view(endpoint.form_data) {
        lemma_plain_pairs(pairs, data, supplied);
        lemma_plain_pairs(pairs, other, more);
    }
}

proof fn lemma_plain_headers(
    list: Seq<(Seq<char>, Seq<char>)>,
    data: Value,
    other: Value,
    supplied: Seq<Rendering>,
    more: Seq<Rendering>,
)
    ensures
        headers_from(list, false, data, supplied) == headers_from(list, false, other, more),
    decreases list.len(),
{
    if list.len() > 0 {
        lemma_plain_headers(list.drop_last(), data, other, supplied, more);
    }
}

proof fn lemma_plain_pairs(pairs: Seq<(Seq<char>, Seq<char>)>, data: Value, supplied: Seq<Rendering>)
    ensures
        pairs_from(pairs, false, data, supplied) == Ok::<Seq<(Seq<char>, Seq<char>)>, Fault>(pairs),
    decreases pairs.len(),
{
    if pairs.len() == 0 {
        assert(pairs == Seq::<(Seq<char>, Seq<char>)>::empty());
    } else {
        lemma_plain_pairs(pairs.drop_last(), data, supplied);
        assert(pairs.drop_last().push(pairs.last()) == pairs);
    }
}

/// A request with cookies carries exactly one `cookie` header, whatever headers were listed.
pub proof fn law_cookies_replace(
    list: Option<Seq<(Seq<char>, Seq<char>)>>,
    cookies: Seq<char>,
    render: bool,
    data: Value,
    supplied: Seq<Rendering>,
)
    ensures
        head_from(list, Some(cookies), render, data, supplied) matches Ok(m) ==> m.contains_key(
            "cookie"@,
        ) && m["cookie"@].len() == 1 && m["cookie"@][0] == encode_utf8(
            filled_if(render, cookies, data, supplied)->Some_0,
        ),
{
}

/// What each fault reads as.
pub proof fn law_faults_tell_themselves(fault: Fault, comma: Seq<char>)
    ensures
        match fault {
            Fault::BadMethod => fault_message(fault, comma) == "构建请求方法失败"@,
            Fault::BadHeaderName(name) => fault_message(fault, comma) == "无效的header名称"@,
            Fault::BadHeaderValue(text) => fault_message(fault, comma) == "无效的header值"@,
            Fault::TooManyHeaders => fault_message(fault, comma) == "size overflows MAX_SIZE"@,
            Fault::BadCookie => fault_message(fault, comma) == "设置cookie失败:InvalidHeaderValue"@,
            Fault::BadJson(e, text) => fault_message(fault, comma) == "转换json失败:"@ + e + comma
                + "原始json: "@ + quoted(text),
            Fault::Unrendered(t) => fault_message(fault, comma) == t,
        },
{
}

/// Up to 6552 headers fit into a request, and however many do that have the same name.
pub proof fn law_few_names_fit(list: Seq<(Seq<char>, Seq<char>)>)
    ensures
        !overfull(None),
        list.len() <= 6552 ==> !overfull(Some(list)),
        (forall|i: int|
            0 <= i < list.len() ==> lowered((#[trigger] list[i]).0) == lowered(list[0].0))
            ==> !overfull(Some(list)),
{
    let names = Seq::new(list.len(), |i: int| lowered(list[i].0));
    names.lemma_cardinality_of_set();
    if forall|i: int|
        0 <= i < list.len() ==> lowered((#[trigger] list[i]).0) == lowered(list[0].0) {
        let one = Set::<Seq<char>>::empty().insert(lowered(list[0].0));
        assert forall|n: Seq<char>| header_names(list).contains(n) implies one.contains(n) by {
            let i = choose|i: int| 0 <= i < names.len() && names[i] == n;
            assert(n == lowered(list[i].0));
        }
        vstd::set_lib::lemma_len_subset(header_names(list), one);
    }
}

} // verus!
