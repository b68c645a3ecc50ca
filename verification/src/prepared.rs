//! Prepared requests: what the request of an endpoint or of a setup step carries, told from what
//! was configured.

use serde_json::Value;
use vstd::prelude::*;
use vstd::utf8::encode_utf8;

use crate::json::{json_error_debug, json_from_text, json_text};
use crate::models::{ApiEndpoint, SetupApiEndpoint};
use crate::net::{is_header_name, is_header_value, is_token, lowered, visible_text};
use crate::request::{
    endpoint_plan, form_from, head_from, headers_from, json_from, opt_pairs_view, pairs_from,
    rendered_value, setup_plan, values_fine, Fault, PlanView,
};
use crate::template::{
    filled, filled_if, plain_template, rendered, rendering, supplied_rendering, Rendering,
};
use crate::text::{opt_view, uppercased};

verus! {

/// The caller's rendering of a template is the first that was supplied for it.
pub open spec fn first_supplied(supplied: Seq<Rendering>, t: Seq<char>, i: int) -> bool {
    &&& 0 <= i < supplied.len()
    &&& supplied[i].template@ == t
    &&& forall|j: int| 0 <= j < i ==> (#[trigger] supplied[j]).template@ != t
}

/// A template comes out as this text: its rendering, or its own text where it has none.
pub open spec fn comes_out(
    t: Seq<char>,
    data: Value,
    supplied: Seq<Rendering>,
    text: Seq<char>,
) -> bool {
    if plain_template(t) {
        text == (match rendered(t, data) {
            Some(x) => x,
            None => t,
        })
    } else {
        exists|i: int| #[trigger]
            first_supplied(supplied, t, i) && text == (match supplied[i].text {
                Some(x) => x@,
                None => t,
            })
    }
}

/// A text is sent as this one: the text itself, or what it comes out as where it is filled in.
pub open spec fn sent_as(
    render: bool,
    t: Seq<char>,
    data: Value,
    supplied: Seq<Rendering>,
    text: Seq<char>,
) -> bool {
    if render {
        comes_out(t, data, supplied, text)
    } else {
        text == t
    }
}

/// The rendering of a template has to be supplied and is not.
pub open spec fn wanting(render: bool, t: Seq<char>, supplied: Seq<Rendering>) -> bool {
    render && !plain_template(t) && forall|i: int|
        0 <= i < supplied.len() ==> (#[trigger] supplied[i]).template@ != t
}

proof fn lemma_supplied(supplied: Seq<Rendering>, t: Seq<char>)
    ensures
        supplied_rendering(supplied, t) is None <==> forall|i: int|
            0 <= i < supplied.len() ==> (#[trigger] supplied[i]).template@ != t,
        forall|i: int| #[trigger]
            first_supplied(supplied, t, i) ==> supplied_rendering(supplied, t) == Some(
                opt_view(supplied[i].text),
            ),
        supplied_rendering(supplied, t) is Some ==> exists|i: int| first_supplied(supplied, t, i),
    decreases supplied.len(),
{
    if supplied.len() > 0 {
        let rest = supplied.drop_first();
        lemma_supplied(rest, t);
        if supplied[0].template@ == t {
            assert(first_supplied(supplied, t, 0));
        } else {
            assert(supplied_rendering(supplied, t) == supplied_rendering(rest, t));
            assert forall|i: int| #[trigger] first_supplied(supplied, t, i) implies first_supplied(
                rest,
                t,
                i - 1,
            ) by {
                assert(rest[i - 1] == supplied[i]);
                assert forall|j: int| 0 <= j < i - 1 implies (#[trigger] rest[j]).template@
                    != t by {
                    assert(rest[j] == supplied[j + 1]);
                }
            }
            if supplied_rendering(rest, t) is Some {
                let i = choose|i: int| first_supplied(rest, t, i);
                assert forall|j: int| 0 <= j < i + 1 implies (#[trigger] supplied[j]).template@
                    != t by {
                    if j > 0 {
                        assert(rest[j - 1] == supplied[j]);
                    }
                }
                assert(rest[i] == supplied[i + 1]);
                assert(first_supplied(supplied, t, i + 1));
                assert(supplied[i + 1].template@ == t);
            } else {
                assert forall|i: int| 0 <= i < supplied.len() implies (
                #[trigger] supplied[i]).template@ != t by {
                    if i > 0 {
                        assert(rest[i - 1] == supplied[i]);
                    }
                }
            }
            assert forall|i: int| #[trigger]
                first_supplied(supplied, t, i) implies supplied_rendering(supplied, t) == Some(
                opt_view(supplied[i].text),
            ) by {
                assert(first_supplied(rest, t, i - 1));
                assert(rest[i - 1] == supplied[i]);
            }
        }
    }
}

/// A template comes out as its rendering: the one that is made here where it is plain, else the
/// first that the caller supplied for it; and as its own text where it cannot be rendered. It
/// comes out as one text at most, and as none only where the caller's rendering is wanting. A
/// text that is not to be filled in is sent as it is.
pub proof fn law_templates_come_out(
    render: bool,
    t: Seq<char>,
    data: Value,
    supplied: Seq<Rendering>,
)
    ensures
        forall|text: Seq<char>|
            filled_if(render, t, data, supplied) == Some(text) <==> #[trigger] sent_as(
                render,
                t,
                data,
                supplied,
                text,
            ),
        filled_if(render, t, data, supplied) is None <==> wanting(render, t, supplied),
        forall|text: Seq<char>|
            filled(t, data, supplied) == Some(text) <==> #[trigger] comes_out(
                t,
                data,
                supplied,
                text,
            ),
        filled(t, data, supplied) is None <==> wanting(true, t, supplied),
{
    lemma_supplied(supplied, t);
    assert forall|text: Seq<char>|
        filled(t, data, supplied) == Some(text) <==> #[trigger] comes_out(
            t,
            data,
            supplied,
            text,
        ) by {
        if !plain_template(t) {
            if filled(t, data, supplied) == Some(text) {
                let i = choose|i: int| first_supplied(supplied, t, i);
                assert(first_supplied(supplied, t, i));
                assert(opt_view(supplied[i].text) == supplied_rendering(supplied, t)->Some_0);
            }
            if comes_out(t, data, supplied, text) {
                let i = choose|i: int| #[trigger]
                    first_supplied(supplied, t, i) && text == (match supplied[i].text {
                        Some(x) => x@,
                        None => t,
                    });
                assert(supplied_rendering(supplied, t) == Some(opt_view(supplied[i].text)));
            }
        }
    }
    assert forall|text: Seq<char>|
        filled_if(render, t, data, supplied) == Some(text) <==> #[trigger] sent_as(
            render,
            t,
            data,
            supplied,
            text,
        ) by {
        assert(filled(t, data, supplied) == Some(text) <==> comes_out(t, data, supplied, text));
    }
}

/// The values that a list of headers gives a name, in their order.
pub open spec fn values_under(list: Seq<(Seq<char>, Seq<char>)>, name: Seq<char>) -> Seq<Seq<char>>
    decreases list.len(),
{
    if list.len() == 0 {
        Seq::empty()
    } else if lowered(list.last().0) == name {
        values_under(list.drop_last(), name).push(list.last().1)
    } else {
        values_under(list.drop_last(), name)
    }
}

/// The headers that are listed; none where there is no list.
pub open spec fn listed(list: Option<Vec<(String, String)>>) -> Seq<(Seq<char>, Seq<char>)> {
    match list {
        None => Seq::empty(),
        Some(l) => Seq::new(l@.len(), |i: int| (l@[i].0@, l@[i].1@)),
    }
}

/// A header value carries a configured one: the bytes of what it is sent as.
pub open spec fn carries(
    bytes: Seq<u8>,
    render: bool,
    value: Seq<char>,
    data: Value,
    supplied: Seq<Rendering>,
) -> bool {
    exists|text: Seq<char>| #[trigger]
        sent_as(render, value, data, supplied, text) && is_header_value(text) && bytes
            == encode_utf8(text)
}

/// A header of a list can be put into a request.
pub open spec fn header_fine(
    pair: (Seq<char>, Seq<char>),
    render: bool,
    data: Value,
    supplied: Seq<Rendering>,
) -> bool {
    is_header_name(pair.0) && exists|text: Seq<char>| #[trigger]
        sent_as(render, pair.1, data, supplied, text) && is_header_value(text)
}

/// All headers of a list can be put into a request.
pub open spec fn headers_fine(
    list: Seq<(Seq<char>, Seq<char>)>,
    render: bool,
    data: Value,
    supplied: Seq<Rendering>,
) -> bool {
    forall|i: int| 0 <= i < list.len() ==> header_fine(#[trigger] list[i], render, data, supplied)
}

/// The cookies, where there are any, can be put into a request.
pub open spec fn cookies_fine(
    cookies: Option<String>,
    render: bool,
    data: Value,
    supplied: Seq<Rendering>,
) -> bool {
    match cookies {
        None => true,
        Some(c) => exists|text: Seq<char>| #[trigger]
            sent_as(render, c@, data, supplied, text) && is_header_value(text),
    }
}

proof fn lemma_headers_from(
    list: Seq<(Seq<char>, Seq<char>)>,
    render: bool,
    data: Value,
    supplied: Seq<Rendering>,
    name: Seq<char>,
)
    ensures
        headers_from(list, render, data, supplied) is Ok <==> headers_fine(
            list,
            render,
            data,
            supplied,
        ),
        headers_from(list, render, data, supplied) matches Ok(m) ==> {
            let given = values_under(list, name);
            &&& m.contains_key(name) <==> given.len() > 0
            &&& m.contains_key(name) ==> m[name].len() == given.len()
            &&& forall|i: int|
                m.contains_key(name) && 0 <= i < given.len() ==> carries(
                    #[trigger] m[name][i],
                    render,
                    given[i],
                    data,
                    supplied,
                )
        },
    decreases list.len(),
{
    if list.len() > 0 {
        let fewer = list.drop_last();
        let pair = list.last();
        lemma_headers_from(fewer, render, data, supplied, name);
        law_templates_come_out(render, pair.1, data, supplied);
        if headers_fine(list, render, data, supplied) {
            assert forall|i: int| 0 <= i < fewer.len() implies header_fine(
                #[trigger] fewer[i],
                render,
                data,
                supplied,
            ) by {
                assert(header_fine(list[i], render, data, supplied));
            }
            assert(header_fine(list[list.len() - 1], render, data, supplied));
            let text = choose|text: Seq<char>| #[trigger]
                sent_as(render, pair.1, data, supplied, text) && is_header_value(text);
            assert(filled_if(render, pair.1, data, supplied) == Some(text));
        }
        if headers_from(list, render, data, supplied) is Ok {
            let text = filled_if(render, pair.1, data, supplied)->Some_0;
            assert(sent_as(render, pair.1, data, supplied, text));
            assert(header_fine(pair, render, data, supplied));
            assert forall|i: int| 0 <= i < list.len() implies header_fine(
                #[trigger] list[i],
                render,
                data,
                supplied,
            ) by {
                if i < fewer.len() {
                    assert(header_fine(fewer[i], render, data, supplied));
                }
            }
            let before = headers_from(fewer, render, data, supplied)->Ok_0;
            let m = headers_from(list, render, data, supplied)->Ok_0;
            let given = values_under(list, name);
            assert forall|i: int|
                m.contains_key(name) && 0 <= i < given.len() implies carries(
                #[trigger] m[name][i],
                render,
                given[i],
                data,
                supplied,
            ) by {
                if lowered(pair.0) == name {
                    if i < given.len() - 1 {
                        assert(before.contains_key(name));
                        assert(m[name][i] == before[name][i]);
                    } else {
                        assert(m[name][i] == encode_utf8(text));
                    }
                } else {
                    assert(m[name] == before[name]);
                }
            }
        }
    }
}

proof fn lemma_listed(list: Option<Vec<(String, String)>>)
    ensures
        list is Some ==> opt_pairs_view(list) == Some(listed(list)),
        list is None ==> opt_pairs_view(list) is None && listed(list).len() == 0,
{
    if let Some(l) = list {
        assert(opt_pairs_view(list)->Some_0 =~= listed(list));
    }
}

proof fn lemma_head(
    headers: Option<Vec<(String, String)>>,
    cookies: Option<String>,
    render: bool,
    data: Value,
    supplied: Seq<Rendering>,
    name: Seq<char>,
)
    ensures
        ({
            let head = head_from(
                opt_pairs_view(headers),
                opt_view(cookies),
                render,
                data,
                supplied,
            );
            &&& head is Ok <==> headers_fine(listed(headers), render, data, supplied)
                && cookies_fine(cookies, render, data, supplied)
            &&& head matches Ok(m) ==> {
                let given = values_under(listed(headers), name);
                let own = name == "cookie"@ && cookies is Some;
                &&& !own ==> (m.contains_key(name) <==> given.len() > 0)
                &&& !own && m.contains_key(name) ==> m[name].len() == given.len()
                &&& forall|i: int|
                    !own && m.contains_key(name) && 0 <= i < given.len() ==> carries(
                        #[trigger] m[name][i],
                        render,
                        given[i],
                        data,
                        supplied,
                    )
                &&& own ==> m.contains_key(name) && m[name].len() == 1 && carries(
                    m[name][0],
                    render,
                    cookies->Some_0@,
                    data,
                    supplied,
                )
            }
        }),
{
    lemma_listed(headers);
    let list = listed(headers);
    lemma_headers_from(list, render, data, supplied, name);
    if let Some(c) = cookies {
        law_templates_come_out(render, c@, data, supplied);
        if cookies_fine(cookies, render, data, supplied) {
            let text = choose|text: Seq<char>| #[trigger]
                sent_as(render, c@, data, supplied, text) && is_header_value(text);
            assert(filled_if(render, c@, data, supplied) == Some(text));
        }
        if let Some(text) = filled_if(render, c@, data, supplied) {
            assert(sent_as(render, c@, data, supplied, text));
        }
    }
    if headers is None {
        assert(headers_from(list, render, data, supplied)->Ok_0 == Map::<
            Seq<char>,
            Seq<Seq<u8>>,
        >::empty());
    }
}

/// The JSON body of a request that can be made: the configured value, or, where it is filled in,
/// the value that its text comes out as.
pub open spec fn json_sent(
    json: Option<Value>,
    render: bool,
    data: Value,
    supplied: Seq<Rendering>,
    sent: Option<Value>,
) -> bool {
    match json {
        None => sent is None,
        Some(v) => if !render {
            sent == Some(v)
        } else {
            sent is Some && exists|text: Seq<char>| #[trigger]
                comes_out(json_text(v), data, supplied, text) && json_from_text(text) == Ok::<
                    Value,
                    serde_json::Error,
                >(sent->Some_0)
        },
    }
}

/// The form of a request that can be made: the configured keys, in their order, each with what
/// its value is sent as.
pub open spec fn form_sent(
    form: Option<Vec<(String, String)>>,
    render: bool,
    data: Value,
    supplied: Seq<Rendering>,
    sent: Option<Seq<(Seq<char>, Seq<char>)>>,
) -> bool {
    match form {
        None => sent is None,
        Some(pairs) => sent matches Some(s) && s.len() == pairs@.len() && forall|i: int|
            0 <= i < s.len() ==> (#[trigger] s[i]).0 == pairs@[i].0@ && sent_as(
                render,
                pairs@[i].1@,
                data,
                supplied,
                s[i].1,
            ),
    }
}

/// No rendering that a form needs is wanting.
pub open spec fn form_fine(
    form: Option<Vec<(String, String)>>,
    render: bool,
    supplied: Seq<Rendering>,
) -> bool {
    form matches Some(pairs) ==> forall|i: int|
        0 <= i < pairs@.len() ==> !wanting(render, (#[trigger] pairs@[i]).1@, supplied)
}

/// The JSON body can be made.
pub open spec fn json_fine(
    json: Option<Value>,
    render: bool,
    data: Value,
    supplied: Seq<Rendering>,
) -> bool {
    json matches Some(v) ==> render ==> exists|text: Seq<char>| #[trigger]
        comes_out(json_text(v), data, supplied, text) && json_from_text(text) is Ok
}

proof fn lemma_json(
    json: Option<Value>,
    render: bool,
    data: Value,
    supplied: Seq<Rendering>,
)
    ensures
        json_from(json, render, data, supplied) is Ok <==> json_fine(json, render, data, supplied),
        json_from(json, render, data, supplied) matches Ok(sent) ==> json_sent(
            json,
            render,
            data,
            supplied,
            sent,
        ),
        json_from(json, render, data, supplied) matches Err(f) ==> render && (json matches Some(v)
            && (match f {
            Fault::Unrendered(t) => t == json_text(v) && wanting(true, t, supplied),
            Fault::BadJson(e, text) => comes_out(json_text(v), data, supplied, text) && (
            json_from_text(text) matches Err(x) && e == json_error_debug(x)),
            _ => false,
        })),
{
    if let Some(v) = json {
        let t = json_text(v);
        law_templates_come_out(true, t, data, supplied);
        if render {
            if let Some(text) = filled(t, data, supplied) {
                assert(comes_out(t, data, supplied, text));
            }
            if json_fine(json, render, data, supplied) {
                let text = choose|text: Seq<char>| #[trigger]
                    comes_out(t, data, supplied, text) && json_from_text(text) is Ok;
                assert(filled(t, data, supplied) == Some(text));
            }
        }
    }
}

proof fn lemma_pairs(
    pairs: Seq<(Seq<char>, Seq<char>)>,
    render: bool,
    data: Value,
    supplied: Seq<Rendering>,
)
    ensures
        pairs_from(pairs, render, data, supplied) is Ok <==> forall|i: int|
            0 <= i < pairs.len() ==> !wanting(render, (#[trigger] pairs[i]).1, supplied),
        pairs_from(pairs, render, data, supplied) matches Ok(s) ==> s.len() == pairs.len()
            && forall|i: int|
            0 <= i < s.len() ==> (#[trigger] s[i]).0 == pairs[i].0 && sent_as(
                render,
                pairs[i].1,
                data,
                supplied,
                s[i].1,
            ),
        pairs_from(pairs, render, data, supplied) matches Err(f) ==> exists|i: int|
            0 <= i < pairs.len() && wanting(render, (#[trigger] pairs[i]).1, supplied) && f
                == Fault::Unrendered(pairs[i].1) && forall|j: int|
                0 <= j < i ==> !wanting(render, (#[trigger] pairs[j]).1, supplied),
    decreases pairs.len(),
{
    if pairs.len() > 0 {
        let fewer = pairs.drop_last();
        let last = pairs.last();
        lemma_pairs(fewer, render, data, supplied);
        law_templates_come_out(render, last.1, data, supplied);
        assert(pairs[pairs.len() - 1] == last);
        match pairs_from(fewer, render, data, supplied) {
            Err(f) => {
                let i = choose|i: int|
                    0 <= i < fewer.len() && wanting(render, (#[trigger] fewer[i]).1, supplied) && f
                        == Fault::Unrendered(fewer[i].1) && forall|j: int|
                        0 <= j < i ==> !wanting(render, (#[trigger] fewer[j]).1, supplied);
                assert(pairs[i] == fewer[i]);
                assert forall|j: int| 0 <= j < i implies !wanting(
                    render,
                    (#[trigger] pairs[j]).1,
                    supplied,
                ) by {
                    assert(pairs[j] == fewer[j]);
                }
            },
            Ok(done) => {
                assert forall|i: int| 0 <= i < fewer.len() implies !wanting(
                    render,
                    (#[trigger] pairs[i]).1,
                    supplied,
                ) by {
                    assert(pairs[i] == fewer[i]);
                }
                match filled_if(render, last.1, data, supplied) {
                    None => {},
                    Some(text) => {
                        assert(sent_as(render, last.1, data, supplied, text));
                        let s = done.push((last.0, text));
                        assert forall|i: int| 0 <= i < s.len() implies (#[trigger] s[i]).0
                            == pairs[i].0 && sent_as(
                            render,
                            pairs[i].1,
                            data,
                            supplied,
                            s[i].1,
                        ) by {
                            if i < fewer.len() {
                                assert(s[i] == done[i]);
                                assert(pairs[i] == fewer[i]);
                            }
                        }
                    },
                }
            },
        }
    }
}

proof fn lemma_form(
    form: Option<Vec<(String, String)>>,
    render: bool,
    data: Value,
    supplied: Seq<Rendering>,
)
    ensures
        form_from(opt_pairs_view(form), render, data, supplied) is Ok <==> form_fine(
            form,
            render,
            supplied,
        ),
        form_from(opt_pairs_view(form), render, data, supplied) matches Ok(sent) ==> form_sent(
            form,
            render,
            data,
            supplied,
            sent,
        ),
        form_from(opt_pairs_view(form), render, data, supplied) matches Err(f) ==> f is Unrendered,
{
    if let Some(v) = form {
        let pairs = opt_pairs_view(form)->Some_0;
        lemma_pairs(pairs, render, data, supplied);
        assert forall|i: int| 0 <= i < pairs.len() implies (#[trigger] pairs[i]) == (
            v@[i].0@,
            v@[i].1@,
        ) by {}
        if form_fine(form, render, supplied) {
            assert forall|i: int| 0 <= i < pairs.len() implies !wanting(
                render,
                (#[trigger] pairs[i]).1,
                supplied,
            ) by {
                assert(!wanting(render, v@[i].1@, supplied));
            }
        }
        if pairs_from(pairs, render, data, supplied) is Ok {
            assert forall|i: int| 0 <= i < v@.len() implies !wanting(
                render,
                (#[trigger] v@[i]).1@,
                supplied,
            ) by {
                assert(!wanting(render, pairs[i].1, supplied));
            }
        }
    }
}

/// The request of an endpoint, whatever else the endpoint holds: its method in upper case, its
/// URL as it is; under each name the values that are listed for it, in their order, each as it is
/// sent, and under `cookie` the cookies alone where there are any; its JSON body and its form as
/// they are sent. Headers, cookies and JSON are filled in exactly where `render_template` asks for
/// that, and the form exactly where `render_form` does.
pub proof fn law_endpoint_request_carries(
    endpoint: ApiEndpoint,
    render_template: bool,
    render_form: bool,
    data: Value,
    supplied: Seq<Rendering>,
    name: Seq<char>,
)
    ensures
        endpoint_plan(endpoint, render_template, render_form, data, supplied) matches Ok(plan) ==> {
            let given = values_under(listed(endpoint.headers), name);
            let own = name == "cookie"@ && endpoint.cookies is Some;
            &&& plan.method == uppercased(endpoint.method@)
            &&& plan.url == endpoint.url@
            &&& !own ==> (plan.headers.contains_key(name) <==> given.len() > 0)
            &&& !own && given.len() > 0 ==> plan.headers[name].len() == given.len()
            &&& forall|i: int|
                !own && 0 <= i < given.len() ==> carries(
                    #[trigger] plan.headers[name][i],
                    render_template,
                    given[i],
                    data,
                    supplied,
                )
            &&& own ==> plan.headers.contains_key(name) && plan.headers[name].len() == 1 && carries(
                plan.headers[name][0],
                render_template,
                endpoint.cookies->Some_0@,
                data,
                supplied,
            )
            &&& json_sent(endpoint.json, render_template, data, supplied, plan.json)
            &&& form_sent(endpoint.form_data, render_form, data, supplied, plan.form)
        },
{
    lemma_head(endpoint.headers, endpoint.cookies, render_template, data, supplied, name);
    lemma_json(endpoint.json, render_template, data, supplied);
    lemma_form(endpoint.form_data, render_form, data, supplied);
}

/// The request of an endpoint can be made exactly where its method is a token, each of its
/// headers and its cookies can be put into a request, its JSON text comes out as JSON, and no
/// rendering that its form needs is wanting. A method that is no token is told before anything
/// else, then what is wrong with headers and cookies, then with JSON, then with the form.
pub proof fn law_endpoint_request_can_be_made(
    endpoint: ApiEndpoint,
    render_template: bool,
    render_form: bool,
    data: Value,
    supplied: Seq<Rendering>,
)
    ensures
        ({
            let outcome = endpoint_plan(endpoint, render_template, render_form, data, supplied);
            let token = is_token(uppercased(endpoint.method@));
            let head = headers_fine(listed(endpoint.headers), render_template, data, supplied)
                && cookies_fine(endpoint.cookies, render_template, data, supplied);
            let json = json_fine(endpoint.json, render_template, data, supplied);
            let form = form_fine(endpoint.form_data, render_form, supplied);
            &&& outcome is Ok <==> token && head && json && form
            &&& !token <==> outcome == Err::<PlanView, Fault>(Fault::BadMethod)
            &&& token && head && !json ==> (outcome matches Err(f) && (f is BadJson
                || f is Unrendered))
            &&& token && head && json && !form ==> (outcome matches Err(f) && f is Unrendered)
            &&& token && !head ==> (outcome matches Err(f) && (f is BadHeaderName
                || f is BadHeaderValue || f is BadCookie || f is Unrendered))
            &&& outcome matches Err(Fault::BadJson(e, text)) ==> (endpoint.json matches Some(v)
                && comes_out(json_text(v), data, supplied, text) && (json_from_text(
                text,
            ) matches Err(x) && e == json_error_debug(x)))
        }),
{
    lemma_head(
        endpoint.headers,
        endpoint.cookies,
        render_template,
        data,
        supplied,
        Seq::empty(),
    );
    lemma_head_fault(endpoint.headers, endpoint.cookies, render_template, data, supplied);
    lemma_json(endpoint.json, render_template, data, supplied);
    lemma_form(endpoint.form_data, render_form, data, supplied);
}

/// What is wrong with a header of a list.
pub open spec fn header_fault(
    pair: (Seq<char>, Seq<char>),
    render: bool,
    data: Value,
    supplied: Seq<Rendering>,
    fault: Fault,
) -> bool {
    if !is_header_name(pair.0) {
        fault == Fault::BadHeaderName(pair.0)
    } else if wanting(render, pair.1, supplied) {
        fault == Fault::Unrendered(pair.1)
    } else {
        fault matches Fault::BadHeaderValue(text) && sent_as(render, pair.1, data, supplied, text)
            && !is_header_value(text)
    }
}

/// The first header of a list that cannot be put into a request decides what is wrong with the
/// list.
pub proof fn law_first_header_fault_decides(
    list: Seq<(Seq<char>, Seq<char>)>,
    render: bool,
    data: Value,
    supplied: Seq<Rendering>,
    n: int,
)
    requires
        0 <= n < list.len(),
        !header_fine(list[n], render, data, supplied),
        forall|i: int| 0 <= i < n ==> header_fine(#[trigger] list[i], render, data, supplied),
    ensures
        headers_from(list, render, data, supplied) matches Err(f) && header_fault(
            list[n],
            render,
            data,
            supplied,
            f,
        ),
    decreases list.len(),
{
    let fewer = list.drop_last();
    if n < fewer.len() {
        assert(fewer[n] == list[n]);
        assert forall|i: int| 0 <= i < n implies header_fine(
            #[trigger] fewer[i],
            render,
            data,
            supplied,
        ) by {
            assert(fewer[i] == list[i]);
        }
        law_first_header_fault_decides(fewer, render, data, supplied, n);
    } else {
        assert forall|i: int| 0 <= i < fewer.len() implies header_fine(
            #[trigger] fewer[i],
            render,
            data,
            supplied,
        ) by {
            assert(fewer[i] == list[i]);
        }
        lemma_headers_from(fewer, render, data, supplied, Seq::empty());
        let pair = list.last();
        assert(pair == list[n]);
        law_templates_come_out(render, pair.1, data, supplied);
        if let Some(text) = filled_if(render, pair.1, data, supplied) {
            assert(sent_as(render, pair.1, data, supplied, text));
        }
    }
}

proof fn lemma_first_bad(
    list: Seq<(Seq<char>, Seq<char>)>,
    render: bool,
    data: Value,
    supplied: Seq<Rendering>,
    m: int,
) -> (n: int)
    requires
        0 <= m < list.len(),
        !header_fine(list[m], render, data, supplied),
    ensures
        0 <= n <= m,
        !header_fine(list[n], render, data, supplied),
        forall|i: int| 0 <= i < n ==> header_fine(#[trigger] list[i], render, data, supplied),
    decreases m,
{
    if exists|k: int| 0 <= k < m && !header_fine(#[trigger] list[k], render, data, supplied) {
        let k = choose|k: int|
            0 <= k < m && !header_fine(#[trigger] list[k], render, data, supplied);
        lemma_first_bad(list, render, data, supplied, k)
    } else {
        m
    }
}

proof fn lemma_head_fault(
    headers: Option<Vec<(String, String)>>,
    cookies: Option<String>,
    render: bool,
    data: Value,
    supplied: Seq<Rendering>,
)
    ensures
        ({
            let head = head_from(
                opt_pairs_view(headers),
                opt_view(cookies),
                render,
                data,
                supplied,
            );
            let list = listed(headers);
            &&& !headers_fine(list, render, data, supplied) ==> (head matches Err(f) && exists|
                n: int,
            |
                0 <= n < list.len() && header_fault(#[trigger] list[n], render, data, supplied, f))
            &&& headers_fine(list, render, data, supplied) && !cookies_fine(
                cookies,
                render,
                data,
                supplied,
            ) ==> (head matches Err(f) && (if wanting(render, cookies->Some_0@, supplied) {
                f == Fault::Unrendered(cookies->Some_0@)
            } else {
                f == Fault::BadCookie
            }))
        }),
{
    lemma_listed(headers);
    let list = listed(headers);
    lemma_headers_from(list, render, data, supplied, Seq::empty());
    if !headers_fine(list, render, data, supplied) {
        let m = choose|m: int|
            0 <= m < list.len() && !header_fine(#[trigger] list[m], render, data, supplied);
        let n = lemma_first_bad(list, render, data, supplied, m);
        law_first_header_fault_decides(list, render, data, supplied, n);
    }
    if let Some(c) = cookies {
        law_templates_come_out(render, c@, data, supplied);
        if let Some(text) = filled_if(render, c@, data, supplied) {
            assert(sent_as(render, c@, data, supplied, text));
        }
    }
}

/// What a configured header value of a setup step is sent as: its own bytes where they are not
/// visible text or where that cannot be rendered, else those of its rendering.
pub open spec fn setup_carries(
    bytes: Seq<u8>,
    value: Seq<char>,
    data: Value,
    supplied: Seq<Rendering>,
) -> bool {
    let own = encode_utf8(value);
    match visible_text(own) {
        None => bytes == own,
        Some(t) => if plain_template(t) {
            match rendered(t, data) {
                None => bytes == own,
                Some(x) => is_header_value(x) && bytes == encode_utf8(x),
            }
        } else {
            exists|i: int| #[trigger]
                first_supplied(supplied, t, i) && (match supplied[i].text {
                    None => bytes == own,
                    Some(x) => is_header_value(x@) && bytes == encode_utf8(x@),
                })
        },
    }
}

proof fn lemma_setup_carries(value: Seq<char>, data: Value, supplied: Seq<Rendering>)
    ensures
        forall|bytes: Seq<u8>|
            rendered_value(encode_utf8(value), data, supplied) == Ok::<Seq<u8>, Fault>(bytes)
                <==> #[trigger] setup_carries(bytes, value, data, supplied),
{
    let own = encode_utf8(value);
    if let Some(t) = visible_text(own) {
        lemma_supplied(supplied, t);
        assert forall|bytes: Seq<u8>|
            rendered_value(own, data, supplied) == Ok::<Seq<u8>, Fault>(bytes)
                <==> #[trigger] setup_carries(bytes, value, data, supplied) by {
            if !plain_template(t) {
                if rendered_value(own, data, supplied) == Ok::<Seq<u8>, Fault>(bytes) {
                    let i = choose|i: int| first_supplied(supplied, t, i);
                    assert(first_supplied(supplied, t, i));
                    assert(rendering(t, data, supplied) == Some(opt_view(supplied[i].text)));
                }
                if setup_carries(bytes, value, data, supplied) {
                    let i = choose|i: int| #[trigger]
                        first_supplied(supplied, t, i) && (match supplied[i].text {
                            None => bytes == own,
                            Some(x) => is_header_value(x@) && bytes == encode_utf8(x@),
                        });
                    assert(rendering(t, data, supplied) == Some(opt_view(supplied[i].text)));
                }
            }
        }
    }
}

/// The request of a setup step, whatever else the step holds: its method in upper case, its URL
/// as it is; under each name the values that are listed for it, in their order, each filled in,
/// and under `cookie` the cookies alone where there are any; its JSON body and its form, both
/// filled in.
pub proof fn law_setup_request_carries(
    option: SetupApiEndpoint,
    data: Value,
    supplied: Seq<Rendering>,
    plan: PlanView,
    name: Seq<char>,
)
    requires
        setup_plan(option, data, supplied, Ok::<PlanView, Fault>(plan)),
    ensures
        ({
            let given = values_under(listed(option.headers), name);
            let own = name == "cookie"@ && option.cookies is Some;
            &&& plan.method == uppercased(option.method@)
            &&& plan.url == option.url@
            &&& !own ==> (plan.headers.contains_key(name) <==> given.len() > 0)
            &&& !own && given.len() > 0 ==> plan.headers[name].len() == given.len()
            &&& forall|i: int|
                !own && 0 <= i < given.len() ==> setup_carries(
                    #[trigger] plan.headers[name][i],
                    given[i],
                    data,
                    supplied,
                )
            &&& own ==> plan.headers.contains_key(name) && plan.headers[name].len() == 1
                && setup_carries(
                plan.headers[name][0],
                option.cookies->Some_0@,
                data,
                supplied,
            )
            &&& json_sent(option.json, true, data, supplied, plan.json)
            &&& form_sent(option.form_data, true, data, supplied, plan.form)
        }),
{
    lemma_head(option.headers, option.cookies, false, data, supplied, name);
    lemma_json(option.json, true, data, supplied);
    lemma_form(option.form_data, true, data, supplied);
    let raw = head_from(
        opt_pairs_view(option.headers),
        opt_view(option.cookies),
        false,
        data,
        supplied,
    )->Ok_0;
    let given = values_under(listed(option.headers), name);
    let own = name == "cookie"@ && option.cookies is Some;
    assert forall|i: int| !own && 0 <= i < given.len() implies setup_carries(
        #[trigger] plan.headers[name][i],
        given[i],
        data,
        supplied,
    ) by {
        assert(carries(raw[name][i], false, given[i], data, supplied));
        assert(raw[name][i] == encode_utf8(given[i]));
        lemma_setup_carries(given[i], data, supplied);
        assert(rendered_value(raw[name][i], data, supplied) is Ok);
    }
    if own {
        let c = option.cookies->Some_0@;
        assert(raw[name][0] == encode_utf8(c));
        lemma_setup_carries(c, data, supplied);
        assert(rendered_value(raw[name][0], data, supplied) is Ok);
    }
}

/// A configured header value of a setup step can be filled in.
pub open spec fn setup_value_fine(value: Seq<char>, data: Value, supplied: Seq<Rendering>) -> bool {
    exists|bytes: Seq<u8>| #[trigger] setup_carries(bytes, value, data, supplied)
}

/// Every header value that a setup step sends, and its cookies, can be filled in. A listed cookie
/// is not sent where the step has cookies of its own.
pub open spec fn setup_values_fine(
    option: SetupApiEndpoint,
    data: Value,
    supplied: Seq<Rendering>,
) -> bool {
    let list = listed(option.headers);
    &&& forall|i: int|
        0 <= i < list.len() && !(option.cookies is Some && lowered(list[i].0) == "cookie"@)
            ==> setup_value_fine((#[trigger] list[i]).1, data, supplied)
    &&& option.cookies matches Some(c) ==> setup_value_fine(c@, data, supplied)
}

/// A listed value is among those of its name.
proof fn lemma_value_is_under(list: Seq<(Seq<char>, Seq<char>)>, i: int) -> (k: int)
    requires
        0 <= i < list.len(),
    ensures
        0 <= k < values_under(list, lowered(list[i].0)).len(),
        values_under(list, lowered(list[i].0))[k] == list[i].1,
    decreases list.len(),
{
    let name = lowered(list[i].0);
    if i == list.len() - 1 {
        values_under(list, name).len() - 1
    } else {
        assert(list.drop_last()[i] == list[i]);
        lemma_value_is_under(list.drop_last(), i)
    }
}

/// A value under a name is listed for it.
proof fn lemma_under_is_listed(list: Seq<(Seq<char>, Seq<char>)>, name: Seq<char>, k: int) -> (i:
    int)
    requires
        0 <= k < values_under(list, name).len(),
    ensures
        0 <= i < list.len(),
        lowered(list[i].0) == name,
        list[i].1 == values_under(list, name)[k],
    decreases list.len(),
{
    let fewer = values_under(list.drop_last(), name);
    if k < fewer.len() {
        let i = lemma_under_is_listed(list.drop_last(), name, k);
        assert(list.drop_last()[i] == list[i]);
        i
    } else {
        list.len() - 1
    }
}

proof fn lemma_setup_values(option: SetupApiEndpoint, data: Value, supplied: Seq<Rendering>)
    requires
        headers_fine(listed(option.headers), false, data, supplied),
        cookies_fine(option.cookies, false, data, supplied),
    ensures
        values_fine(
            head_from(
                opt_pairs_view(option.headers),
                opt_view(option.cookies),
                false,
                data,
                supplied,
            )->Ok_0,
            data,
            supplied,
        ) <==> setup_values_fine(option, data, supplied),
{
    let list = listed(option.headers);
    lemma_head(option.headers, option.cookies, false, data, supplied, Seq::empty());
    let raw = head_from(
        opt_pairs_view(option.headers),
        opt_view(option.cookies),
        false,
        data,
        supplied,
    )->Ok_0;
    if values_fine(raw, data, supplied) {
        assert forall|i: int|
            0 <= i < list.len() && !(option.cookies is Some && lowered(list[i].0)
                == "cookie"@) implies setup_value_fine((#[trigger] list[i]).1, data, supplied) by {
            let name = lowered(list[i].0);
            lemma_head(option.headers, option.cookies, false, data, supplied, name);
            let k = lemma_value_is_under(list, i);
            assert(carries(raw[name][k], false, list[i].1, data, supplied));
            lemma_setup_carries(list[i].1, data, supplied);
            let out = rendered_value(raw[name][k], data, supplied);
            assert(out is Ok);
            assert(setup_carries(out->Ok_0, list[i].1, data, supplied));
        }
        if let Some(c) = option.cookies {
            let name = "cookie"@;
            lemma_head(option.headers, option.cookies, false, data, supplied, name);
            lemma_setup_carries(c@, data, supplied);
            let out = rendered_value(raw[name][0], data, supplied);
            assert(out is Ok);
            assert(setup_carries(out->Ok_0, c@, data, supplied));
        }
    }
    if setup_values_fine(option, data, supplied) {
        assert forall|name: Seq<char>, k: int|
            raw.contains_key(name) && 0 <= k < raw[name].len() implies rendered_value(
            #[trigger] raw[name][k],
            data,
            supplied,
        ) is Ok by {
            lemma_head(option.headers, option.cookies, false, data, supplied, name);
            if name == "cookie"@ && option.cookies is Some {
                let c = option.cookies->Some_0@;
                lemma_setup_carries(c, data, supplied);
                let bytes = choose|bytes: Seq<u8>| #[trigger] setup_carries(bytes, c, data, supplied);
                assert(setup_carries(bytes, c, data, supplied));
            } else {
                let i = lemma_under_is_listed(list, name, k);
                let value = list[i].1;
                assert(setup_value_fine(list[i].1, data, supplied));
                assert(carries(raw[name][k], false, value, data, supplied));
                lemma_setup_carries(value, data, supplied);
                let bytes = choose|bytes: Seq<u8>| #[trigger]
                    setup_carries(bytes, value, data, supplied);
                assert(setup_carries(bytes, value, data, supplied));
            }
        }
    }
}

/// The request of a setup step can be made exactly where its method is a token, each of its
/// headers and its cookies can be put into a request and filled in, its JSON text comes out as
/// JSON, and no rendering that its form needs is wanting. A method that is no token is told before
/// anything else, then what is wrong with headers and cookies, then with JSON, then with the form.
pub proof fn law_setup_request_can_be_made(
    option: SetupApiEndpoint,
    data: Value,
    supplied: Seq<Rendering>,
    outcome: Result<PlanView, Fault>,
)
    requires
        setup_plan(option, data, supplied, outcome),
    ensures
        ({
            let token = is_token(uppercased(option.method@));
            let head = headers_fine(listed(option.headers), false, data, supplied) && cookies_fine(
                option.cookies,
                false,
                data,
                supplied,
            );
            let values = head && setup_values_fine(option, data, supplied);
            let json = json_fine(option.json, true, data, supplied);
            let form = form_fine(option.form_data, true, supplied);
            &&& outcome is Ok <==> token && values && json && form
            &&& !token <==> outcome == Err::<PlanView, Fault>(Fault::BadMethod)
            &&& token && !head ==> (outcome matches Err(f) && (f is BadHeaderName
                || f is BadHeaderValue || f is BadCookie))
            &&& token && head && !values ==> (outcome matches Err(f) && (f is BadHeaderValue
                || f is Unrendered))
            &&& token && values && !json ==> (outcome matches Err(f) && (f is BadJson
                || f is Unrendered))
            &&& token && values && json && !form ==> (outcome matches Err(f) && f is Unrendered)
            &&& outcome matches Err(Fault::BadJson(e, text)) ==> (option.json matches Some(v)
                && comes_out(json_text(v), data, supplied, text) && (json_from_text(
                text,
            ) matches Err(x) && e == json_error_debug(x)))
        }),
{
    lemma_head(option.headers, option.cookies, false, data, supplied, Seq::empty());
    lemma_head_fault(option.headers, option.cookies, false, data, supplied);
    lemma_json(option.json, true, data, supplied);
    lemma_form(option.form_data, true, data, supplied);
    let list = listed(option.headers);
    if headers_fine(list, false, data, supplied) && cookies_fine(
        option.cookies,
        false,
        data,
        supplied,
    ) {
        lemma_setup_values(option, data, supplied);
    }
}

} // verus!
