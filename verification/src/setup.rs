//! Setup: the requests that are made first, to extract the values that templates are filled in
//! from.

use serde_json::Value;
use vstd::prelude::*;
use vstd::utf8::{decode_utf8, valid_utf8};

use crate::extract_map::ExtractMap;
use crate::json::{
    json_error_debug, json_from_bytes, json_object, parse_bytes, parse_error_debug,
};
use crate::jsonpath::{
    law_selection_is_the_evaluation, misses, select, selection, selects, Selection,
};
use crate::models::{JsonpathExtract, SetupApiEndpoint};
use crate::request::{
    fault_message, opt_pairs_view, overfull, prepare_setup, setup_plan, Fault, PlanView,
    RequestError, RequestPlan,
};
use crate::template::Rendering;
use crate::text::{
    ascii_only, ascii_raised, debug_text, joined, quoted, text_from_bytes, uppercased, utf8_error,
    utf8_error_message, utf8_error_text,
};

verus! {

/// Why setup failed.
pub enum SetupError {
    /// A request could not be made.
    Request(RequestError),
    /// A request could not be sent: the debug form of the client's error.
    NotSent(String),
    /// A response could not be read: the debug form of the client's error.
    NotRead(String),
    /// A response is no JSON: the parser's error, and the response.
    BadBody(String, String),
    /// A path selects nothing.
    NoMatch,
    /// A path selects more than one value.
    ManyMatches,
    /// A key has a value already.
    Conflict(String),
    /// A path cannot be evaluated: the debug form of its error.
    BadPath(String),
    /// The evaluation of this path has to be supplied.
    Unselected(String),
}

/// What a setup error says.
pub enum SetupFault {
    Request(Fault),
    NotSent(Seq<char>),
    NotRead(Seq<char>),
    BadBody(Seq<char>, Seq<char>),
    NoMatch,
    ManyMatches,
    Conflict(Seq<char>),
    BadPath(Seq<char>),
    Unselected(Seq<char>),
}

impl View for SetupError {
    type V = SetupFault;

    open spec fn view(&self) -> SetupFault {
        match self {
            SetupError::Request(e) => SetupFault::Request(e@),
            SetupError::NotSent(t) => SetupFault::NotSent(t@),
            SetupError::NotRead(t) => SetupFault::NotRead(t@),
            SetupError::BadBody(e, t) => SetupFault::BadBody(e@, t@),
            SetupError::NoMatch => SetupFault::NoMatch,
            SetupError::ManyMatches => SetupFault::ManyMatches,
            SetupError::Conflict(k) => SetupFault::Conflict(k@),
            SetupError::BadPath(t) => SetupFault::BadPath(t@),
            SetupError::Unselected(p) => SetupFault::Unselected(p@),
        }
    }
}

/// What a setup fault reads as.
pub open spec fn setup_message(fault: SetupFault) -> Seq<char> {
    match fault {
        SetupFault::Request(f) => fault_message(f, ","@),
        SetupFault::NotSent(t) => "初始化失败:"@ + t,
        SetupFault::NotRead(t) => "获取响应流失败:"@ + t,
        SetupFault::BadBody(e, t) => "转换json失败:"@ + e + ", 原始json: "@ + quoted(t),
        SetupFault::NoMatch => "初始化失败::jsonpath没有匹配到任何值"@,
        SetupFault::ManyMatches => "初始化失败::jsonpath匹配的不是唯一值"@,
        SetupFault::Conflict(k) => "初始化失败::key "@ + quoted(k) + "冲突"@,
        SetupFault::BadPath(t) => "jsonpath提取数据失败::"@ + t,
        SetupFault::Unselected(p) => p,
    }
}

impl SetupError {
    /// What the error reads as.
    pub fn message(&self) -> (r: String)
        ensures
            r@ == setup_message(self@),
    {
        match self {
            SetupError::Request(e) => e.message_with(","),
            SetupError::NotSent(t) => joined("初始化失败:", t.as_str()),
            SetupError::NotRead(t) => joined("获取响应流失败:", t.as_str()),
            SetupError::BadBody(e, t) => {
                let head = joined("转换json失败:", e.as_str());
                let label = joined(head.as_str(), ", 原始json: ");
                joined(label.as_str(), debug_text(t.as_str()).as_str())
            },
            SetupError::NoMatch => "初始化失败::jsonpath没有匹配到任何值".to_owned(),
            SetupError::ManyMatches => "初始化失败::jsonpath匹配的不是唯一值".to_owned(),
            SetupError::Conflict(k) => {
                let head = joined("初始化失败::key ", debug_text(k.as_str()).as_str());
                joined(head.as_str(), "冲突")
            },
            SetupError::BadPath(t) => joined("jsonpath提取数据失败::", t.as_str()),
            SetupError::Unselected(p) => p.clone(),
        }
    }
}

/// A response as text; where it is no text, what is wrong with it.
pub open spec fn body_text(body: Seq<u8>) -> Seq<char> {
    if valid_utf8(body) {
        decode_utf8(body)
    } else {
        utf8_error_message(utf8_error(body))
    }
}

/// The extracted values with one more from a response.
pub open spec fn with_extract(
    extracted: Map<Seq<char>, Value>,
    extract: JsonpathExtract,
    body: Seq<u8>,
    supplied: Seq<Selection>,
) -> Result<Map<Seq<char>, Value>, SetupFault> {
    match json_from_bytes(body) {
        Err(e) => Err(SetupFault::BadBody(json_error_debug(e), body_text(body))),
        Ok(doc) => match selection(doc, extract.jsonpath@, supplied) {
            None => Err(SetupFault::Unselected(extract.jsonpath@)),
            Some(Err(text)) => Err(SetupFault::BadPath(text)),
            Some(Ok(values)) => if values.len() == 0 {
                Err(SetupFault::NoMatch)
            } else if values.len() > 1 {
                Err(SetupFault::ManyMatches)
            } else if extracted.contains_key(extract.key@) {
                Err(SetupFault::Conflict(extract.key@))
            } else {
                Ok(extracted.insert(extract.key@, values[0]))
            },
        },
    }
}

/// The extracted values with all those that a response gives.
pub open spec fn with_extracts(
    extracted: Map<Seq<char>, Value>,
    extracts: Seq<JsonpathExtract>,
    body: Seq<u8>,
    supplied: Seq<Selection>,
) -> Result<Map<Seq<char>, Value>, SetupFault>
    decreases extracts.len(),
{
    if extracts.len() == 0 {
        Ok(extracted)
    } else {
        match with_extracts(extracted, extracts.drop_last(), body, supplied) {
            Err(f) => Err(f),
            Ok(m) => with_extract(m, extracts.last(), body, supplied),
        }
    }
}

/// What a setup step extracts.
pub open spec fn step_outcome(
    extracted: Map<Seq<char>, Value>,
    option: SetupApiEndpoint,
    body: Seq<u8>,
    supplied: Seq<Selection>,
) -> Result<Map<Seq<char>, Value>, SetupFault> {
    match option.jsonpath_extract {
        None => Ok(extracted),
        Some(extracts) => with_extracts(extracted, extracts@, body, supplied),
    }
}

proof fn lemma_extracts_stuck(
    extracted: Map<Seq<char>, Value>,
    extracts: Seq<JsonpathExtract>,
    n: int,
    body: Seq<u8>,
    supplied: Seq<Selection>,
)
    requires
        0 <= n <= extracts.len(),
        with_extracts(extracted, extracts.take(n), body, supplied) is Err,
    ensures
        with_extracts(extracted, extracts, body, supplied) == with_extracts(
            extracted,
            extracts.take(n),
            body,
            supplied,
        ),
    decreases extracts.len(),
{
    if n == extracts.len() {
        assert(extracts.take(n) == extracts);
    } else {
        assert(extracts.drop_last().take(n) == extracts.take(n));
        lemma_extracts_stuck(extracted, extracts.drop_last(), n, body, supplied);
    }
}

/// Extracts one value from a response.
fn extract_one(
    extracted: &mut ExtractMap,
    extract: &JsonpathExtract,
    body: &Vec<u8>,
    supplied: &Vec<Selection>,
) -> (r: Result<(), SetupError>)
    ensures
        match r {
            Ok(_) => with_extract(old(extracted)@, *extract, body@, supplied@) == Ok::<
                Map<Seq<char>, Value>,
                SetupFault,
            >(final(extracted)@),
            Err(e) => with_extract(old(extracted)@, *extract, body@, supplied@) == Err::<
                Map<Seq<char>, Value>,
                SetupFault,
            >(e@),
        },
{
    let doc = match parse_bytes(body) {
        Ok(doc) => doc,
        Err(e) => {
            let text = match text_from_bytes(body.clone()) {
                Ok(text) => text,
                Err(u) => utf8_error_text(&u),
            };
            return Err(SetupError::BadBody(parse_error_debug(&e), text));
        },
    };
    match select(&doc, extract.jsonpath.as_str(), supplied) {
        None => Err(SetupError::Unselected(extract.jsonpath.clone())),
        Some(Err(text)) => Err(SetupError::BadPath(text)),
        Some(Ok(values)) => {
            if values.len() == 0 {
                return Err(SetupError::NoMatch);
            }
            if values.len() > 1 {
                return Err(SetupError::ManyMatches);
            }
            if extracted.contains_key(extract.key.as_str()) {
                return Err(SetupError::Conflict(extract.key.clone()));
            }
            extracted.insert(extract.key.clone(), values[0].clone());
            Ok(())
        },
    }
}

/// A setup under way: its steps, which of them is next, and what was extracted so far.
pub struct SetupRun {
    options: Vec<SetupApiEndpoint>,
    position: usize,
    extracted: ExtractMap,
}

/// What a setup under way says.
pub struct SetupView {
    pub options: Seq<SetupApiEndpoint>,
    pub position: int,
    pub extracted: Map<Seq<char>, Value>,
}

/// What a setup asks for next.
pub enum SetupAction {
    /// Send this request, and hand the response back.
    Send(RequestPlan),
    /// Nothing more: these are the extracted values, `None` where there are none.
    Finish(Option<ExtractMap>),
    /// The setup has failed.
    Fail(SetupError),
}

impl View for SetupRun {
    type V = SetupView;

    closed spec fn view(&self) -> SetupView {
        SetupView {
            options: self.options@,
            position: self.position as int,
            extracted: self.extracted@,
        }
    }
}

impl SetupView {
    /// A step is left.
    pub open spec fn pending(self) -> bool {
        0 <= self.position < self.options.len()
    }
}

impl SetupRun {
    /// The next step is one of the steps, or there is none left.
    #[verifier::type_invariant]
    spec fn inv(self) -> bool {
        self.position <= self.options.len()
    }

    /// A setup at its first step, with values extracted before it.
    pub fn new(options: Vec<SetupApiEndpoint>, extracted: &ExtractMap) -> (r: Self)
        ensures
            r@ == (SetupView { options: options@, position: 0, extracted: extracted@ }),
    {
        SetupRun { options, position: 0, extracted: extracted.copy() }
    }

    /// What to do next: the request of the next step, or the end.
    pub fn next(&self, supplied: &Vec<Rendering>) -> (r: SetupAction)
        ensures
            self@.pending() ==> match r {
                SetupAction::Send(plan) => setup_plan(
                    self@.options[self@.position],
                    json_object(self@.extracted),
                    supplied@,
                    Ok::<PlanView, Fault>(plan@),
                ),
                SetupAction::Fail(SetupError::Request(RequestError::TooManyHeaders)) => overfull(
                    opt_pairs_view(self@.options[self@.position].headers),
                ),
                SetupAction::Fail(SetupError::Request(e)) => setup_plan(
                    self@.options[self@.position],
                    json_object(self@.extracted),
                    supplied@,
                    Err::<PlanView, Fault>(e@),
                ),
                _ => false,
            },
            self@.pending() ==> {
                let method = self@.options[self@.position].method@;
                ascii_only(method) ==> uppercased(method) == ascii_raised(method)
            },
            !self@.pending() ==> match r {
                SetupAction::Finish(None) => self@.extracted == Map::<Seq<char>, Value>::empty(),
                SetupAction::Finish(Some(m)) => m@ == self@.extracted && self@.extracted != Map::<
                    Seq<char>,
                    Value,
                >::empty(),
                _ => false,
            },
    {
        proof {
            use_type_invariant(self);
        }
        if self.position < self.options.len() {
            match prepare_setup(&self.options[self.position], &self.extracted, supplied) {
                Ok(plan) => SetupAction::Send(plan),
                Err(e) => SetupAction::Fail(SetupError::Request(e)),
            }
        } else if self.extracted.is_empty() {
            SetupAction::Finish(None)
        } else {
            SetupAction::Finish(Some(self.extracted.copy()))
        }
    }

    /// What was extracted so far.
    pub fn extracted(&self) -> (r: &ExtractMap)
        ensures
            r@ == self@.extracted,
    {
        &self.extracted
    }

    /// Tells whether the body of the response to the next step has to be read.
    pub fn wants_body(&self) -> (r: bool)
        requires
            self@.pending(),
        ensures
            r == (self@.options[self@.position].jsonpath_extract is Some),
    {
        match self.options[self.position].jsonpath_extract {
            Some(_) => true,
            None => false,
        }
    }

    /// Takes the response to the next step: what it gives is extracted, and the step is done. On
    /// an error nothing changes.
    pub fn answered(&mut self, body: &Vec<u8>, supplied: &Vec<Selection>) -> (r: Result<
        (),
        SetupError,
    >)
        requires
            old(self)@.pending(),
        ensures
            ({
                let before = old(self)@;
                let after = final(self)@;
                let outcome = step_outcome(
                    before.extracted,
                    before.options[before.position],
                    body@,
                    supplied@,
                );
                match r {
                    Ok(_) => outcome == Ok::<Map<Seq<char>, Value>, SetupFault>(after.extracted)
                        && after.options == before.options && after.position == before.position + 1,
                    Err(e) => outcome == Err::<Map<Seq<char>, Value>, SetupFault>(e@) && after
                        == before,
                }
            }),
    {
        let mut extracted = self.extracted.copy();
        match &self.options[self.position].jsonpath_extract {
            None => {},
            Some(extracts) => {
                let ghost all = extracts@;
                let mut i: usize = 0;
                assert(all.take(0).len() == 0);
                while i < extracts.len()
                    invariant
                        0 <= i <= extracts.len(),
                        all == extracts@,
                        self@ == old(self)@,
                        self@.pending(),
                        self@.options[self@.position].jsonpath_extract == Some(*extracts),
                        with_extracts(self@.extracted, all.take(i as int), body@, supplied@) == Ok::<
                            Map<Seq<char>, Value>,
                            SetupFault,
                        >(extracted@),
                    decreases extracts.len() - i,
                {
                    proof {
                        assert(all.take(i + 1).drop_last() == all.take(i as int));
                        assert(all.take(i + 1).last() == all[i as int]);
                    }
                    match extract_one(&mut extracted, &extracts[i], body, supplied) {
                        Ok(_) => {},
                        Err(e) => {
                            proof {
                                lemma_extracts_stuck(
                                    self@.extracted,
                                    all,
                                    i + 1,
                                    body@,
                                    supplied@,
                                );
                            }
                            return Err(e);
                        },
                    }
                    i = i + 1;
                }
                assert(all.take(i as int) == all);
            },
        }
        assert(self.position < self.options.len());
        self.extracted = extracted;
        self.position = self.position + 1;
        Ok(())
    }
}

/// Extraction only adds: every value that was there before stays, each extract adds its own key,
/// and no key is given a value twice.
pub proof fn law_extraction_adds(
    extracted: Map<Seq<char>, Value>,
    extracts: Seq<JsonpathExtract>,
    body: Seq<u8>,
    supplied: Seq<Selection>,
)
    requires
        with_extracts(extracted, extracts, body, supplied) is Ok,
    ensures
        ({
            let after = with_extracts(extracted, extracts, body, supplied)->Ok_0;
            &&& forall|k: Seq<char>| #[trigger]
                extracted.contains_key(k) ==> after.contains_key(k) && after[k] == extracted[k]
            &&& forall|i: int|
                0 <= i < extracts.len() ==> after.contains_key(#[trigger] extracts[i].key@)
                    && !extracted.contains_key(extracts[i].key@)
            &&& forall|k: Seq<char>| #[trigger]
                after.contains_key(k) ==> extracted.contains_key(k) || exists|i: int|
                    0 <= i < extracts.len() && #[trigger] extracts[i].key@ == k
            &&& forall|i: int, j: int|
                0 <= i < j < extracts.len() ==> #[trigger] extracts[i].key@
                    != #[trigger] extracts[j].key@
        }),
    decreases extracts.len(),
{
    if extracts.len() > 0 {
        let fewer = extracts.drop_last();
        law_extraction_adds(extracted, fewer, body, supplied);
        let before = with_extracts(extracted, fewer, body, supplied)->Ok_0;
        let after = with_extracts(extracted, extracts, body, supplied)->Ok_0;
        let last = extracts.last();
        assert(with_extract(before, last, body, supplied) == Ok::<
            Map<Seq<char>, Value>,
            SetupFault,
        >(after));
        assert(!before.contains_key(last.key@));
        assert forall|i: int| 0 <= i < extracts.len() implies after.contains_key(
            #[trigger] extracts[i].key@,
        ) && !extracted.contains_key(extracts[i].key@) by {
            if i < fewer.len() {
                assert(fewer[i].key@ == extracts[i].key@);
            }
        }
        assert forall|k: Seq<char>| #[trigger] after.contains_key(k) implies extracted.contains_key(
            k,
        ) || exists|i: int| 0 <= i < extracts.len() && #[trigger] extracts[i].key@ == k by {
            if k == last.key@ {
                assert(extracts[extracts.len() - 1].key@ == k);
            } else if !extracted.contains_key(k) {
                assert(before.contains_key(k));
                let i = choose|i: int| 0 <= i < fewer.len() && #[trigger] fewer[i].key@ == k;
                assert(extracts[i].key@ == k);
            }
        }
        assert forall|i: int, j: int| 0 <= i < j < extracts.len() implies #[trigger] extracts[i].key@
            != #[trigger] extracts[j].key@ by {
            assert(fewer[i].key@ == extracts[i].key@);
            if j < fewer.len() {
                assert(fewer[j].key@ == extracts[j].key@);
            }
        }
    }
}

/// A key that has a value already is never given another: the extract fails, whatever the
/// response holds.
pub proof fn law_key_conflict_fails(
    extracted: Map<Seq<char>, Value>,
    extracts: Seq<JsonpathExtract>,
    body: Seq<u8>,
    supplied: Seq<Selection>,
    i: int,
)
    requires
        0 <= i < extracts.len(),
        extracted.contains_key(extracts[i].key@),
    ensures
        with_extracts(extracted, extracts, body, supplied) is Err,
{
    if with_extracts(extracted, extracts, body, supplied) is Ok {
        law_extraction_adds(extracted, extracts, body, supplied);
        assert(!extracted.contains_key(extracts[i].key@));
    }
}

/// What a whole setup extracts: each step from its own response, after those before it.
pub open spec fn setup_outcome(
    extracted: Map<Seq<char>, Value>,
    options: Seq<SetupApiEndpoint>,
    bodies: Seq<Seq<u8>>,
    supplied: Seq<Seq<Selection>>,
) -> Result<Map<Seq<char>, Value>, SetupFault>
    decreases options.len(),
{
    if options.len() == 0 {
        Ok(extracted)
    } else {
        match setup_outcome(
            extracted,
            options.drop_last(),
            bodies.drop_last(),
            supplied.drop_last(),
        ) {
            Err(f) => Err(f),
            Ok(m) => step_outcome(m, options.last(), bodies.last(), supplied.last()),
        }
    }
}

/// The keys that a step extracts values for.
pub open spec fn step_keys(option: SetupApiEndpoint) -> Seq<Seq<char>> {
    match option.jsonpath_extract {
        None => Seq::empty(),
        Some(extracts) => Seq::new(extracts@.len(), |i: int| extracts@[i].key@),
    }
}

/// The keys that a whole setup extracts values for, step by step.
pub open spec fn setup_keys(options: Seq<SetupApiEndpoint>) -> Seq<Seq<char>>
    decreases options.len(),
{
    if options.len() == 0 {
        Seq::empty()
    } else {
        setup_keys(options.drop_last()) + step_keys(options.last())
    }
}

/// A step that succeeds gives a value to each of its keys, which are apart and had none before,
/// and keeps every other value.
pub proof fn law_step_adds_its_keys(
    extracted: Map<Seq<char>, Value>,
    option: SetupApiEndpoint,
    body: Seq<u8>,
    supplied: Seq<Selection>,
)
    requires
        step_outcome(extracted, option, body, supplied) is Ok,
    ensures
        ({
            let after = step_outcome(extracted, option, body, supplied)->Ok_0;
            let keys = step_keys(option);
            &&& forall|k: Seq<char>| #[trigger]
                after.contains_key(k) <==> extracted.contains_key(k) || keys.contains(k)
            &&& keys.no_duplicates()
            &&& forall|i: int| 0 <= i < keys.len() ==> !extracted.contains_key(#[trigger] keys[i])
            &&& forall|k: Seq<char>| #[trigger] extracted.contains_key(k) ==> after[k] == extracted[k]
        }),
{
    let after = step_outcome(extracted, option, body, supplied)->Ok_0;
    let keys = step_keys(option);
    if let Some(extracts) = option.jsonpath_extract {
        law_extraction_adds(extracted, extracts@, body, supplied);
        assert forall|k: Seq<char>| #[trigger] after.contains_key(k) <==> extracted.contains_key(k)
            || keys.contains(k) by {
            if keys.contains(k) {
                let i = choose|i: int| 0 <= i < keys.len() && keys[i] == k;
                assert(extracts@[i].key@ == k);
            }
            if after.contains_key(k) && !extracted.contains_key(k) {
                let i = choose|i: int| 0 <= i < extracts@.len() && #[trigger] extracts@[i].key@ == k;
                assert(keys[i] == k);
            }
        }
        assert forall|i: int, j: int| 0 <= i < keys.len() && 0 <= j < keys.len() && i
            != j implies keys[i] != keys[j] by {
            assert(extracts@[i].key@ == keys[i]);
            assert(extracts@[j].key@ == keys[j]);
        }
        assert forall|i: int| 0 <= i < keys.len() implies !extracted.contains_key(
            #[trigger] keys[i],
        ) by {
            assert(extracts@[i].key@ == keys[i]);
        }
    }
}

/// A setup that succeeds gives a value to each key of each of its steps. These keys are all apart
/// and had none before it, no other key gets one, and every value that was extracted before it
/// stays.
pub proof fn law_setup_adds_its_keys(
    extracted: Map<Seq<char>, Value>,
    options: Seq<SetupApiEndpoint>,
    bodies: Seq<Seq<u8>>,
    supplied: Seq<Seq<Selection>>,
)
    requires
        setup_outcome(extracted, options, bodies, supplied) is Ok,
    ensures
        ({
            let after = setup_outcome(extracted, options, bodies, supplied)->Ok_0;
            let keys = setup_keys(options);
            &&& forall|k: Seq<char>| #[trigger]
                after.contains_key(k) <==> extracted.contains_key(k) || keys.contains(k)
            &&& keys.no_duplicates()
            &&& forall|i: int| 0 <= i < keys.len() ==> !extracted.contains_key(#[trigger] keys[i])
            &&& forall|k: Seq<char>| #[trigger] extracted.contains_key(k) ==> after[k] == extracted[k]
        }),
    decreases options.len(),
{
    if options.len() > 0 {
        let o = options.drop_last();
        let b = bodies.drop_last();
        let s = supplied.drop_last();
        law_setup_adds_its_keys(extracted, o, b, s);
        let middle = setup_outcome(extracted, o, b, s)->Ok_0;
        let after = setup_outcome(extracted, options, bodies, supplied)->Ok_0;
        law_step_adds_its_keys(middle, options.last(), bodies.last(), supplied.last());
        let first = setup_keys(o);
        let last = step_keys(options.last());
        let keys = setup_keys(options);
        assert forall|k: Seq<char>| #[trigger] keys.contains(k) <==> first.contains(k)
            || last.contains(k) by {
            if first.contains(k) {
                let i = choose|i: int| 0 <= i < first.len() && first[i] == k;
                assert(keys[i] == k);
            }
            if last.contains(k) {
                let i = choose|i: int| 0 <= i < last.len() && last[i] == k;
                assert(keys[first.len() + i] == k);
            }
            if keys.contains(k) {
                let i = choose|i: int| 0 <= i < keys.len() && keys[i] == k;
                if i < first.len() {
                    assert(first[i] == k);
                } else {
                    assert(last[i - first.len()] == k);
                }
            }
        }
        assert forall|k: Seq<char>| #[trigger] after.contains_key(k) <==> extracted.contains_key(k)
            || keys.contains(k) by {
            assert(middle.contains_key(k) <==> extracted.contains_key(k) || first.contains(k));
        }
        assert forall|i: int| 0 <= i < keys.len() implies !extracted.contains_key(
            #[trigger] keys[i],
        ) by {
            if i >= first.len() {
                assert(!middle.contains_key(last[i - first.len()]));
                assert(middle.contains_key(keys[i]) <==> extracted.contains_key(keys[i])
                    || first.contains(keys[i]));
            }
        }
        assert forall|i: int, j: int| 0 <= i < keys.len() && 0 <= j < keys.len() && i
            != j implies keys[i] != keys[j] by {
            if i < j {
                lemma_apart(middle, first, last, i, j);
            } else {
                lemma_apart(middle, first, last, j, i);
            }
        }
        assert forall|k: Seq<char>| #[trigger] extracted.contains_key(k) implies after[k]
            == extracted[k] by {
            assert(middle.contains_key(k) <==> extracted.contains_key(k) || first.contains(k));
        }
    }
}

/// Keys that stand in a map, followed by keys that do not, are apart where each of the two lists
/// is.
proof fn lemma_apart(
    middle: Map<Seq<char>, Value>,
    first: Seq<Seq<char>>,
    last: Seq<Seq<char>>,
    i: int,
    j: int,
)
    requires
        first.no_duplicates(),
        last.no_duplicates(),
        forall|k: Seq<char>| #[trigger] first.contains(k) ==> middle.contains_key(k),
        forall|n: int| 0 <= n < last.len() ==> !middle.contains_key(#[trigger] last[n]),
        0 <= i < first.len() + last.len(),
        0 <= j < first.len() + last.len(),
        i < j,
    ensures
        (first + last)[i] != (first + last)[j],
{
    if i < first.len() && j >= first.len() {
        assert(first.contains(first[i]));
        assert(!middle.contains_key(last[j - first.len()]));
    }
}

/// A setup after responses to its steps were taken, one after the other.
pub open spec fn answered_all(
    v: SetupView,
    bodies: Seq<Seq<u8>>,
    supplied: Seq<Seq<Selection>>,
) -> Result<SetupView, SetupFault>
    decreases bodies.len(),
{
    if bodies.len() == 0 {
        Ok(v)
    } else {
        match answered_all(v, bodies.drop_last(), supplied.drop_last()) {
            Err(f) => Err(f),
            Ok(w) => match step_outcome(
                w.extracted,
                w.options[w.position],
                bodies.last(),
                supplied.last(),
            ) {
                Err(f) => Err(f),
                Ok(m) => Ok(SetupView { extracted: m, position: w.position + 1, ..w }),
            },
        }
    }
}

/// A setup that takes the responses to its first steps, one after the other, extracts what those
/// steps give together, and stands at the step behind them.
pub proof fn law_steps_make_the_outcome(
    extracted: Map<Seq<char>, Value>,
    options: Seq<SetupApiEndpoint>,
    bodies: Seq<Seq<u8>>,
    supplied: Seq<Seq<Selection>>,
)
    requires
        bodies.len() <= options.len(),
        supplied.len() == bodies.len(),
    ensures
        ({
            let start = SetupView { options, position: 0, extracted };
            let first = options.take(bodies.len() as int);
            match setup_outcome(extracted, first, bodies, supplied) {
                Err(f) => answered_all(start, bodies, supplied) == Err::<SetupView, SetupFault>(f),
                Ok(m) => answered_all(start, bodies, supplied) == Ok::<SetupView, SetupFault>(
                    SetupView { options, position: bodies.len() as int, extracted: m },
                ),
            }
        }),
    decreases bodies.len(),
{
    let n = bodies.len() as int;
    if n > 0 {
        law_steps_make_the_outcome(extracted, options, bodies.drop_last(), supplied.drop_last());
        assert(options.take(n).drop_last() == options.take(n - 1));
        assert(options.take(n).last() == options[n - 1]);
    }
}

/// A setup that has taken the responses to its first steps has a step left exactly where those are
/// not all of them.
pub proof fn law_every_step_is_taken(
    extracted: Map<Seq<char>, Value>,
    options: Seq<SetupApiEndpoint>,
    bodies: Seq<Seq<u8>>,
    supplied: Seq<Seq<Selection>>,
)
    requires
        bodies.len() <= options.len(),
        supplied.len() == bodies.len(),
    ensures
        answered_all(SetupView { options, position: 0, extracted }, bodies, supplied) matches Ok(w)
            ==> (w.pending() <==> bodies.len() < options.len()),
{
    law_steps_make_the_outcome(extracted, options, bodies, supplied);
}

/// An extract gives a value: its path selects just that one from the document.
pub open spec fn extracts_value(
    doc: Value,
    extract: JsonpathExtract,
    supplied: Seq<Selection>,
    value: Value,
) -> bool {
    selects(doc, extract.jsonpath@, supplied, seq![value])
}

/// The key of an extract is free: nothing was extracted for it before, and no extract before it
/// has the same key.
pub open spec fn key_free(
    extracted: Map<Seq<char>, Value>,
    extracts: Seq<JsonpathExtract>,
    i: int,
) -> bool {
    &&& !extracted.contains_key(extracts[i].key@)
    &&& forall|j: int| 0 <= j < i ==> (#[trigger] extracts[j]).key@ != extracts[i].key@
}

/// An extract can be made: its path selects just one value, and its key is free.
pub open spec fn extract_fine(
    extracted: Map<Seq<char>, Value>,
    extracts: Seq<JsonpathExtract>,
    i: int,
    doc: Value,
    supplied: Seq<Selection>,
) -> bool {
    key_free(extracted, extracts, i) && exists|value: Value| #[trigger]
        extracts_value(doc, extracts[i], supplied, value)
}

/// What is wrong with an extract that cannot be made. What its path selects is told before what
/// its key is.
pub open spec fn extract_fault(
    extract: JsonpathExtract,
    doc: Value,
    supplied: Seq<Selection>,
    fault: SetupFault,
) -> bool {
    let path = extract.jsonpath@;
    match fault {
        SetupFault::NoMatch => exists|values: Seq<Value>| #[trigger]
            selects(doc, path, supplied, values) && values.len() == 0,
        SetupFault::ManyMatches => exists|values: Seq<Value>| #[trigger]
            selects(doc, path, supplied, values) && values.len() >= 2,
        SetupFault::Conflict(key) => key == extract.key@ && exists|value: Value| #[trigger]
            extracts_value(doc, extract, supplied, value),
        SetupFault::BadPath(reason) => misses(doc, path, supplied, reason),
        SetupFault::Unselected(p) => p == path && !(exists|values: Seq<Value>| #[trigger]
            selects(doc, path, supplied, values)) && !(exists|reason: Seq<char>| #[trigger]
            misses(doc, path, supplied, reason)),
        _ => false,
    }
}

proof fn lemma_one_extract(
    extracted: Map<Seq<char>, Value>,
    extract: JsonpathExtract,
    body: Seq<u8>,
    supplied: Seq<Selection>,
)
    ensures
        json_from_bytes(body) matches Ok(doc) ==> {
            let outcome = with_extract(extracted, extract, body, supplied);
            &&& outcome is Ok <==> !extracted.contains_key(extract.key@) && exists|value: Value| #[trigger]
                extracts_value(doc, extract, supplied, value)
            &&& outcome matches Ok(m) ==> exists|value: Value| #[trigger]
                extracts_value(doc, extract, supplied, value) && m == extracted.insert(
                    extract.key@,
                    value,
                )
            &&& outcome matches Err(f) ==> extract_fault(extract, doc, supplied, f)
        },
{
    if let Ok(doc) = json_from_bytes(body) {
        let path = extract.jsonpath@;
        law_selection_is_the_evaluation(doc, path, supplied);
        match selection(doc, path, supplied) {
            Some(Ok(values)) => {
                assert(selects(doc, path, supplied, values));
                if values.len() == 1 {
                    assert(values == seq![values[0]]);
                    assert(extracts_value(doc, extract, supplied, values[0]));
                }
            },
            Some(Err(reason)) => {
                assert(misses(doc, path, supplied, reason));
            },
            None => {},
        }
        if exists|value: Value| #[trigger] extracts_value(doc, extract, supplied, value) {
            let value = choose|value: Value| #[trigger]
                extracts_value(doc, extract, supplied, value);
            let one = seq![value];
            assert(selects(doc, path, supplied, one));
            assert(selection(doc, path, supplied) == Some(Ok::<Seq<Value>, Seq<char>>(one)));
        }
    }
}

/// Each key of a step that succeeds gets the one value that its path selects from the step's
/// response.
pub proof fn law_keys_get_what_their_paths_select(
    extracted: Map<Seq<char>, Value>,
    extracts: Seq<JsonpathExtract>,
    body: Seq<u8>,
    supplied: Seq<Selection>,
    i: int,
)
    requires
        with_extracts(extracted, extracts, body, supplied) is Ok,
        0 <= i < extracts.len(),
    ensures
        json_from_bytes(body) matches Ok(doc) && extracts_value(
            doc,
            extracts[i],
            supplied,
            with_extracts(extracted, extracts, body, supplied)->Ok_0[extracts[i].key@],
        ),
    decreases extracts.len(),
{
    let fewer = extracts.drop_last();
    let last = extracts.last();
    let before = with_extracts(extracted, fewer, body, supplied)->Ok_0;
    lemma_one_extract(before, last, body, supplied);
    if i < fewer.len() {
        law_keys_get_what_their_paths_select(extracted, fewer, body, supplied, i);
        law_extraction_adds(extracted, extracts, body, supplied);
        assert(fewer[i] == extracts[i]);
        assert(extracts[i].key@ != extracts[extracts.len() - 1].key@);
    }
}

/// A step succeeds exactly where it extracts nothing, or its response is JSON and each of its
/// extracts can be made. A response that is no JSON is told with the parser's error and the
/// response; else the first extract that cannot be made decides what is told.
pub proof fn law_step_succeeds_where_all_can_be_extracted(
    extracted: Map<Seq<char>, Value>,
    extracts: Seq<JsonpathExtract>,
    body: Seq<u8>,
    supplied: Seq<Selection>,
)
    ensures
        ({
            let outcome = with_extracts(extracted, extracts, body, supplied);
            &&& extracts.len() == 0 ==> outcome == Ok::<Map<Seq<char>, Value>, SetupFault>(
                extracted,
            )
            &&& extracts.len() > 0 ==> match json_from_bytes(body) {
                Err(e) => outcome == Err::<Map<Seq<char>, Value>, SetupFault>(
                    SetupFault::BadBody(
                        json_error_debug(e),
                        if valid_utf8(body) {
                            decode_utf8(body)
                        } else {
                            utf8_error_message(utf8_error(body))
                        },
                    ),
                ),
                Ok(doc) => {
                    &&& outcome is Ok <==> forall|i: int|
                        0 <= i < extracts.len() ==> #[trigger] extract_fine(
                            extracted,
                            extracts,
                            i,
                            doc,
                            supplied,
                        )
                    &&& outcome matches Err(f) ==> exists|i: int| #[trigger]
                        fails_first(extracted, extracts, i, doc, supplied) && extract_fault(
                            extracts[i],
                            doc,
                            supplied,
                            f,
                        )
                },
            }
        }),
    decreases extracts.len(),
{
    if extracts.len() > 0 {
        let fewer = extracts.drop_last();
        let last = extracts.last();
        let n = extracts.len() - 1;
        law_step_succeeds_where_all_can_be_extracted(extracted, fewer, body, supplied);
        if let Ok(doc) = json_from_bytes(body) {
            assert forall|i: int| 0 <= i < fewer.len() implies #[trigger] extract_fine(
                extracted,
                extracts,
                i,
                doc,
                supplied,
            ) == extract_fine(extracted, fewer, i, doc, supplied) by {
                lemma_fewer_fine(extracted, extracts, i, doc, supplied);
            }
            match with_extracts(extracted, fewer, body, supplied) {
                Err(f) => {
                    let i = choose|i: int| #[trigger]
                        fails_first(extracted, fewer, i, doc, supplied) && extract_fault(
                            fewer[i],
                            doc,
                            supplied,
                            f,
                        );
                    assert(extract_fine(extracted, extracts, i, doc, supplied) == extract_fine(
                        extracted,
                        fewer,
                        i,
                        doc,
                        supplied,
                    ));
                    assert(fails_first(extracted, extracts, i, doc, supplied)) by {
                        assert forall|j: int| 0 <= j < i implies #[trigger] extract_fine(
                            extracted,
                            extracts,
                            j,
                            doc,
                            supplied,
                        ) by {
                            assert(extract_fine(extracted, fewer, j, doc, supplied));
                        }
                    }
                },
                Ok(m) => {
                    lemma_one_extract(m, last, body, supplied);
                    law_extraction_adds(extracted, fewer, body, supplied);
                    assert(key_free(extracted, extracts, n) <==> !m.contains_key(last.key@)) by {
                        if m.contains_key(last.key@) && !extracted.contains_key(last.key@) {
                            let i = choose|i: int|
                                0 <= i < fewer.len() && #[trigger] fewer[i].key@ == last.key@;
                            assert(extracts[i].key@ == last.key@);
                        }
                        if !m.contains_key(last.key@) {
                            assert forall|j: int| 0 <= j < n implies (#[trigger] extracts[j]).key@
                                != last.key@ by {
                                assert(fewer[j].key@ == extracts[j].key@);
                            }
                        }
                    }
                    assert forall|i: int| 0 <= i < n implies #[trigger] extract_fine(
                        extracted,
                        extracts,
                        i,
                        doc,
                        supplied,
                    ) by {
                        assert(extract_fine(extracted, fewer, i, doc, supplied));
                    }
                    if with_extracts(extracted, extracts, body, supplied) is Err {
                        assert(!extract_fine(extracted, extracts, n, doc, supplied));
                        assert(fails_first(extracted, extracts, n, doc, supplied));
                    }
                    if forall|i: int|
                        0 <= i < extracts.len() ==> #[trigger] extract_fine(
                            extracted,
                            extracts,
                            i,
                            doc,
                            supplied,
                        ) {
                        assert(extract_fine(extracted, extracts, n, doc, supplied));
                    }
                },
            }
        }
    }
}

/// The extract at `i` is the first that cannot be made.
pub open spec fn fails_first(
    extracted: Map<Seq<char>, Value>,
    extracts: Seq<JsonpathExtract>,
    i: int,
    doc: Value,
    supplied: Seq<Selection>,
) -> bool {
    &&& 0 <= i < extracts.len()
    &&& !extract_fine(extracted, extracts, i, doc, supplied)
    &&& forall|j: int|
        0 <= j < i ==> #[trigger] extract_fine(extracted, extracts, j, doc, supplied)
}

proof fn lemma_fewer_fine(
    extracted: Map<Seq<char>, Value>,
    extracts: Seq<JsonpathExtract>,
    i: int,
    doc: Value,
    supplied: Seq<Selection>,
)
    requires
        0 <= i < extracts.len() - 1,
    ensures
        extract_fine(extracted, extracts, i, doc, supplied) == extract_fine(
            extracted,
            extracts.drop_last(),
            i,
            doc,
            supplied,
        ),
{
    let fewer = extracts.drop_last();
    assert(fewer[i] == extracts[i]);
    if key_free(extracted, extracts, i) {
        assert forall|j: int| 0 <= j < i implies (#[trigger] fewer[j]).key@ != fewer[i].key@ by {
            assert(extracts[j].key@ != extracts[i].key@);
        }
    }
    if key_free(extracted, fewer, i) {
        assert forall|j: int| 0 <= j < i implies (#[trigger] extracts[j]).key@
            != extracts[i].key@ by {
            assert(fewer[j].key@ != fewer[i].key@);
        }
    }
}

/// A step that has no extracts takes nothing from its response, whatever that is; another takes
/// what its extracts give, and nothing else decides.
pub proof fn law_step_is_its_extracts(
    extracted: Map<Seq<char>, Value>,
    option: SetupApiEndpoint,
    body: Seq<u8>,
    supplied: Seq<Selection>,
)
    ensures
        option.jsonpath_extract is None ==> step_outcome(extracted, option, body, supplied) == Ok::<
            Map<Seq<char>, Value>,
            SetupFault,
        >(extracted),
        option.jsonpath_extract matches Some(extracts) ==> step_outcome(
            extracted,
            option,
            body,
            supplied,
        ) == with_extracts(extracted, extracts@, body, supplied),
{
}

/// What each fault of a setup reads as.
pub proof fn law_setup_faults_tell_themselves(fault: SetupFault)
    ensures
        match fault {
            SetupFault::Request(f) => setup_message(fault) == fault_message(f, ","@),
            SetupFault::NotSent(t) => setup_message(fault) == "初始化失败:"@ + t,
            SetupFault::NotRead(t) => setup_message(fault) == "获取响应流失败:"@ + t,
            SetupFault::BadBody(e, t) => setup_message(fault) == "转换json失败:"@ + e
                + ", 原始json: "@ + quoted(t),
            SetupFault::NoMatch => setup_message(fault) == "初始化失败::jsonpath没有匹配到任何值"@,
            SetupFault::ManyMatches => setup_message(fault) == "初始化失败::jsonpath匹配的不是唯一值"@,
            SetupFault::Conflict(key) => setup_message(fault) == "初始化失败::key "@ + quoted(key)
                + "冲突"@,
            SetupFault::BadPath(t) => setup_message(fault) == "jsonpath提取数据失败::"@ + t,
            SetupFault::Unselected(path) => setup_message(fault) == path,
        },
{
}

} // verus!
