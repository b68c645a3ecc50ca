//! Workers: what each of the concurrent clients of an endpoint does next.
//!
//! A worker waits for its permit and then makes one request after the other until the time is
//! up. It performs nothing itself: each method takes what has happened and answers with the
//! [`Action`] to perform.

use reqwest::header::{HeaderMap, HeaderValue};
use serde_json::Value;
use vstd::prelude::*;
use vstd::utf8::{decode_utf8, valid_utf8};

use crate::assertion::AssertTask;
use crate::board::{law_marks_add_up, Board, BoardView};
use crate::error_stats::{counted_once, ErrKeyView};
use crate::extract_map::ExtractMap;
use crate::json::json_object;
use crate::latency::{few_samples, starts_rank};
use crate::models::{assertions_clone, assertions_view, ApiEndpoint};
use crate::net::{header_list, headers_len, headers_size};
use crate::request::{
    endpoint_plan, fault_message, opt_pairs_view, overfull, prepare_endpoint, Fault, PlanView,
    RequestError, RequestPlan,
};
use crate::tally::{wrapped, Mark, TallyView, LATENCY_END};
use crate::template::Rendering;
use crate::text::{
    ascii_only, ascii_raised, debug_text, decimal, decimal_text, joined, quoted, text_from_bytes,
    uppercased,
};
use crate::think::{think, think_allowed, Think};

verus! {

/// Where a worker stands.
pub enum Phase {
    /// It has no permit yet.
    Waiting,
    /// It is between two requests.
    Idle,
    /// Its endpoint's setup runs, with these values extracted before.
    Setup(ExtractMap),
    /// Its next request is to be made from these values.
    Prepared(ExtractMap),
    /// Its request is on the way.
    Sending,
    /// A response with this status came; of its body, this much.
    Reading(u16, Vec<u8>),
    /// Its response is judged.
    Judging,
    /// Its response is dealt with, and its results are to be taken.
    Closing,
    /// It has ended.
    Stopped,
}

/// What a phase says.
pub enum PhaseView {
    Waiting,
    Idle,
    Setup(Map<Seq<char>, Value>),
    Prepared(Map<Seq<char>, Value>),
    Sending,
    Reading(u16, Seq<u8>),
    Judging,
    Closing,
    Stopped,
}

impl View for Phase {
    type V = PhaseView;

    open spec fn view(&self) -> PhaseView {
        match self {
            Phase::Waiting => PhaseView::Waiting,
            Phase::Idle => PhaseView::Idle,
            Phase::Setup(m) => PhaseView::Setup(m@),
            Phase::Prepared(m) => PhaseView::Prepared(m@),
            Phase::Sending => PhaseView::Sending,
            Phase::Reading(status, body) => PhaseView::Reading(*status, body@),
            Phase::Judging => PhaseView::Judging,
            Phase::Closing => PhaseView::Closing,
            Phase::Stopped => PhaseView::Stopped,
        }
    }
}

/// What a worker wants done.
pub enum Action {
    /// Tell whether the time is up.
    AskClock,
    /// Run the endpoint's setup with these values.
    RunSetup(ExtractMap),
    /// Wait a second, and then tell whether the time is up.
    Retry,
    /// Have the next request prepared.
    Prepare,
    /// Supply the rendering of this template from these values, and have the request prepared
    /// again.
    Render(String, Value),
    /// Wait as told, and send this request.
    Send(RequestPlan, Think),
    /// Read on in the body of the response.
    ReadBody,
    /// Have this response judged.
    Judge(AssertTask),
    /// Tell how long the run has taken.
    AskElapsed,
    /// Nothing: the time is up.
    Stop,
    /// Nothing: the worker ends with this error.
    Fail(String),
    /// Nothing: the worker breaks off with this message.
    Abort(String),
}

/// A concurrent client of an endpoint.
pub struct Worker {
    index: usize,
    render_template: bool,
    verbose: bool,
    render_form: bool,
    phase: Phase,
}

/// What a worker says.
pub struct WorkerView {
    /// The place of its endpoint on the board.
    pub index: usize,
    /// Headers, cookies and JSON are filled in.
    pub render_template: bool,
    /// Bodies are printed.
    pub verbose: bool,
    /// Forms are filled in.
    pub render_form: bool,
    pub phase: PhaseView,
}

impl View for Worker {
    type V = WorkerView;

    closed spec fn view(&self) -> WorkerView {
        WorkerView {
            index: self.index,
            render_template: self.render_template,
            verbose: self.verbose,
            render_form: self.render_form,
            phase: self.phase@,
        }
    }
}

impl WorkerView {
    /// The worker in another phase.
    pub open spec fn at(self, phase: PhaseView) -> WorkerView {
        WorkerView { phase, ..self }
    }
}

/// A status that counts as an answer rather than as an error.
pub open spec fn is_ok_status(status: u16) -> bool {
    200 <= status <= 208 || status == 226 || 300 <= status <= 305 || status == 307 || status == 308
}

/// Tells whether a status counts as an answer rather than as an error.
pub fn ok_status(status: u16) -> (r: bool)
    ensures
        r == is_ok_status(status),
{
    (200 <= status && status <= 208) || status == 226 || (300 <= status && status <= 305) || status
        == 307 || status == 308
}

/// The status of an error, 0 where it has none.
pub open spec fn code_or_zero(status: Option<u16>) -> u16 {
    match status {
        None => 0,
        Some(code) => code,
    }
}

/// The source of an error, or what is written where it has none.
pub open spec fn source_or(source: Option<String>, none: Seq<char>) -> Seq<char> {
    match source {
        None => none,
        Some(text) => text@,
    }
}

/// The board after a response came: the request counts, a bad status is an error, and the time
/// and the size of the headers count.
pub open spec fn on_answer(
    b: BoardView,
    index: int,
    status: u16,
    millis: u64,
    size: usize,
) -> BoardView {
    let requested = b.marked(index, Mark::Requested);
    let checked = if is_ok_status(status) {
        requested
    } else {
        requested.marked(index, Mark::Failed)
    };
    checked.marked(index, Mark::Timed(millis)).marked(index, Mark::Received(size))
}

/// The board after a request could not be sent: the request counts, as an error.
pub open spec fn on_not_sent(b: BoardView, index: int, key: ErrKeyView) -> BoardView {
    b.marked(index, Mark::Requested).marked(index, Mark::Failed).with_http_error(key)
}

/// The board after a response broke off: an error.
pub open spec fn on_not_read(b: BoardView, index: int, key: ErrKeyView) -> BoardView {
    b.marked(index, Mark::Failed).with_http_error(key)
}

/// What is recorded of a bad status.
pub open spec fn status_message(status: u16, body: Seq<u8>) -> Seq<char> {
    "HTTP 错误: 状态码 "@ + decimal(status as nat) + ", body:"@ + quoted(decode_utf8(body))
}

/// What a response breaks the worker off with: a body that is to be printed and is no text.
pub open spec fn body_unprintable(verbose: bool, status: u16, body: Seq<u8>) -> bool {
    (verbose || !is_ok_status(status)) && !valid_utf8(body)
}

/// The board after a body was read to its end.
pub open spec fn on_body_end(
    b: BoardView,
    index: int,
    verbose: bool,
    endpoint: ApiEndpoint,
    status: u16,
    body: Seq<u8>,
) -> BoardView {
    if body_unprintable(verbose, status, body) {
        b
    } else if is_ok_status(status) {
        if endpoint.assert_options is None {
            b.marked(index, Mark::Succeeded)
        } else {
            b
        }
    } else {
        b.with_http_error(
            ErrKeyView {
                name: endpoint.name@,
                code: status,
                msg: status_message(status, body),
                url: endpoint.url@,
                source: "-"@,
            },
        )
    }
}

/// The phase after a body was read to its end.
pub open spec fn phase_after_body(
    verbose: bool,
    endpoint: ApiEndpoint,
    status: u16,
    body: Seq<u8>,
) -> PhaseView {
    if body_unprintable(verbose, status, body) {
        PhaseView::Stopped
    } else if is_ok_status(status) && endpoint.assert_options is Some && body.len() > 0 {
        PhaseView::Judging
    } else {
        PhaseView::Closing
    }
}

/// The action after a body was read to its end.
pub open spec fn action_after_body(
    index: usize,
    verbose: bool,
    endpoint: ApiEndpoint,
    status: u16,
    body: Seq<u8>,
    action: Action,
) -> bool {
    match phase_after_body(verbose, endpoint, status, body) {
        PhaseView::Stopped => action matches Action::Abort(text) && text@
            == "无法转换响应体为字符串"@,
        PhaseView::Judging => action matches Action::Judge(task) && task.index == index
            && task.verbose == verbose && task.api_name@ == endpoint.name@ && task.url@
            == endpoint.url@ && task.body_bytes@ == body && assertions_view(task.assert_options@)
            == assertions_view(endpoint.assert_options->Some_0@),
        _ => action is AskElapsed,
    }
}

impl Worker {
    /// A worker of the endpoint at `index` that has no permit yet.
    pub fn new(index: usize, render_template: bool, verbose: bool) -> (r: Self)
        ensures
            r@ == (WorkerView {
                index,
                render_template,
                verbose,
                render_form: render_template,
                phase: PhaseView::Waiting,
            }),
    {
        Worker {
            index,
            render_template,
            verbose,
            render_form: render_template,
            phase: Phase::Waiting,
        }
    }

    /// Where the worker stands.
    pub fn phase(&self) -> (r: &Phase)
        ensures
            r@ == self@.phase,
    {
        &self.phase
    }

    /// The worker got its permit.
    pub fn permitted(&mut self, board: &mut Board) -> (r: Action)
        requires
            old(self)@.phase is Waiting,
            old(board).wf(),
            old(self)@.index < old(board)@.apis.len(),
        ensures
            final(board).wf(),
            final(board)@ == old(board)@.marked(old(self)@.index as int, Mark::Started),
            final(self)@ == old(self)@.at(PhaseView::Idle),
            r is AskClock,
    {
        let _ = board.mark(self.index, Mark::Started);
        self.phase = Phase::Idle;
        Action::AskClock
    }

    /// The clock was read: there is time for another request, or not. A request starts from the
    /// values that were extracted for the whole run.
    pub fn clock(&mut self, endpoint: &ApiEndpoint, extracted: &ExtractMap, in_time: bool) -> (r:
        Action)
        requires
            old(self)@.phase is Idle,
        ensures
            !in_time ==> r is Stop && final(self)@ == old(self)@.at(PhaseView::Stopped),
            in_time && endpoint.setup_options is None ==> r is Prepare && final(self)@ == old(
                self,
            )@.at(PhaseView::Prepared(extracted@)),
            in_time && endpoint.setup_options is Some ==> (r matches Action::RunSetup(m) && m@
                == extracted@) && final(self)@ == (WorkerView {
                render_form: true,
                phase: PhaseView::Setup(extracted@),
                ..old(self)@
            }),
    {
        if !in_time {
            self.phase = Phase::Stopped;
            return Action::Stop;
        }
        match endpoint.setup_options {
            None => {
                self.phase = Phase::Prepared(extracted.copy());
                Action::Prepare
            },
            Some(_) => {
                self.render_form = true;
                self.phase = Phase::Setup(extracted.copy());
                Action::RunSetup(extracted.copy())
            },
        }
    }

    /// The endpoint's setup is done: what it extracted is taken over.
    pub fn setup_done(&mut self, result: &Option<ExtractMap>) -> (r: Action)
        requires
            old(self)@.phase is Setup,
        ensures
            r is Prepare,
            final(self)@ == old(self)@.at(
                PhaseView::Prepared(
                    match result {
                        None => old(self)@.phase->Setup_0,
                        Some(m) => old(self)@.phase->Setup_0.union_prefer_right(m@),
                    },
                ),
            ),
    {
        let mut extracted = match &self.phase {
            Phase::Setup(m) => m.copy(),
            _ => ExtractMap::new(),
        };
        match result {
            None => {},
            Some(m) => extracted.extend(m),
        }
        self.phase = Phase::Prepared(extracted);
        Action::Prepare
    }

    /// The endpoint's setup has failed: it is tried again after a while.
    pub fn setup_failed(&mut self) -> (r: Action)
        requires
            old(self)@.phase is Setup,
        ensures
            r is Retry,
            final(self)@ == old(self)@.at(PhaseView::Idle),
    {
        self.phase = Phase::Idle;
        Action::Retry
    }

    /// Prepares the next request. Where a rendering is missing, the worker stays as it is and
    /// asks for it.
    pub fn prepare(&mut self, endpoint: &ApiEndpoint, supplied: &Vec<Rendering>) -> (r: Action)
        requires
            old(self)@.phase is Prepared,
        ensures
            ({
                let before = old(self)@;
                let after = final(self)@;
                let outcome = endpoint_plan(
                    *endpoint,
                    before.render_template,
                    before.render_form,
                    json_object(before.phase->Prepared_0),
                    supplied@,
                );
                match r {
                    Action::Send(plan, pause) => outcome == Ok::<PlanView, Fault>(plan@)
                        && think_allowed(endpoint.think_time_option, pause) && after == before.at(
                        PhaseView::Sending,
                    ),
                    Action::Render(t, data) => outcome == Err::<PlanView, Fault>(
                        Fault::Unrendered(t@),
                    ) && data == json_object(before.phase->Prepared_0) && after == before,
                    Action::Fail(text) => after == before.at(PhaseView::Stopped) && (
                    outcome matches Err(f) && (f is BadMethod || f is BadCookie || f is BadJson)
                        && text@ == fault_message(f, ", "@)),
                    Action::Abort(text) => after == before.at(PhaseView::Stopped) && ((
                    outcome matches Err(f) && (f is BadHeaderName || f is BadHeaderValue) && text@
                        == fault_message(f, ", "@)) || (overfull(opt_pairs_view(endpoint.headers))
                        && text@ == fault_message(Fault::TooManyHeaders, ", "@))),
                    _ => false,
                }
            }),
            ascii_only(endpoint.method@) ==> uppercased(endpoint.method@) == ascii_raised(
                endpoint.method@,
            ),
    {
        let nothing = ExtractMap::new();
        let extracted = match &self.phase {
            Phase::Prepared(extracted) => extracted,
            _ => &nothing,
        };
        let result = prepare_endpoint(
            endpoint,
            self.render_template,
            self.render_form,
            extracted,
            supplied,
        );
        match result {
            Ok(plan) => {
                self.phase = Phase::Sending;
                Action::Send(plan, think(&endpoint.think_time_option))
            },
            Err(RequestError::Unrendered(t)) => Action::Render(t, extracted.to_object()),
            Err(e) => {
                self.phase = Phase::Stopped;
                if e.is_fatal() {
                    Action::Abort(e.message())
                } else {
                    Action::Fail(e.message())
                }
            },
        }
    }

    /// A response came, after this many milliseconds, with these headers.
    pub fn answered(
        &mut self,
        board: &mut Board,
        status: u16,
        millis: u64,
        headers: &HeaderMap<HeaderValue>,
    ) -> (r: Action)
        requires
            old(self)@.phase is Sending,
            old(board).wf(),
            old(self)@.index < old(board)@.apis.len(),
            millis != LATENCY_END,
        ensures
            final(board).wf(),
            final(board)@ == on_answer(
                old(board)@,
                old(self)@.index as int,
                status,
                millis,
                wrapped(headers_len(header_list(*headers))) as usize,
            ),
            final(self)@ == old(self)@.at(PhaseView::Reading(status, Seq::empty())),
            r is ReadBody,
    {
        let _ = board.mark(self.index, Mark::Requested);
        if !ok_status(status) {
            let _ = board.mark(self.index, Mark::Failed);
        }
        let _ = board.mark(self.index, Mark::Timed(millis));
        let size: usize = headers_size(headers);
        let _ = board.mark(self.index, Mark::Received(size));
        self.phase = Phase::Reading(status, Vec::new());
        Action::ReadBody
    }

    /// The request could not be sent.
    pub fn not_sent(
        &mut self,
        board: &mut Board,
        endpoint: &ApiEndpoint,
        status: Option<u16>,
        message: String,
        source: Option<String>,
    ) -> (r: Action)
        requires
            old(self)@.phase is Sending,
            old(board).wf(),
            old(self)@.index < old(board)@.apis.len(),
        ensures
            final(board).wf(),
            final(board)@ == on_not_sent(
                old(board)@,
                old(self)@.index as int,
                (ErrKeyView {
                    name: endpoint.name@,
                    code: code_or_zero(status),
                    msg: message@,
                    url: endpoint.url@,
                    source: source_or(source, "None"@),
                }),
            ),
            final(self)@ == old(self)@.at(PhaseView::Idle),
            r is AskClock,
    {
        let _ = board.mark(self.index, Mark::Requested);
        let _ = board.mark(self.index, Mark::Failed);
        let code: u16 = match status {
            None => 0,
            Some(code) => code,
        };
        let source = match source {
            None => "None".to_owned(),
            Some(text) => text,
        };
        board.http_error(endpoint.name.clone(), endpoint.url.clone(), code, message, source);
        self.phase = Phase::Idle;
        Action::AskClock
    }

    /// A piece of the body came.
    pub fn chunk(&mut self, board: &mut Board, bytes: &Vec<u8>) -> (r: Action)
        requires
            old(self)@.phase is Reading,
            old(board).wf(),
            old(self)@.index < old(board)@.apis.len(),
        ensures
            final(board).wf(),
            final(board)@ == old(board)@.marked(
                old(self)@.index as int,
                Mark::Received(bytes.len()),
            ),
            final(self)@ == old(self)@.at(
                PhaseView::Reading(
                    old(self)@.phase->Reading_0,
                    old(self)@.phase->Reading_1 + bytes@,
                ),
            ),
            r is ReadBody,
    {
        let _ = board.mark(self.index, Mark::Received(bytes.len()));
        let mut phase = Phase::Idle;
        std::mem::swap(&mut self.phase, &mut phase);
        match phase {
            Phase::Reading(status, mut body) => {
                let mut more = bytes.clone();
                body.append(&mut more);
                self.phase = Phase::Reading(status, body);
            },
            _ => {},
        }
        Action::ReadBody
    }

    /// The body was read to its end.
    pub fn body_end(&mut self, board: &mut Board, endpoint: &ApiEndpoint) -> (r: Action)
        requires
            old(self)@.phase is Reading,
            old(board).wf(),
            old(self)@.index < old(board)@.apis.len(),
        ensures
            ({
                let before = old(self)@;
                let status = before.phase->Reading_0;
                let body = before.phase->Reading_1;
                &&& final(board).wf()
                &&& final(board)@ == on_body_end(
                    old(board)@,
                    before.index as int,
                    before.verbose,
                    *endpoint,
                    status,
                    body,
                )
                &&& final(self)@ == before.at(
                    phase_after_body(before.verbose, *endpoint, status, body),
                )
                &&& action_after_body(before.index, before.verbose, *endpoint, status, body, r)
            }),
    {
        let mut phase = Phase::Idle;
        std::mem::swap(&mut self.phase, &mut phase);
        let (status, body) = match phase {
            Phase::Reading(status, body) => (status, body),
            _ => (0, Vec::new()),
        };
        let good = ok_status(status);
        let mut text = String::new();
        if self.verbose || !good {
            match text_from_bytes(body.clone()) {
                Ok(t) => {
                    text = t;
                },
                Err(_) => {
                    self.phase = Phase::Stopped;
                    return Action::Abort("无法转换响应体为字符串".to_owned());
                },
            }
        }
        if good {
            match &endpoint.assert_options {
                Some(options) => {
                    if body.len() > 0 {
                        self.phase = Phase::Judging;
                        return Action::Judge(
                            AssertTask {
                                assert_options: assertions_clone(options),
                                body_bytes: body,
                                verbose: self.verbose,
                                api_name: endpoint.name.clone(),
                                url: endpoint.url.clone(),
                                index: self.index,
                            },
                        );
                    }
                },
                None => {
                    let _ = board.mark(self.index, Mark::Succeeded);
                },
            }
        } else {
            let head = joined("HTTP 错误: 状态码 ", decimal_text(status as u64).as_str());
            let label = joined(head.as_str(), ", body:");
            let msg = joined(label.as_str(), debug_text(text.as_str()).as_str());
            board.http_error(
                endpoint.name.clone(),
                endpoint.url.clone(),
                status,
                msg,
                "-".to_owned(),
            );
        }
        self.phase = Phase::Closing;
        Action::AskElapsed
    }

    /// The response broke off. What came of it is dealt with as a body that was read to its end.
    pub fn not_read(
        &mut self,
        board: &mut Board,
        endpoint: &ApiEndpoint,
        status: Option<u16>,
        message: String,
        source: Option<String>,
    ) -> (r: Action)
        requires
            old(self)@.phase is Reading,
            old(board).wf(),
            old(self)@.index < old(board)@.apis.len(),
        ensures
            ({
                let before = old(self)@;
                let answer = before.phase->Reading_0;
                let body = before.phase->Reading_1;
                let key = ErrKeyView {
                    name: endpoint.name@,
                    code: code_or_zero(status),
                    msg: message@,
                    url: endpoint.url@,
                    source: source_or(source, "-"@),
                };
                &&& final(board).wf()
                &&& final(board)@ == on_body_end(
                    on_not_read(old(board)@, before.index as int, key),
                    before.index as int,
                    before.verbose,
                    *endpoint,
                    answer,
                    body,
                )
                &&& final(self)@ == before.at(
                    phase_after_body(before.verbose, *endpoint, answer, body),
                )
                &&& action_after_body(before.index, before.verbose, *endpoint, answer, body, r)
            }),
    {
        let _ = board.mark(self.index, Mark::Failed);
        let code: u16 = match status {
            None => 0,
            Some(code) => code,
        };
        let source = match source {
            None => "-".to_owned(),
            Some(text) => text,
        };
        board.http_error(endpoint.name.clone(), endpoint.url.clone(), code, message, source);
        self.body_end(board, endpoint)
    }

    /// The response was judged.
    pub fn judged(&mut self) -> (r: Action)
        requires
            old(self)@.phase is Judging,
        ensures
            final(self)@ == old(self)@.at(PhaseView::Closing),
            r is AskElapsed,
    {
        self.phase = Phase::Closing;
        Action::AskElapsed
    }

    /// The response is dealt with, `elapsed` nanoseconds into the run: the endpoint's result is
    /// taken anew and reported.
    pub fn close(&mut self, board: &mut Board, endpoint: &ApiEndpoint, elapsed: u128) -> (r: Action)
        requires
            old(self)@.phase is Closing,
            old(board).wf(),
            old(self)@.index < old(board)@.apis.len(),
        ensures
            final(board).wf(),
            final(board)@ == old(board)@.published(
                old(self)@.index as int,
                endpoint.method@,
                elapsed,
            ),
            final(board)@.results[old(self)@.index as int].in_order(),
            few_samples(old(board)@.apis[old(self)@.index as int].counters) ==> {
                let counters = old(board)@.apis[old(self)@.index as int].counters;
                let result = final(board)@.results[old(self)@.index as int];
                &&& starts_rank(counters, 14, 50, result.median_response_time)
                &&& starts_rank(counters, 14, 95, result.response_time_95)
                &&& starts_rank(counters, 14, 99, result.response_time_99)
            },
            ascii_only(endpoint.method@) ==> uppercased(endpoint.method@) == ascii_raised(
                endpoint.method@,
            ),
            final(self)@ == old(self)@.at(PhaseView::Idle),
            r is AskClock,
    {
        board.publish(self.index, endpoint.method.as_str(), elapsed);
        self.phase = Phase::Idle;
        Action::AskClock
    }
}

/// Every request counts exactly once: when its response comes, or when it cannot be sent. Nothing
/// that follows counts it again.
pub proof fn law_request_counts_once(
    b: BoardView,
    index: int,
    status: u16,
    millis: u64,
    size: usize,
    key: ErrKeyView,
    verbose: bool,
    endpoint: ApiEndpoint,
    body: Seq<u8>,
    method: Seq<char>,
    elapsed: u128,
)
    requires
        0 <= index < b.apis.len(),
    ensures
        on_answer(b, index, status, millis, size).run.total_requests
            == b.run.total_requests.wrapping_add(1),
        on_answer(b, index, status, millis, size).apis[index].total_requests
            == b.apis[index].total_requests.wrapping_add(1),
        on_not_sent(b, index, key).run.total_requests == b.run.total_requests.wrapping_add(1),
        on_not_sent(b, index, key).apis[index].total_requests
            == b.apis[index].total_requests.wrapping_add(1),
        b.marked(index, Mark::Received(size)).run.total_requests == b.run.total_requests,
        on_not_read(b, index, key).run.total_requests == b.run.total_requests,
        on_body_end(b, index, verbose, endpoint, status, body).run.total_requests
            == b.run.total_requests,
        b.published(index, method, elapsed).run.total_requests == b.run.total_requests,
{
}

/// A request that could not be sent, or whose response has a bad status, is an error and never a
/// success.
pub proof fn law_errors_are_no_successes(
    b: BoardView,
    index: int,
    status: u16,
    millis: u64,
    size: usize,
    key: ErrKeyView,
    verbose: bool,
    endpoint: ApiEndpoint,
    body: Seq<u8>,
)
    requires
        0 <= index < b.apis.len(),
        !is_ok_status(status),
    ensures
        on_not_sent(b, index, key).run.err_count == b.run.err_count.wrapping_add(1),
        on_not_sent(b, index, key).run.successful_requests == b.run.successful_requests,
        on_answer(b, index, status, millis, size).run.err_count == b.run.err_count.wrapping_add(1),
        on_answer(b, index, status, millis, size).run.successful_requests
            == b.run.successful_requests,
        on_body_end(b, index, verbose, endpoint, status, body).run.successful_requests
            == b.run.successful_requests,
        on_body_end(b, index, verbose, endpoint, status, body).run.err_count == b.run.err_count,
{
}

/// A response with a good status that no assertion is made on is a success, and no error unless
/// its body breaks off.
pub proof fn law_good_answer_succeeds(
    b: BoardView,
    index: int,
    status: u16,
    millis: u64,
    size: usize,
    endpoint: ApiEndpoint,
    body: Seq<u8>,
)
    requires
        0 <= index < b.apis.len(),
        is_ok_status(status),
        endpoint.assert_options is None,
    ensures
        on_answer(b, index, status, millis, size).run.err_count == b.run.err_count,
        on_body_end(b, index, false, endpoint, status, body).run.successful_requests
            == b.run.successful_requests.wrapping_add(1),
        on_body_end(b, index, false, endpoint, status, body).run.err_count == b.run.err_count,
{
}

/// The board after the pieces of a body came.
pub open spec fn on_chunks(b: BoardView, index: int, chunks: Seq<usize>) -> BoardView
    decreases chunks.len(),
{
    if chunks.len() == 0 {
        b
    } else {
        on_chunks(b, index, chunks.drop_last()).marked(index, Mark::Received(chunks.last()))
    }
}

/// The board after a whole request: its answer, the pieces and the end of its body, and the
/// result that is taken of it.
pub open spec fn on_request(
    b: BoardView,
    index: int,
    endpoint: ApiEndpoint,
    status: u16,
    millis: u64,
    size: usize,
    chunks: Seq<usize>,
    body: Seq<u8>,
    elapsed: u128,
) -> BoardView {
    let answered = on_answer(b, index, status, millis, size);
    let read = on_chunks(answered, index, chunks);
    on_body_end(read, index, false, endpoint, status, body).published(
        index,
        endpoint.method@,
        elapsed,
    )
}

proof fn lemma_chunks_count_bytes_only(b: BoardView, index: int, chunks: Seq<usize>)
    requires
        b.wf(),
        0 <= index < b.apis.len(),
    ensures
        ({
            let after = on_chunks(b, index, chunks);
            &&& after.wf()
            &&& after.apis.len() == b.apis.len()
            &&& after.run == (TallyView { response_bytes: after.run.response_bytes, ..b.run })
            &&& after.http_errors == b.http_errors
            &&& after.assert_errors == b.assert_errors
        }),
    decreases chunks.len(),
{
    if chunks.len() > 0 {
        lemma_chunks_count_bytes_only(b, index, chunks.drop_last());
        law_marks_add_up(
            on_chunks(b, index, chunks.drop_last()),
            index,
            Mark::Received(chunks.last()),
        );
    }
}

/// A whole request without assertions counts as one request and, by its status, as one success
/// or as one error. An error is recorded once under its status; a success records nothing.
pub proof fn law_whole_request(
    b: BoardView,
    index: int,
    endpoint: ApiEndpoint,
    status: u16,
    millis: u64,
    size: usize,
    chunks: Seq<usize>,
    body: Seq<u8>,
    elapsed: u128,
)
    requires
        b.wf(),
        0 <= index < b.apis.len(),
        millis != LATENCY_END,
        endpoint.assert_options is None,
        is_ok_status(status) || valid_utf8(body),
    ensures
        ({
            let after = on_request(b, index, endpoint, status, millis, size, chunks, body, elapsed);
            let key = ErrKeyView {
                name: endpoint.name@,
                code: status,
                msg: status_message(status, body),
                url: endpoint.url@,
                source: "-"@,
            };
            &&& after.wf()
            &&& after.run.total_requests == b.run.total_requests.wrapping_add(1)
            &&& after.run.successful_requests == (if is_ok_status(status) {
                b.run.successful_requests.wrapping_add(1)
            } else {
                b.run.successful_requests
            })
            &&& after.run.err_count == (if is_ok_status(status) {
                b.run.err_count
            } else {
                b.run.err_count.wrapping_add(1)
            })
            &&& after.http_errors == (if is_ok_status(status) {
                b.http_errors
            } else {
                counted_once(b.http_errors, key)
            })
            &&& after.assert_errors == b.assert_errors
            &&& after.run.min_response_time <= millis <= after.run.max_response_time
        }),
{
    let requested = b.marked(index, Mark::Requested);
    law_marks_add_up(b, index, Mark::Requested);
    law_marks_add_up(requested, index, Mark::Failed);
    let checked = if is_ok_status(status) {
        requested
    } else {
        requested.marked(index, Mark::Failed)
    };
    law_marks_add_up(checked, index, Mark::Timed(millis));
    let timed = checked.marked(index, Mark::Timed(millis));
    law_marks_add_up(timed, index, Mark::Received(size));
    let answered = on_answer(b, index, status, millis, size);
    lemma_chunks_count_bytes_only(answered, index, chunks);
    let read = on_chunks(answered, index, chunks);
    law_marks_add_up(read, index, Mark::Succeeded);
}

/// What is counted for one endpoint leaves the tallies and results of the others as they are.
pub proof fn law_endpoints_are_apart(
    b: BoardView,
    index: int,
    other: int,
    m: Mark,
    method: Seq<char>,
    elapsed: u128,
)
    requires
        0 <= index < b.apis.len(),
        0 <= other < b.apis.len(),
        b.drafts.len() == b.apis.len(),
        b.results.len() == b.apis.len(),
        other != index,
    ensures
        b.marked(index, m).apis[other] == b.apis[other],
        b.published(index, method, elapsed).apis[other] == b.apis[other],
        b.published(index, method, elapsed).results[other] == b.results[other],
        b.published(index, method, elapsed).drafts[other] == b.drafts[other],
{
}

} // verus!
