//! Answered requests: what is counted of a request, from its response to the result that is taken
//! of it.

use serde_json::Value;
use vstd::prelude::*;
use vstd::utf8::{decode_utf8, valid_utf8};

use crate::assertion::{
    decides, is_met, judged, law_every_assertion_is_looked_at,
    law_judgement_counts_as_it_comes_out, settled, VerdictView,
};
use crate::board::BoardView;
use crate::error_stats::{count_of, AssertErrKeyView, ErrKeyView};
use crate::json::json_from_bytes;
use crate::jsonpath::{misses, selects, Selection};
use crate::latency::counted;
use crate::models::{assertions_view, ApiEndpoint};
use crate::tally::{larger, smaller, Mark, TallyView};
use crate::text::{decimal, quoted};
use crate::worker::{
    action_after_body, code_or_zero, is_ok_status, on_answer, on_body_end, on_chunks, on_not_read,
    on_not_sent, phase_after_body, source_or, Action, PhaseView,
};

verus! {

/// The good statuses are those of success up to 208, 226, and those of redirection up to 308
/// without 306.
pub proof fn law_good_statuses(status: u16)
    ensures
        is_ok_status(status) <==> (200 <= status < 209 || status == 226 || (300 <= status < 309
            && status != 306)),
{
}

/// A tally with more requests, successes, errors and bytes, wrapping around.
pub open spec fn grown(
    t: TallyView,
    requests: usize,
    successes: usize,
    errors: usize,
    bytes: usize,
) -> TallyView {
    TallyView {
        total_requests: t.total_requests.wrapping_add(requests),
        successful_requests: t.successful_requests.wrapping_add(successes),
        err_count: t.err_count.wrapping_add(errors),
        response_bytes: t.response_bytes.wrapping_add(bytes),
        ..t
    }
}

/// A tally with a response time counted.
pub open spec fn timed(t: TallyView, millis: u64) -> TallyView {
    TallyView {
        max_response_time: if millis > t.max_response_time {
            millis
        } else {
            t.max_response_time
        },
        min_response_time: if millis < t.min_response_time {
            millis
        } else {
            t.min_response_time
        },
        counters: counted(t.counters, (14, 20), millis),
        ..t
    }
}

/// The board changed only in the tallies of the run and of one endpoint, both in the same way.
pub open spec fn counted_alike(
    b: BoardView,
    after: BoardView,
    index: int,
    change: spec_fn(TallyView) -> TallyView,
) -> bool {
    &&& after.run == change(b.run)
    &&& after.apis == b.apis.update(index, change(b.apis[index]))
    &&& after.results == b.results
    &&& after.drafts == b.drafts
    &&& after.last_errors == b.last_errors
    &&& after.last_requests == b.last_requests
}

/// An error is recorded once more under its key.
pub open spec fn recorded_once<K>(m: Map<K, u32>, after: Map<K, u32>, key: K) -> bool {
    after == m.insert(key, count_of(m, key).wrapping_add(1))
}

/// A response counts one request, its time, and the bytes of its headers, for the run and for its
/// endpoint alike; and one error exactly where its status is bad. Nothing is recorded yet.
pub proof fn law_answer_counts(b: BoardView, index: int, status: u16, millis: u64, size: usize)
    requires
        0 <= index < b.apis.len(),
    ensures
        ({
            let good = 200 <= status < 209 || status == 226 || (300 <= status < 309 && status
                != 306);
            let errors: usize = if good {
                0
            } else {
                1
            };
            let after = on_answer(b, index, status, millis, size);
            &&& counted_alike(
                b,
                after,
                index,
                |t: TallyView| timed(grown(t, 1, 0, errors, size), millis),
            )
            &&& after.http_errors == b.http_errors
            &&& after.assert_errors == b.assert_errors
        }),
{
    let after = on_answer(b, index, status, millis, size);
    let errors: usize = if is_ok_status(status) {
        0
    } else {
        1
    };
    let change = |t: TallyView| timed(grown(t, 1, 0, errors, size), millis);
    assert(after.apis =~= b.apis.update(index, change(b.apis[index])));
}

/// A request that could not be sent counts one request and one error, for the run and for its
/// endpoint alike, and is recorded once under its key.
pub proof fn law_unsent_request_counts(b: BoardView, index: int, key: ErrKeyView)
    requires
        0 <= index < b.apis.len(),
    ensures
        ({
            let after = on_not_sent(b, index, key);
            &&& counted_alike(b, after, index, |t: TallyView| grown(t, 1, 0, 1, 0))
            &&& recorded_once(b.http_errors, after.http_errors, key)
            &&& after.assert_errors == b.assert_errors
        }),
{
    let after = on_not_sent(b, index, key);
    let change = |t: TallyView| grown(t, 1, 0, 1, 0);
    assert(after.apis =~= b.apis.update(index, change(b.apis[index])));
}

/// A body that breaks off counts one error, for the run and for its endpoint alike, and is recorded
/// once under its key.
pub proof fn law_broken_body_counts(b: BoardView, index: int, key: ErrKeyView)
    requires
        0 <= index < b.apis.len(),
    ensures
        ({
            let after = on_not_read(b, index, key);
            &&& counted_alike(b, after, index, |t: TallyView| grown(t, 0, 0, 1, 0))
            &&& recorded_once(b.http_errors, after.http_errors, key)
            &&& after.assert_errors == b.assert_errors
        }),
{
    let after = on_not_read(b, index, key);
    let change = |t: TallyView| grown(t, 0, 0, 1, 0);
    assert(after.apis =~= b.apis.update(index, change(b.apis[index])));
}

/// What follows the end of a body. A body that is no text breaks the worker off where it has to be
/// printed, that is, where the worker is verbose or the status is bad, and nothing is counted of
/// it. Else a bad status is recorded once, with its code and its body; a good one with assertions
/// and a body is handed over to be judged, with exactly that body and those assertions, and
/// nothing is counted yet; a good one without assertions counts one success; and a good one with
/// assertions and an empty body counts nothing.
pub proof fn law_end_of_body(
    b: BoardView,
    index: usize,
    verbose: bool,
    endpoint: ApiEndpoint,
    status: u16,
    body: Seq<u8>,
    action: Action,
)
    requires
        index < b.apis.len(),
        action_after_body(index, verbose, endpoint, status, body, action),
    ensures
        ({
            let good = 200 <= status < 209 || status == 226 || (300 <= status < 309 && status
                != 306);
            let after = on_body_end(b, index as int, verbose, endpoint, status, body);
            let phase = phase_after_body(verbose, endpoint, status, body);
            if !valid_utf8(body) && (verbose || !good) {
                &&& after == b
                &&& phase is Stopped
                &&& action matches Action::Abort(text) && text@ == "无法转换响应体为字符串"@
            } else if !good {
                &&& after == (BoardView { http_errors: after.http_errors, ..b })
                &&& recorded_once(
                    b.http_errors,
                    after.http_errors,
                    ErrKeyView {
                        name: endpoint.name@,
                        code: status,
                        msg: "HTTP 错误: 状态码 "@ + decimal(status as nat) + ", body:"@ + quoted(
                            decode_utf8(body),
                        ),
                        url: endpoint.url@,
                        source: "-"@,
                    },
                )
                &&& phase is Closing
                &&& action is AskElapsed
            } else {
                match endpoint.assert_options {
                    None => {
                        &&& counted_alike(
                            b,
                            after,
                            index as int,
                            |t: TallyView| grown(t, 0, 1, 0, 0),
                        )
                        &&& after.http_errors == b.http_errors
                        &&& after.assert_errors == b.assert_errors
                        &&& phase is Closing
                        &&& action is AskElapsed
                    },
                    Some(options) => if body.len() == 0 {
                        &&& after == b
                        &&& phase is Closing
                        &&& action is AskElapsed
                    } else {
                        &&& after == b
                        &&& phase is Judging
                        &&& action matches Action::Judge(task) && {
                            &&& task.body_bytes@ == body
                            &&& task.assert_options@.len() == options@.len()
                            &&& forall|i: int|
                                0 <= i < options@.len() ==> (
                                #[trigger] task.assert_options@[i]).jsonpath@
                                    == options@[i].jsonpath@
                                    && task.assert_options@[i].reference_object
                                    == options@[i].reference_object
                            &&& task.index == index
                            &&& task.api_name@ == endpoint.name@
                            &&& task.url@ == endpoint.url@
                            &&& task.verbose == verbose
                        }
                    },
                }
            }
        }),
{
    let after = on_body_end(b, index as int, verbose, endpoint, status, body);
    let change = |t: TallyView| grown(t, 0, 1, 0, 0);
    if is_ok_status(status) {
        if let Some(options) = endpoint.assert_options {
            if let Action::Judge(task) = action {
                let mine = assertions_view(task.assert_options@);
                let own = assertions_view(options@);
                assert(mine.len() == task.assert_options@.len());
                assert forall|i: int| 0 <= i < options@.len() implies (
                #[trigger] task.assert_options@[i]).jsonpath@ == options@[i].jsonpath@
                    && task.assert_options@[i].reference_object == options@[i].reference_object by {
                    assert(mine[i] == own[i]);
                }
            }
        } else if !(verbose && !valid_utf8(body)) {
            assert(after.apis =~= b.apis.update(index as int, change(b.apis[index as int])));
        }
    }
}

/// The sum of sizes, wrapping around.
pub open spec fn size_sum(sizes: Seq<usize>) -> usize
    decreases sizes.len(),
{
    if sizes.len() == 0 {
        0
    } else {
        size_sum(sizes.drop_last()).wrapping_add(sizes.last())
    }
}

/// The pieces of a body count their bytes, for the run and for its endpoint alike, and nothing
/// else.
pub proof fn law_pieces_count_their_bytes(b: BoardView, index: int, chunks: Seq<usize>)
    requires
        0 <= index < b.apis.len(),
    ensures
        ({
            let after = on_chunks(b, index, chunks);
            &&& counted_alike(
                b,
                after,
                index,
                |t: TallyView| grown(t, 0, 0, 0, size_sum(chunks)),
            )
            &&& after.http_errors == b.http_errors
            &&& after.assert_errors == b.assert_errors
        }),
    decreases chunks.len(),
{
    let after = on_chunks(b, index, chunks);
    let change = |t: TallyView| grown(t, 0, 0, 0, size_sum(chunks));
    if chunks.len() > 0 {
        law_pieces_count_their_bytes(b, index, chunks.drop_last());
    }
    assert(after.apis =~= b.apis.update(index, change(b.apis[index])));
}

/// The board after a whole request whose response was judged: its answer, the pieces and the end
/// of its body, and the judgement of that body against the endpoint's assertions.
pub open spec fn on_judged_request(
    b: BoardView,
    index: int,
    verbose: bool,
    endpoint: ApiEndpoint,
    status: u16,
    millis: u64,
    size: usize,
    chunks: Seq<usize>,
    body: Seq<u8>,
    supplied: Seq<Selection>,
) -> BoardView {
    let answered = on_answer(b, index, status, millis, size);
    let read = on_chunks(answered, index, chunks);
    let ended = on_body_end(read, index, verbose, endpoint, status, body);
    settled(
        ended,
        index,
        endpoint.name@,
        endpoint.url@,
        judged(body, assertions_view(endpoint.assert_options->Some_0@), supplied),
    )
}

/// The board counts one request more, for the run and for its endpoint alike, with so many
/// successes and errors, its bytes and its time.
pub open spec fn counts_request(
    b: BoardView,
    after: BoardView,
    index: int,
    successes: usize,
    errors: usize,
    bytes: usize,
    millis: u64,
) -> bool {
    counted_alike(
        b,
        after,
        index,
        |t: TallyView| timed(grown(t, 1, successes, errors, bytes), millis),
    )
}

/// A whole request with assertions, for every good status and every body that can be printed
/// where it has to be: it counts as one request; as one success, and as no error, exactly where
/// its body is JSON and every one of the assertions holds; as one error, recorded once among the
/// assertion errors under the endpoint's name and URL, where the body is no JSON or the first
/// assertion that does not hold selects some other values; and as neither where that assertion's
/// path cannot be evaluated. It is never recorded as an HTTP error.
pub proof fn law_whole_request_with_assertions(
    b: BoardView,
    index: int,
    verbose: bool,
    endpoint: ApiEndpoint,
    status: u16,
    millis: u64,
    size: usize,
    chunks: Seq<usize>,
    body: Seq<u8>,
    supplied: Seq<Selection>,
    i: int,
)
    requires
        0 <= index < b.apis.len(),
        200 <= status < 209 || status == 226 || (300 <= status < 309 && status != 306),
        endpoint.assert_options is Some,
        body.len() > 0,
        verbose ==> valid_utf8(body),
    ensures
        ({
            let options = endpoint.assert_options->Some_0@;
            let after = on_judged_request(
                b,
                index,
                verbose,
                endpoint,
                status,
                millis,
                size,
                chunks,
                body,
                supplied,
            );
            let bytes = size.wrapping_add(size_sum(chunks));
            let filed = exists|msg: Seq<char>| #[trigger]
                recorded_once(
                    b.assert_errors,
                    after.assert_errors,
                    AssertErrKeyView { name: endpoint.name@, msg, url: endpoint.url@ },
                );
            &&& phase_after_body(verbose, endpoint, status, body) is Judging
            &&& after.http_errors == b.http_errors
            &&& match json_from_bytes(body) {
                Err(e) => counts_request(b, after, index, 0, 1, bytes, millis) && filed,
                Ok(doc) => {
                    &&& (forall|k: int|
                        0 <= k < options.len() ==> is_met(doc, #[trigger] options[k], supplied))
                        ==> counts_request(b, after, index, 1, 0, bytes, millis)
                        && after.assert_errors == b.assert_errors
                    &&& decides(doc, options, i, supplied) && (exists|values: Seq<Value>| #[trigger]
                        selects(doc, options[i].jsonpath@, supplied, values))
                        ==> counts_request(b, after, index, 0, 1, bytes, millis) && filed
                    &&& decides(doc, options, i, supplied) && !(exists|values: Seq<Value>| #[trigger]
                        selects(doc, options[i].jsonpath@, supplied, values))
                        ==> counts_request(b, after, index, 0, 0, bytes, millis) && after.assert_errors == b.assert_errors
                },
            }
        }),
{
    let options = endpoint.assert_options->Some_0@;
    let answered = on_answer(b, index, status, millis, size);
    let read = on_chunks(answered, index, chunks);
    law_answer_counts(b, index, status, millis, size);
    law_pieces_count_their_bytes(answered, index, chunks);
    law_every_assertion_is_looked_at(body, options, supplied);
    let v = judged(body, assertions_view(options), supplied);
    law_judgement_counts_as_it_comes_out(read, index, endpoint.name@, endpoint.url@, v);
    let after = settled(read, index, endpoint.name@, endpoint.url@, v);
    let bytes = size.wrapping_add(size_sum(chunks));
    assert forall|n: usize| #[trigger]
        n.wrapping_add(size).wrapping_add(size_sum(chunks)) == n.wrapping_add(bytes) by {}
    let passed: usize = if v is Passed {
        1
    } else {
        0
    };
    let failed: usize = match v {
        VerdictView::Unreadable(_) => 1,
        VerdictView::NoMatch => 1,
        VerdictView::ManyMatches => 1,
        VerdictView::Different(_, _) => 1,
        _ => 0,
    };
    assert(after == on_judged_request(
        b,
        index,
        verbose,
        endpoint,
        status,
        millis,
        size,
        chunks,
        body,
        supplied,
    ));
    let change = |t: TallyView| timed(grown(t, 1, passed, failed, bytes), millis);
    assert(after.run == change(b.run));
    assert(after.apis =~= b.apis.update(index, change(b.apis[index])));
    assert(counts_request(b, after, index, passed, failed, bytes, millis));
    if failed == 1 {
        let msg: Seq<char> = match v {
            VerdictView::Unreadable(e) => "JSONPath查询失败:"@ + e,
            VerdictView::NoMatch => "没有匹配到任何结果"@,
            VerdictView::ManyMatches => "匹配到多个值，无法断言"@,
            VerdictView::Different(expected, actual) => "预期结果："@ + expected + ", 实际结果："@
                + actual,
            _ => Seq::empty(),
        };
        assert(recorded_once(
            b.assert_errors,
            after.assert_errors,
            AssertErrKeyView { name: endpoint.name@, msg, url: endpoint.url@ },
        ));
    }
    if let Ok(doc) = json_from_bytes(body) {
        if decides(doc, options, i, supplied) {
            let k = choose|k: int| #[trigger]
                decides(doc, options, k, supplied) && crate::assertion::comes_out_as(
                    doc,
                    options[k],
                    supplied,
                    v,
                );
            assert(k == i) by {
                if k < i {
                    assert(is_met(doc, options[k], supplied));
                }
                if i < k {
                    assert(is_met(doc, options[i], supplied));
                }
            }
            lemma_apart(doc, options[i].jsonpath@, supplied);
        }
    }
}

/// A path that selects values can be evaluated.
proof fn lemma_apart(doc: Value, path: Seq<char>, supplied: Seq<Selection>)
    ensures
        (exists|values: Seq<Value>| #[trigger] selects(doc, path, supplied, values)) ==> !(exists|
            reason: Seq<char>,
        | #[trigger]
            misses(doc, path, supplied, reason)),
{
    crate::jsonpath::law_selection_is_the_evaluation(doc, path, supplied);
    if exists|values: Seq<Value>| #[trigger] selects(doc, path, supplied, values) {
        let values = choose|values: Seq<Value>| #[trigger] selects(doc, path, supplied, values);
        assert(crate::jsonpath::selection(doc, path, supplied) == Some(
            Ok::<Seq<Value>, Seq<char>>(values),
        ));
        assert forall|reason: Seq<char>| !#[trigger] misses(doc, path, supplied, reason) by {
            if misses(doc, path, supplied, reason) {
                assert(crate::jsonpath::selection(doc, path, supplied) == Some(
                    Err::<Seq<Value>, Seq<char>>(reason),
                ));
            }
        }
    }
}

/// The status and the source of an error are told as they are; where it has none, the status is 0
/// and the source is what stands for none.
pub proof fn law_errors_tell_their_parts(code: u16, source: String, none: Seq<char>)
    ensures
        code_or_zero(Some(code)) == code,
        code_or_zero(None) == 0,
        source_or(Some(source), none) == source@,
        source_or(None, none) == none,
{
}

} // verus!
