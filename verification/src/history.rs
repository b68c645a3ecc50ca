//! Histories: what holds of a run as a whole, whatever happens in it and in whatever order.

use vstd::prelude::*;
use vstd::utf8::valid_utf8;

use crate::assertion::{complaint, settled, Judgement};
use crate::board::{
    all_rated, column, fresh_board, largest, law_joining_adds_up, law_marks_add_up, smallest,
    totals, wrapping_total, ApiView, BoardView,
};
use crate::error_stats::{
    countable, counted_all, law_sum_is_how_many, sum_of, AssertErrKeyView, ErrKeyView,
};
use crate::models::ApiEndpoint;
use crate::tally::{
    law_fitting_is_not_wrapped, law_wrapping_goes_on, wrapped, Mark, LATENCY_END,
};
use crate::worker::{
    is_ok_status, on_answer, on_body_end, on_not_read, on_not_sent, status_message,
};

verus! {

/// Something that happens in a run.
pub enum Happening {
    /// An endpoint joins.
    Joined { name: Seq<char>, url: Seq<char>, method: Seq<char> },
    /// A worker starts.
    Started { index: usize },
    /// A response comes.
    Answered { index: usize, status: u16, millis: u64, size: usize },
    /// A request cannot be sent.
    NotSent { index: usize, key: ErrKeyView },
    /// A piece of a body comes.
    Chunk { index: usize, size: usize },
    /// A body breaks off.
    BrokeOff { index: usize, key: ErrKeyView },
    /// A body ends.
    BodyEnded { index: usize, verbose: bool, endpoint: ApiEndpoint, status: u16, body: Seq<u8> },
    /// A response is judged.
    Judged { judgement: Judgement },
    /// The result of an endpoint is taken.
    Published { index: usize, method: Seq<char>, elapsed: u128 },
    /// The run is reported.
    Reported { elapsed: u128 },
    /// The run is reported at its end.
    Concluded { elapsed: u128 },
}

/// The happening is one of an endpoint that has joined, and its response time can be counted.
pub open spec fn possible(b: BoardView, h: Happening) -> bool {
    match h {
        Happening::Joined { .. } => true,
        Happening::Started { index } => index < b.apis.len(),
        Happening::Answered { index, millis, .. } => index < b.apis.len() && millis != LATENCY_END,
        Happening::NotSent { index, .. } => index < b.apis.len(),
        Happening::Chunk { index, .. } => index < b.apis.len(),
        Happening::BrokeOff { index, .. } => index < b.apis.len(),
        Happening::BodyEnded { index, .. } => index < b.apis.len(),
        Happening::Judged { judgement } => judgement.index < b.apis.len(),
        Happening::Published { index, .. } => index < b.apis.len(),
        Happening::Reported { .. } => true,
        Happening::Concluded { .. } => true,
    }
}

/// The board after a happening.
pub open spec fn after(b: BoardView, h: Happening) -> BoardView {
    match h {
        Happening::Joined { name, url, method } => b.joined(name, url, method),
        Happening::Started { index } => b.marked(index as int, Mark::Started),
        Happening::Answered { index, status, millis, size } => on_answer(
            b,
            index as int,
            status,
            millis,
            size,
        ),
        Happening::NotSent { index, key } => on_not_sent(b, index as int, key),
        Happening::Chunk { index, size } => b.marked(index as int, Mark::Received(size)),
        Happening::BrokeOff { index, key } => on_not_read(b, index as int, key),
        Happening::BodyEnded { index, verbose, endpoint, status, body } => on_body_end(
            b,
            index as int,
            verbose,
            endpoint,
            status,
            body,
        ),
        Happening::Judged { judgement } => settled(
            b,
            judgement.index as int,
            judgement.name,
            judgement.url,
            judgement.verdict,
        ),
        Happening::Published { index, method, elapsed } => b.published(
            index as int,
            method,
            elapsed,
        ),
        Happening::Reported { elapsed } => b.reported(elapsed),
        Happening::Concluded { elapsed } => b.concluded(elapsed),
    }
}

/// The board after everything that has happened, from a run without endpoints on.
pub open spec fn board_after(history: Seq<Happening>) -> BoardView
    decreases history.len(),
{
    if history.len() == 0 {
        fresh_board()
    } else {
        after(board_after(history.drop_last()), history.last())
    }
}

/// Everything in the history was possible when it happened.
pub open spec fn can_happen(history: Seq<Happening>) -> bool
    decreases history.len(),
{
    history.len() > 0 ==> can_happen(history.drop_last()) && possible(
        board_after(history.drop_last()),
        history.last(),
    )
}

/// A response with a bad status.
pub open spec fn is_bad_answer(h: Happening) -> bool {
    h matches Happening::Answered { status, .. } && !is_ok_status(status)
}

/// The end of a body that came with a bad status and is text.
pub open spec fn is_bad_end(h: Happening) -> bool {
    h matches Happening::BodyEnded { status, body, .. } && !is_ok_status(status) && valid_utf8(body)
}

/// A request is made.
pub open spec fn is_request(h: Happening) -> bool {
    h is Answered || h is NotSent
}

/// An error is met.
pub open spec fn is_error(h: Happening) -> bool {
    ||| is_bad_answer(h)
    ||| h is NotSent
    ||| h is BrokeOff
    ||| h matches Happening::Judged { judgement } && complaint(judgement.verdict) is Some
}

/// How many happenings `chosen` holds of.
pub open spec fn happened(history: Seq<Happening>, chosen: spec_fn(Happening) -> bool) -> nat
    decreases history.len(),
{
    if history.len() == 0 {
        0
    } else {
        happened(history.drop_last(), chosen) + (if chosen(history.last()) {
            1nat
        } else {
            0
        })
    }
}

/// How many responses with a bad status came.
pub open spec fn bad_answers(history: Seq<Happening>) -> nat {
    happened(history, |h: Happening| is_bad_answer(h))
}

/// How many bodies that came with a bad status ended as text.
pub open spec fn bad_ends(history: Seq<Happening>) -> nat {
    happened(history, |h: Happening| is_bad_end(h))
}

/// How many requests were made.
pub open spec fn requests_in(history: Seq<Happening>) -> nat {
    happened(history, |h: Happening| is_request(h))
}

/// How many errors were met.
pub open spec fn errors_in(history: Seq<Happening>) -> nat {
    happened(history, |h: Happening| is_error(h))
}

/// The HTTP error that a happening is recorded as.
pub open spec fn http_error_of(h: Happening) -> Option<ErrKeyView> {
    match h {
        Happening::NotSent { key, .. } => Some(key),
        Happening::BrokeOff { key, .. } => Some(key),
        Happening::BodyEnded { endpoint, status, body, .. } => if is_bad_end(h) {
            Some(
                ErrKeyView {
                    name: endpoint.name@,
                    code: status,
                    msg: status_message(status, body),
                    url: endpoint.url@,
                    source: "-"@,
                },
            )
        } else {
            None
        },
        _ => None,
    }
}

/// The HTTP errors that were recorded.
pub open spec fn http_errors_in(history: Seq<Happening>) -> Seq<ErrKeyView>
    decreases history.len(),
{
    if history.len() == 0 {
        Seq::empty()
    } else {
        let earlier = http_errors_in(history.drop_last());
        match http_error_of(history.last()) {
            None => earlier,
            Some(key) => earlier.push(key),
        }
    }
}

/// The assertion error that a happening is recorded as.
pub open spec fn assert_error_of(h: Happening) -> Option<AssertErrKeyView> {
    match h {
        Happening::Judged { judgement } => match complaint(judgement.verdict) {
            None => None,
            Some(msg) => Some(
                AssertErrKeyView { name: judgement.name, msg, url: judgement.url },
            ),
        },
        _ => None,
    }
}

/// The assertion errors that were recorded.
pub open spec fn assert_errors_in(history: Seq<Happening>) -> Seq<AssertErrKeyView>
    decreases history.len(),
{
    if history.len() == 0 {
        Seq::empty()
    } else {
        let earlier = assert_errors_in(history.drop_last());
        match assert_error_of(history.last()) {
            None => earlier,
            Some(key) => earlier.push(key),
        }
    }
}

/// The response times, in milliseconds.
pub open spec fn times_in(history: Seq<Happening>) -> Seq<u64>
    decreases history.len(),
{
    if history.len() == 0 {
        Seq::empty()
    } else {
        match history.last() {
            Happening::Answered { millis, .. } => times_in(history.drop_last()).push(millis),
            _ => times_in(history.drop_last()),
        }
    }
}

/// The response times of one endpoint, in milliseconds.
pub open spec fn times_at(history: Seq<Happening>, index: int) -> Seq<u64>
    decreases history.len(),
{
    if history.len() == 0 {
        Seq::empty()
    } else {
        let earlier = times_at(history.drop_last(), index);
        match history.last() {
            Happening::Answered { index: at, millis, .. } => if at == index {
                earlier.push(millis)
            } else {
                earlier
            },
            _ => earlier,
        }
    }
}

/// No result of an endpoint is taken before a response of the endpoint has come.
pub open spec fn published_after_answers(history: Seq<Happening>) -> bool
    decreases history.len(),
{
    history.len() > 0 ==> published_after_answers(history.drop_last()) && (history.last() matches
        Happening::Published { index, .. } ==> times_at(history.drop_last(), index as int).len()
        > 0)
}

/// Unfolds the counts of a history by its last happening.
proof fn lemma_happened_last(history: Seq<Happening>)
    requires
        history.len() > 0,
    ensures
        ({
            let earlier = history.drop_last();
            let h = history.last();
            let one = |yes: bool|
                if yes {
                    1nat
                } else {
                    0nat
                };
            &&& bad_answers(history) == bad_answers(earlier) + one(is_bad_answer(h))
            &&& bad_ends(history) == bad_ends(earlier) + one(is_bad_end(h))
            &&& requests_in(history) == requests_in(earlier) + one(is_request(h))
            &&& errors_in(history) == errors_in(earlier) + one(is_error(h))
        }),
{
}

/// The errors that were met are those that are recorded, and those responses with a bad status
/// whose bodies have not ended as text.
pub proof fn law_errors_are_filed(history: Seq<Happening>)
    ensures
        errors_in(history) + bad_ends(history) == http_errors_in(history).len() + assert_errors_in(
            history,
        ).len() + bad_answers(history),
    decreases history.len(),
{
    if history.len() > 0 {
        law_errors_are_filed(history.drop_last());
        lemma_happened_last(history);
    }
}

proof fn lemma_fresh_board()
    ensures
        fresh_board().wf(),
{
    let b = fresh_board();
    assert forall|k: int| 0 <= k < b.run.counters.len() implies #[trigger] b.run.counters[k]
        == wrapping_total(column(b.apis, k)) by {
        assert(column(b.apis, k).len() == 0);
    }
}

/// A board stays well-formed whatever happens.
pub proof fn law_happenings_keep_order(b: BoardView, h: Happening)
    requires
        b.wf(),
        possible(b, h),
    ensures
        after(b, h).wf(),
{
    match h {
        Happening::Joined { .. } => {
            law_joining_adds_up(b.run, b.apis);
        },
        Happening::Started { index } => {
            law_marks_add_up(b, index as int, Mark::Started);
        },
        Happening::Answered { index, status, millis, size } => {
            let i = index as int;
            law_marks_add_up(b, i, Mark::Requested);
            let requested = b.marked(i, Mark::Requested);
            law_marks_add_up(requested, i, Mark::Failed);
            let checked = if is_ok_status(status) {
                requested
            } else {
                requested.marked(i, Mark::Failed)
            };
            law_marks_add_up(checked, i, Mark::Timed(millis));
            law_marks_add_up(checked.marked(i, Mark::Timed(millis)), i, Mark::Received(size));
        },
        Happening::NotSent { index, .. } => {
            law_marks_add_up(b, index as int, Mark::Requested);
            law_marks_add_up(b.marked(index as int, Mark::Requested), index as int, Mark::Failed);
        },
        Happening::Chunk { index, size } => {
            law_marks_add_up(b, index as int, Mark::Received(size));
        },
        Happening::BrokeOff { index, .. } => {
            law_marks_add_up(b, index as int, Mark::Failed);
        },
        Happening::BodyEnded { index, .. } => {
            law_marks_add_up(b, index as int, Mark::Succeeded);
        },
        Happening::Judged { judgement } => {
            law_marks_add_up(b, judgement.index as int, Mark::Succeeded);
            law_marks_add_up(b, judgement.index as int, Mark::Failed);
        },
        Happening::Published { .. } => {},
        Happening::Reported { .. } => {},
        Happening::Concluded { .. } => {},
    }
}

/// Whatever happens in a run, and however its requests overlap: its endpoints go on adding up to
/// it, its requests and its errors are counted as they happen, wrapping around, and every error
/// that is recorded is counted under its own key.
pub proof fn law_run_counts_its_history(history: Seq<Happening>)
    requires
        can_happen(history),
    ensures
        ({
            let b = board_after(history);
            &&& b.wf()
            &&& b.run.total_requests == wrapped(requests_in(history) as int)
            &&& b.run.err_count == wrapped(errors_in(history) as int)
            &&& b.http_errors == counted_all(http_errors_in(history))
            &&& b.assert_errors == counted_all(assert_errors_in(history))
        }),
    decreases history.len(),
{
    if history.len() == 0 {
        lemma_fresh_board();
        law_fitting_is_not_wrapped(0);
    } else {
        let earlier = history.drop_last();
        let h = history.last();
        let b = board_after(earlier);
        law_run_counts_its_history(earlier);
        lemma_happened_last(history);
        law_happenings_keep_order(b, h);
        law_wrapping_goes_on(requests_in(earlier) as int, b.run.total_requests, 1);
        law_wrapping_goes_on(errors_in(earlier) as int, b.run.err_count, 1);
        match http_error_of(h) {
            None => {},
            Some(key) => {
                assert(http_errors_in(history).drop_last() == http_errors_in(earlier));
                assert(http_errors_in(history).last() == key);
            },
        }
        match assert_error_of(h) {
            None => {},
            Some(key) => {
                assert(assert_errors_in(history).drop_last() == assert_errors_in(earlier));
                assert(assert_errors_in(history).last() == key);
            },
        }
    }
}

/// Whatever happens in a run, as long as no counter wraps around: its errors are those that are
/// recorded, as HTTP errors or as assertion errors, and those responses with a bad status whose
/// bodies have not ended as text. Once every body that came with a bad status has ended as text,
/// every report of the run, and its conclusion, tells of as many errors as it lists.
pub proof fn law_errors_are_recorded(history: Seq<Happening>, elapsed: u128, timestamp: u128)
    requires
        can_happen(history),
        errors_in(history) <= usize::MAX,
        countable(http_errors_in(history)),
        countable(assert_errors_in(history)),
    ensures
        ({
            let b = board_after(history);
            let report = b.report(elapsed, timestamp);
            let end = b.conclusion(elapsed, timestamp);
            let listed = sum_of(report.http_errors) + sum_of(report.assert_errors);
            &&& b.run.err_count == listed + bad_answers(history) - bad_ends(history)
            &&& end.err_count == report.err_count
            &&& sum_of(end.http_errors) + sum_of(end.assert_errors) == listed
            &&& bad_ends(history) == bad_answers(history) ==> {
                &&& report.errors == listed
                &&& end.errors == listed
                &&& report.err_count == (listed as usize) as i32
                &&& listed <= i32::MAX ==> report.err_count == listed
            }
        }),
{
    law_run_counts_its_history(history);
    law_errors_are_filed(history);
    law_fitting_is_not_wrapped(errors_in(history) as int);
    law_sum_is_how_many(http_errors_in(history));
    law_sum_is_how_many(assert_errors_in(history));
}

/// The sum of numbers.
pub open spec fn plain_sum(s: Seq<usize>) -> int
    decreases s.len(),
{
    if s.len() == 0 {
        0
    } else {
        plain_sum(s.drop_last()) + s.last()
    }
}

/// The sum of the requests of results.
pub open spec fn told_sum(s: Seq<ApiView>) -> int
    decreases s.len(),
{
    if s.len() == 0 {
        0
    } else {
        told_sum(s.drop_last()) + s.last().total_requests
    }
}

/// No result tells of more requests than its endpoint has made.
pub open spec fn not_overstated(b: BoardView) -> bool {
    forall|i: int|
        0 <= i < b.results.len() ==> (#[trigger] b.results[i]).total_requests
            <= b.apis[i].total_requests
}

proof fn lemma_plain_update(s: Seq<usize>, i: int, n: usize)
    requires
        0 <= i < s.len(),
    ensures
        plain_sum(s.update(i, n)) == plain_sum(s) - s[i] + n,
        s[i] <= plain_sum(s),
    decreases s.len(),
{
    let u = s.update(i, n);
    lemma_plain_positive(s.drop_last());
    if i == s.len() - 1 {
        assert(u.drop_last() == s.drop_last());
    } else {
        lemma_plain_update(s.drop_last(), i, n);
        assert(u.drop_last() == s.drop_last().update(i, n));
    }
}

proof fn lemma_plain_positive(s: Seq<usize>)
    ensures
        plain_sum(s) >= 0,
    decreases s.len(),
{
    if s.len() > 0 {
        lemma_plain_positive(s.drop_last());
    }
}

/// The endpoint at `index` has made `n` requests more, and the tallies of the others are as they
/// were.
proof fn lemma_requests_step(b: BoardView, next: BoardView, index: int, n: usize)
    requires
        not_overstated(b),
        0 <= index < b.apis.len(),
        b.results.len() == b.apis.len(),
        next.apis.len() == b.apis.len(),
        next.results == b.results,
        next.apis[index].total_requests == b.apis[index].total_requests + n,
        forall|i: int|
            0 <= i < b.apis.len() && i != index ==> (#[trigger] next.apis[i]).total_requests
                == b.apis[i].total_requests,
    ensures
        not_overstated(next),
        plain_sum(totals(next.apis)) == plain_sum(totals(b.apis)) + n,
{
    let total = next.apis[index].total_requests;
    assert(totals(next.apis) == totals(b.apis).update(index, total));
    lemma_plain_update(totals(b.apis), index, total);
    assert forall|i: int| 0 <= i < next.results.len() implies (
    #[trigger] next.results[i]).total_requests <= next.apis[i].total_requests by {
        assert(b.results[i].total_requests <= b.apis[i].total_requests);
        if i != index {
            assert(next.apis[i].total_requests == b.apis[i].total_requests);
        }
    }
}

proof fn lemma_requests(history: Seq<Happening>)
    requires
        can_happen(history),
        requests_in(history) <= usize::MAX,
    ensures
        not_overstated(board_after(history)),
        plain_sum(totals(board_after(history).apis)) == requests_in(history),
    decreases history.len(),
{
    if history.len() == 0 {
        assert(totals(fresh_board().apis).len() == 0);
    } else {
        let earlier = history.drop_last();
        let h = history.last();
        let b = board_after(earlier);
        let next = board_after(history);
        lemma_happened_last(history);
        lemma_requests(earlier);
        law_run_counts_its_history(earlier);
        match h {
            Happening::Joined { .. } => {
                assert(totals(next.apis).drop_last() == totals(b.apis));
                assert forall|i: int| 0 <= i < next.results.len() implies (
                #[trigger] next.results[i]).total_requests <= next.apis[i].total_requests by {
                    if i < b.results.len() {
                        assert(b.results[i].total_requests <= b.apis[i].total_requests);
                    }
                }
            },
            Happening::Started { index } => {
                lemma_requests_step(b, next, index as int, 0);
            },
            Happening::Answered { index, .. } => {
                lemma_plain_update(totals(b.apis), index as int, 0);
                lemma_requests_step(b, next, index as int, 1);
            },
            Happening::NotSent { index, .. } => {
                lemma_plain_update(totals(b.apis), index as int, 0);
                lemma_requests_step(b, next, index as int, 1);
            },
            Happening::Chunk { index, .. } => {
                lemma_requests_step(b, next, index as int, 0);
            },
            Happening::BrokeOff { index, .. } => {
                lemma_requests_step(b, next, index as int, 0);
            },
            Happening::BodyEnded { index, .. } => {
                lemma_requests_step(b, next, index as int, 0);
            },
            Happening::Judged { judgement } => {
                lemma_requests_step(b, next, judgement.index as int, 0);
            },
            Happening::Published { .. } => {
                assert forall|i: int| 0 <= i < next.results.len() implies (
                #[trigger] next.results[i]).total_requests <= next.apis[i].total_requests by {
                    assert(b.results[i].total_requests <= b.apis[i].total_requests);
                }
            },
            Happening::Reported { .. } => {
                assert forall|i: int| 0 <= i < next.results.len() implies (
                #[trigger] next.results[i]).total_requests <= next.apis[i].total_requests by {
                    assert(b.results[i].total_requests <= b.apis[i].total_requests);
                }
            },
            Happening::Concluded { .. } => {
                assert forall|i: int| 0 <= i < next.results.len() implies (
                #[trigger] next.results[i]).total_requests <= next.apis[i].total_requests by {
                    assert(b.results[i].total_requests <= b.apis[i].total_requests);
                }
            },
        }
    }
}

proof fn lemma_told_sum(results: Seq<ApiView>, made: Seq<usize>)
    requires
        results.len() == made.len(),
        forall|i: int|
            0 <= i < results.len() ==> (#[trigger] results[i]).total_requests <= made[i],
    ensures
        told_sum(results) <= plain_sum(made),
    decreases results.len(),
{
    if results.len() > 0 {
        assert forall|i: int| 0 <= i < results.drop_last().len() implies (
        #[trigger] results.drop_last()[i]).total_requests <= made.drop_last()[i] by {
            assert(results[i].total_requests <= made[i]);
        }
        lemma_told_sum(results.drop_last(), made.drop_last());
        assert(results[results.len() - 1].total_requests <= made[made.len() - 1]);
    }
}

/// Whatever happens in a run, as long as its requests can be counted: a report tells of the
/// requests that were made, the result of an endpoint never tells of more requests than the
/// endpoint has made, and the results of a report taken together never tell of more requests than
/// the report does.
pub proof fn law_results_never_overstate(history: Seq<Happening>, elapsed: u128, timestamp: u128)
    requires
        can_happen(history),
        requests_in(history) <= usize::MAX,
    ensures
        ({
            let b = board_after(history);
            let report = b.report(elapsed, timestamp);
            &&& report.total_requests == requests_in(history)
            &&& plain_sum(totals(b.apis)) == report.total_requests
            &&& forall|i: int|
                0 <= i < b.results.len() ==> (#[trigger] b.results[i]).total_requests
                    <= b.apis[i].total_requests
            &&& told_sum(report.api_results) <= report.total_requests
        }),
{
    law_run_counts_its_history(history);
    law_fitting_is_not_wrapped(requests_in(history) as int);
    lemma_requests(history);
    let b = board_after(history);
    let results = all_rated(b.results, elapsed);
    assert forall|i: int| 0 <= i < results.len() implies (#[trigger] results[i]).total_requests
        <= totals(b.apis)[i] by {
        assert(b.results[i].total_requests <= b.apis[i].total_requests);
    }
    lemma_told_sum(results, totals(b.apis));
}

proof fn lemma_extremes_enclose(times: Seq<u64>, i: int)
    requires
        0 <= i < times.len(),
    ensures
        smallest(times) <= times[i] <= largest(times),
    decreases times.len(),
{
    if i < times.len() - 1 {
        lemma_extremes_enclose(times.drop_last(), i);
    }
}

/// Whatever happens in a run: its longest response time is the longest of all that were measured,
/// and its shortest is the shortest.
pub proof fn law_run_has_its_extremes(history: Seq<Happening>)
    ensures
        board_after(history).run.max_response_time == largest(times_in(history)),
        board_after(history).run.min_response_time == smallest(times_in(history)),
    decreases history.len(),
{
    if history.len() > 0 {
        law_run_has_its_extremes(history.drop_last());
        match history.last() {
            Happening::Answered { millis, .. } => {
                assert(times_in(history).drop_last() == times_in(history.drop_last()));
                assert(times_in(history).last() == millis);
            },
            _ => {},
        }
    }
}

/// Whatever happens in a run: the longest response time of an endpoint is the longest of those
/// that were measured of it, and its shortest is the shortest.
pub proof fn law_endpoints_have_their_extremes(history: Seq<Happening>, index: int)
    requires
        can_happen(history),
        0 <= index,
    ensures
        index < board_after(history).apis.len() ==> {
            let api = board_after(history).apis[index];
            &&& api.max_response_time == largest(times_at(history, index))
            &&& api.min_response_time == smallest(times_at(history, index))
        },
        index >= board_after(history).apis.len() ==> times_at(history, index).len() == 0,
    decreases history.len(),
{
    if history.len() > 0 {
        let earlier = history.drop_last();
        law_endpoints_have_their_extremes(earlier, index);
        match history.last() {
            Happening::Answered { index: at, millis, .. } => if at == index {
                assert(times_at(history, index).drop_last() == times_at(earlier, index));
                assert(times_at(history, index).last() == millis);
            },
            _ => {},
        }
    }
}

/// The shortest response time of a result is no longer than its longest.
pub open spec fn results_enclose(results: Seq<ApiView>) -> bool {
    forall|i: int|
        0 <= i < results.len() ==> (#[trigger] results[i]).min_response_time
            <= results[i].max_response_time
}

proof fn lemma_results_enclose(history: Seq<Happening>)
    requires
        can_happen(history),
        published_after_answers(history),
    ensures
        results_enclose(board_after(history).results),
    decreases history.len(),
{
    if history.len() > 0 {
        let earlier = history.drop_last();
        let b = board_after(earlier);
        let next = board_after(history);
        lemma_results_enclose(earlier);
        if let Happening::Published { index, .. } = history.last() {
            law_endpoints_have_their_extremes(earlier, index as int);
            lemma_extremes_enclose(times_at(earlier, index as int), 0);
        }
        law_run_counts_its_history(earlier);
        assert forall|i: int| 0 <= i < next.results.len() implies (
        #[trigger] next.results[i]).min_response_time <= next.results[i].max_response_time by {
            if i < b.results.len() {
                assert(b.results[i].min_response_time <= b.results[i].max_response_time);
            }
        }
    }
}

/// Once a response was timed, the shortest time of every report of the run, and of its
/// conclusion, is no longer than the longest, and every time that was measured lies between them.
/// The same holds of the result of each endpoint, where results are taken after a response came.
pub proof fn law_reports_enclose_their_times(
    history: Seq<Happening>,
    elapsed: u128,
    timestamp: u128,
)
    requires
        can_happen(history),
    ensures
        ({
            let b = board_after(history);
            let report = b.report(elapsed, timestamp);
            let end = b.conclusion(elapsed, timestamp);
            &&& times_in(history).len() > 0 ==> report.min_response_time
                <= report.max_response_time
            &&& forall|i: int|
                0 <= i < times_in(history).len() ==> report.min_response_time <= #[trigger] times_in(
                    history,
                )[i] <= report.max_response_time
            &&& end.min_response_time == report.min_response_time
            &&& end.max_response_time == report.max_response_time
            &&& published_after_answers(history) ==> results_enclose(report.api_results)
                && results_enclose(end.api_results)
        }),
{
    law_run_has_its_extremes(history);
    let times = times_in(history);
    if times.len() > 0 {
        lemma_extremes_enclose(times, 0);
    }
    assert forall|i: int| 0 <= i < times.len() implies smallest(times) <= #[trigger] times[i]
        <= largest(times) by {
        lemma_extremes_enclose(times, i);
    }
    if published_after_answers(history) {
        lemma_results_enclose(history);
        let results = board_after(history).results;
        let rated = all_rated(results, elapsed);
        assert forall|i: int| 0 <= i < rated.len() implies (#[trigger] rated[i]).min_response_time
            <= rated[i].max_response_time by {
            assert(results[i].min_response_time <= results[i].max_response_time);
        }
    }
}

} // verus!
