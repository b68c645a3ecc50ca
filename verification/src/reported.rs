//! Reports: what a report tells of a run, told from what happened in it.

use vstd::arithmetic::power2::lemma2_to64;
use vstd::prelude::*;
use vstd::utf8::valid_utf8;

use crate::board::{
    all_rated, fresh_board, largest, smallest, ApiView, BatchView, BoardView,
};
use crate::error_stats::counted_all;
use crate::history::{
    after, assert_errors_in, board_after, can_happen, errors_in, happened, http_errors_in,
    is_error, is_request, law_endpoints_have_their_extremes, law_run_counts_its_history,
    law_run_has_its_extremes, possible, requests_in, times_at, times_in, Happening,
};
use crate::latency::{
    counted_in, counted_upto, counters_of, law_percentile_of_times, no_samples, percentiles_rank,
    starts_rank,
};
use crate::net::{parsed_url, url_host, url_path};
use crate::tally::{
    fresh_tally, law_fitting_is_not_wrapped, law_wrapping_goes_on, wrapped, Mark, TallyView,
    LATENCY_END,
};
use crate::text::uppercased;

verus! {

/// A request succeeds: a body ends that came with a good status and that no assertion is made on,
/// printable where it has to be, or a judgement is a pass.
pub open spec fn is_success(h: Happening) -> bool {
    match h {
        Happening::BodyEnded { verbose, endpoint, status, body, .. } => {
            &&& 200 <= status < 209 || status == 226 || (300 <= status < 309 && status != 306)
            &&& endpoint.assert_options is None
            &&& verbose ==> valid_utf8(body)
        },
        Happening::Judged { judgement } => judgement.verdict is Passed,
        _ => false,
    }
}

/// How many requests succeeded.
pub open spec fn successes_in(history: Seq<Happening>) -> nat {
    happened(history, |h: Happening| is_success(h))
}

/// How many workers started.
pub open spec fn workers_in(history: Seq<Happening>) -> nat {
    happened(history, |h: Happening| h is Started)
}

/// How many bytes of responses came, of headers and of bodies.
pub open spec fn bytes_in(history: Seq<Happening>) -> nat
    decreases history.len(),
{
    if history.len() == 0 {
        0
    } else {
        bytes_in(history.drop_last()) + (match history.last() {
            Happening::Answered { size, .. } => size as nat,
            Happening::Chunk { size, .. } => size as nat,
            _ => 0,
        })
    }
}

/// The endpoint that a happening is one of.
pub open spec fn place_of(h: Happening) -> Option<usize> {
    match h {
        Happening::Started { index } => Some(index),
        Happening::Answered { index, .. } => Some(index),
        Happening::NotSent { index, .. } => Some(index),
        Happening::Chunk { index, .. } => Some(index),
        Happening::BrokeOff { index, .. } => Some(index),
        Happening::BodyEnded { index, .. } => Some(index),
        Happening::Judged { judgement } => Some(judgement.index),
        _ => None,
    }
}

/// What happened at one endpoint.
pub open spec fn history_at(history: Seq<Happening>, index: int) -> Seq<Happening>
    decreases history.len(),
{
    if history.len() == 0 {
        Seq::empty()
    } else {
        let earlier = history_at(history.drop_last(), index);
        if place_of(history.last()) matches Some(at) && at == index {
            earlier.push(history.last())
        } else {
            earlier
        }
    }
}

/// The endpoints that joined, in their order: their names, URLs and methods.
pub open spec fn joined_in(history: Seq<Happening>) -> Seq<(Seq<char>, Seq<char>, Seq<char>)>
    decreases history.len(),
{
    if history.len() == 0 {
        Seq::empty()
    } else {
        match history.last() {
            Happening::Joined { name, url, method } => joined_in(history.drop_last()).push(
                (name, url, method),
            ),
            _ => joined_in(history.drop_last()),
        }
    }
}

/// A tally counts what happened, wrapping around.
pub open spec fn tells(t: TallyView, history: Seq<Happening>) -> bool {
    &&& t.total_requests == wrapped(requests_in(history) as int)
    &&& t.successful_requests == wrapped(successes_in(history) as int)
    &&& t.err_count == wrapped(errors_in(history) as int)
    &&& t.response_bytes == wrapped(bytes_in(history) as int)
    &&& t.concurrent_number == wrapped(workers_in(history) as int)
}

/// How a happening changes the tallies that count it.
proof fn lemma_told(t: TallyView, u: TallyView, earlier: Seq<Happening>, h: Happening)
    requires
        tells(t, earlier),
        u.total_requests == (if is_request(h) {
            t.total_requests.wrapping_add(1)
        } else {
            t.total_requests
        }),
        u.successful_requests == (if is_success(h) {
            t.successful_requests.wrapping_add(1)
        } else {
            t.successful_requests
        }),
        u.err_count == (if is_error(h) {
            t.err_count.wrapping_add(1)
        } else {
            t.err_count
        }),
        u.response_bytes == (match h {
            Happening::Answered { size, .. } => t.response_bytes.wrapping_add(size),
            Happening::Chunk { size, .. } => t.response_bytes.wrapping_add(size),
            _ => t.response_bytes,
        }),
        u.concurrent_number == (if h is Started {
            t.concurrent_number.wrapping_add(1)
        } else {
            t.concurrent_number
        }),
    ensures
        tells(u, earlier.push(h)),
{
    let history = earlier.push(h);
    assert(history.drop_last() == earlier);
    law_wrapping_goes_on(requests_in(earlier) as int, t.total_requests, 1);
    law_wrapping_goes_on(successes_in(earlier) as int, t.successful_requests, 1);
    law_wrapping_goes_on(errors_in(earlier) as int, t.err_count, 1);
    law_wrapping_goes_on(workers_in(earlier) as int, t.concurrent_number, 1);
    match h {
        Happening::Answered { size, .. } => {
            law_wrapping_goes_on(bytes_in(earlier) as int, t.response_bytes, size);
        },
        Happening::Chunk { size, .. } => {
            law_wrapping_goes_on(bytes_in(earlier) as int, t.response_bytes, size);
        },
        _ => {},
    }
}

proof fn lemma_nothing_told()
    ensures
        tells(fresh_tally(), Seq::empty()),
{
    law_fitting_is_not_wrapped(0);
}

/// A happening counts what it is: at the run, and at its endpoint; the other endpoints stay.
proof fn lemma_happening_told(
    b: BoardView,
    h: Happening,
    earlier: Seq<Happening>,
    index: int,
    own: Seq<Happening>,
)
    requires
        possible(b, h),
        tells(b.run, earlier),
        0 <= index < b.apis.len() ==> tells(b.apis[index], own),
    ensures
        tells(after(b, h).run, earlier.push(h)),
        after(b, h).apis.len() == b.apis.len() + (if h is Joined {
            1int
        } else {
            0
        }),
        0 <= index < b.apis.len() ==> tells(
            after(b, h).apis[index],
            if place_of(h) matches Some(at) && at == index {
                own.push(h)
            } else {
                own
            },
        ),
        h is Joined ==> after(b, h).apis[b.apis.len() as int] == fresh_tally(),
{
    let next = after(b, h);
    lemma_told(b.run, next.run, earlier, h);
    if let Some(at) = place_of(h) {
        if at == index {
            lemma_told(b.apis[index], next.apis[index], own, h);
        }
    }
}

/// Whatever happens in a run, and however its requests overlap: the tally of the run counts
/// exactly what happened, its requests, successes, errors, bytes and workers, and so does the
/// tally of each endpoint for what happened at it.
pub proof fn law_tallies_tell_the_history(history: Seq<Happening>, index: int)
    requires
        can_happen(history),
        0 <= index,
    ensures
        tells(board_after(history).run, history),
        board_after(history).apis.len() == joined_in(history).len(),
        index < board_after(history).apis.len() ==> tells(
            board_after(history).apis[index],
            history_at(history, index),
        ),
        index >= board_after(history).apis.len() ==> history_at(history, index).len() == 0,
    decreases history.len(),
{
    lemma_nothing_told();
    if history.len() == 0 {
        assert(history == Seq::<Happening>::empty());
    } else {
        let earlier = history.drop_last();
        let h = history.last();
        let own = history_at(earlier, index);
        law_tallies_tell_the_history(earlier, index);
        assert(earlier.push(h) == history);
        lemma_happening_told(board_after(earlier), h, earlier, index, own);
        lemma_place_has_joined(board_after(earlier), h);
        if index >= board_after(earlier).apis.len() {
            assert(own =~= Seq::<Happening>::empty());
        }
    }
}

/// What happens at an endpoint happens at one that has joined.
proof fn lemma_place_has_joined(b: BoardView, h: Happening)
    requires
        possible(b, h),
    ensures
        place_of(h) matches Some(at) ==> at < b.apis.len(),
        h is Joined ==> place_of(h) is None,
{
}

/// Whatever happens in a run: its histogram counts exactly the response times that were measured,
/// and that of each endpoint those that were measured of it.
pub proof fn law_histograms_count_the_times(history: Seq<Happening>, index: int)
    requires
        can_happen(history),
        0 <= index < board_after(history).apis.len(),
    ensures
        board_after(history).run.counters == counters_of(times_in(history), 14, 20),
        board_after(history).apis[index].counters == counters_of(times_at(history, index), 14, 20),
{
    lemma_run_histogram(history);
    lemma_own_histogram(history, index);
}

proof fn lemma_run_histogram(history: Seq<Happening>)
    ensures
        board_after(history).run.counters == counters_of(times_in(history), 14, 20),
    decreases history.len(),
{
    if history.len() > 0 {
        lemma_run_histogram(history.drop_last());
        if let Happening::Answered { millis, .. } = history.last() {
            assert(times_in(history).drop_last() == times_in(history.drop_last()));
            assert(times_in(history).last() == millis);
        }
    }
}

proof fn lemma_own_histogram(history: Seq<Happening>, index: int)
    requires
        can_happen(history),
        0 <= index < board_after(history).apis.len(),
    ensures
        board_after(history).apis[index].counters == counters_of(times_at(history, index), 14, 20),
    decreases history.len(),
{
    if history.len() > 0 {
        let earlier = history.drop_last();
        if index < board_after(earlier).apis.len() {
            lemma_own_histogram(earlier, index);
            if let Happening::Answered { index: at, millis, .. } = history.last() {
                if at == index {
                    assert(times_at(history, index).drop_last() == times_at(earlier, index));
                    assert(times_at(history, index).last() == millis);
                }
            }
        } else {
            law_endpoints_have_their_extremes(earlier, index);
            assert(times_at(history, index).len() == 0);
        }
    }
}

proof fn lemma_times_can_be_counted(history: Seq<Happening>, index: int)
    requires
        can_happen(history),
    ensures
        forall|i: int|
            0 <= i < times_in(history).len() ==> #[trigger] times_in(history)[i] != LATENCY_END,
        forall|i: int|
            0 <= i < times_at(history, index).len() ==> #[trigger] times_at(history, index)[i]
                != LATENCY_END,
    decreases history.len(),
{
    if history.len() > 0 {
        let earlier = history.drop_last();
        lemma_times_can_be_counted(earlier, index);
        assert forall|i: int| 0 <= i < times_in(history).len() implies #[trigger] times_in(
            history,
        )[i] != LATENCY_END by {
            if i < times_in(earlier).len() {
                assert(times_in(history)[i] == times_in(earlier)[i]);
            }
        }
        assert forall|i: int| 0 <= i < times_at(history, index).len() implies #[trigger] times_at(
            history,
            index,
        )[i] != LATENCY_END by {
            if i < times_at(earlier, index).len() {
                assert(times_at(history, index)[i] == times_at(earlier, index)[i]);
            }
        }
    }
}

/// A percentile that a report tells of a run, measured against the response times themselves: of
/// those that were counted, at least so many percent lie in a range that begins at what is told or
/// before, and fewer in one that begins before.
pub proof fn law_percentiles_are_of_the_times(history: Seq<Happening>, percent: int, value: u64)
    requires
        can_happen(history),
        times_in(history).len() <= u64::MAX,
        starts_rank(board_after(history).run.counters, 14, percent, value),
    ensures
        100 * counted_upto(times_in(history), 14, 20, value, false) >= percent * counted_in(
            times_in(history),
            20,
        ),
        value > 0 ==> 100 * counted_upto(times_in(history), 14, 20, value, true) < percent
            * counted_in(times_in(history), 20),
{
    lemma2_to64();
    lemma_run_histogram(history);
    lemma_times_can_be_counted(history, 0);
    law_percentile_of_times(times_in(history), 14, 20, percent, value);
}

/// A percentile that the result of an endpoint tells, measured against the response times of the
/// endpoint in the same way.
pub proof fn law_percentiles_are_of_the_endpoint(
    history: Seq<Happening>,
    index: int,
    percent: int,
    value: u64,
)
    requires
        can_happen(history),
        0 <= index < board_after(history).apis.len(),
        times_at(history, index).len() <= u64::MAX,
        starts_rank(board_after(history).apis[index].counters, 14, percent, value),
    ensures
        100 * counted_upto(times_at(history, index), 14, 20, value, false) >= percent * counted_in(
            times_at(history, index),
            20,
        ),
        value > 0 ==> 100 * counted_upto(times_at(history, index), 14, 20, value, true) < percent
            * counted_in(times_at(history, index), 20),
{
    lemma2_to64();
    lemma_own_histogram(history, index);
    lemma_times_can_be_counted(history, index);
    law_percentile_of_times(times_at(history, index), 14, 20, percent, value);
}

/// What a report tells of the run: its counts as they happened, its extremes, the errors that were
/// recorded, and when it was made.
pub open spec fn tells_of_run(
    r: BatchView,
    history: Seq<Happening>,
    elapsed: u128,
    timestamp: u128,
) -> bool {
    &&& r.elapsed == elapsed
    &&& r.timestamp == timestamp
    &&& r.total_requests == wrapped(requests_in(history) as int)
    &&& r.successful_requests == wrapped(successes_in(history) as int)
    &&& r.errors == wrapped(errors_in(history) as int)
    &&& r.err_count == r.errors as i32
    &&& r.data_bytes == wrapped(bytes_in(history) as int)
    &&& r.total_concurrent_number == (wrapped(workers_in(history) as int) as usize) as i32
    &&& r.max_response_time == largest(times_in(history))
    &&& r.min_response_time == smallest(times_in(history))
    &&& r.http_errors == counted_all(http_errors_in(history))
    &&& r.assert_errors == counted_all(assert_errors_in(history))
    &&& r.api_results.len() == joined_in(history).len()
}

/// Every report of a run, and its conclusion, tells of the run exactly what happened in it until
/// then. The requests that a report rates are those that are new since the last one, and those of
/// the conclusion are all; the errors per second of either are those that are new.
pub proof fn law_reports_tell_the_history(
    history: Seq<Happening>,
    elapsed: u128,
    timestamp: u128,
)
    requires
        can_happen(history),
    ensures
        ({
            let b = board_after(history);
            let report = b.report(elapsed, timestamp);
            let end = b.conclusion(elapsed, timestamp);
            &&& tells_of_run(report, history, elapsed, timestamp)
            &&& tells_of_run(end, history, elapsed, timestamp)
            &&& end.rated_requests == end.total_requests
            &&& b.run.total_requests >= b.last_requests ==> report.rated_requests
                == b.run.total_requests - b.last_requests
            &&& report.err_count as usize >= b.last_errors ==> report.errors_per_second
                == report.err_count as usize - b.last_errors
            &&& end.errors >= b.last_errors ==> end.errors_per_second == end.errors - b.last_errors
        }),
{
    law_tallies_tell_the_history(history, 0);
    law_run_counts_its_history(history);
    law_run_has_its_extremes(history);
    lemma_result_count(history);
}

proof fn lemma_result_count(history: Seq<Happening>)
    requires
        can_happen(history),
    ensures
        board_after(history).results.len() == joined_in(history).len(),
        board_after(history).drafts.len() == joined_in(history).len(),
{
    law_tallies_tell_the_history(history, 0);
    law_run_counts_its_history(history);
}

/// A result of an endpoint tells what the endpoint's tally counts, at the time it was taken.
pub open spec fn taken_from(r: ApiView, t: TallyView, elapsed: u128) -> bool {
    &&& r.total_requests == t.total_requests
    &&& r.successful_requests == t.successful_requests
    &&& r.err_count == t.err_count as i32
    &&& r.data_bytes == t.response_bytes
    &&& r.concurrent_number == t.concurrent_number as i32
    &&& r.max_response_time == t.max_response_time
    &&& r.min_response_time == t.min_response_time
    &&& r.sampled_at == Some(elapsed)
}

/// Taking the result of an endpoint: it tells what the endpoint's tally counts, under the
/// endpoint's name and URL and its method in upper case, and it is both reported and kept; every
/// other result, and everything that is counted, stays.
pub proof fn law_result_is_taken(
    b: BoardView,
    index: int,
    method: Seq<char>,
    elapsed: u128,
    other: int,
)
    requires
        0 <= index < b.apis.len(),
        b.results.len() == b.apis.len(),
        b.drafts.len() == b.apis.len(),
        0 <= other < b.apis.len(),
        other != index,
    ensures
        ({
            let next = b.published(index, method, elapsed);
            let r = next.results[index];
            &&& taken_from(r, b.apis[index], elapsed)
            &&& r.name == b.drafts[index].name
            &&& r.url == b.drafts[index].url
            &&& r.host == b.drafts[index].host
            &&& r.path == b.drafts[index].path
            &&& r.rated_at == b.drafts[index].rated_at
            &&& r.method == uppercased(method)
            &&& next.drafts[index] == r
            &&& next.results.len() == b.results.len()
            &&& next.drafts.len() == b.drafts.len()
            &&& next.results[other] == b.results[other]
            &&& next.drafts[other] == b.drafts[other]
            &&& next == (BoardView { results: next.results, drafts: next.drafts, ..b })
        }),
{
}

/// A report rates every result: its time is the report's, its host and path are those of its URL
/// where that is one, and its host stays where the URL has none; nothing else of it changes.
pub proof fn law_reports_rate_every_result(
    b: BoardView,
    elapsed: u128,
    timestamp: u128,
    i: int,
)
    requires
        0 <= i < b.results.len(),
    ensures
        ({
            let was = b.results[i];
            let r = b.report(elapsed, timestamp).api_results[i];
            let e = b.conclusion(elapsed, timestamp).api_results[i];
            &&& e == r
            &&& b.reported(elapsed).results[i] == r
            &&& b.concluded(elapsed).results[i] == r
            &&& r == (ApiView { host: r.host, path: r.path, rated_at: Some(elapsed), ..was })
            &&& parsed_url(was.url) is None ==> r.host == was.host && r.path == was.path
            &&& parsed_url(was.url) matches Some(url) ==> r.path == url_path(url) && (url_host(
                url,
            ) matches Some(host) ==> r.host == host) && (url_host(url) is None ==> r.host
                == was.host)
        }),
{
}

/// The results of a run are those of the endpoints that joined, in their order: each under the
/// name and the URL that its endpoint joined with, whatever happened since.
pub proof fn law_results_are_of_their_endpoints(history: Seq<Happening>, i: int)
    requires
        can_happen(history),
        0 <= i < joined_in(history).len(),
    ensures
        board_after(history).results[i].name == joined_in(history)[i].0,
        board_after(history).results[i].url == joined_in(history)[i].1,
        board_after(history).drafts[i].name == joined_in(history)[i].0,
        board_after(history).drafts[i].url == joined_in(history)[i].1,
    decreases history.len(),
{
    lemma_result_count(history);
    if history.len() > 0 {
        let earlier = history.drop_last();
        let b = board_after(earlier);
        let next = board_after(history);
        lemma_result_count(earlier);
        law_tallies_tell_the_history(earlier, 0);
        if i < joined_in(earlier).len() {
            law_results_are_of_their_endpoints(earlier, i);
            assert(joined_in(history)[i] == joined_in(earlier)[i]);
            match history.last() {
                Happening::Joined { .. } => {
                    assert(next.results[i] == b.results[i]);
                    assert(next.drafts[i] == b.drafts[i]);
                },
                Happening::Published { index, method, elapsed } => {
                    if i != index {
                        assert(next.results[i] == b.results[i]);
                        assert(next.drafts[i] == b.drafts[i]);
                    }
                },
                Happening::Reported { elapsed } => {
                    assert(next.results[i] == all_rated(b.results, elapsed)[i]);
                },
                Happening::Concluded { elapsed } => {
                    assert(next.results[i] == all_rated(b.results, elapsed)[i]);
                },
                _ => {
                    assert(next.results == b.results);
                    assert(next.drafts == b.drafts);
                },
            }
        }
    }
}

/// An endpoint that joins comes last, with its own name and URL, its method in upper case, and
/// nothing counted; whatever was there before it stays as it is.
pub proof fn law_joining_comes_last(
    b: BoardView,
    name: Seq<char>,
    url: Seq<char>,
    method: Seq<char>,
    i: int,
)
    requires
        b.results.len() == b.apis.len(),
        b.drafts.len() == b.apis.len(),
    ensures
        ({
            let next = b.joined(name, url, method);
            let n = b.apis.len() as int;
            let r = next.results[n];
            &&& next.apis.len() == n + 1 && next.results.len() == n + 1 && next.drafts.len() == n
                + 1
            &&& r.name == name && r.url == url && r.method == uppercased(method)
            &&& r.total_requests == 0 && r.successful_requests == 0 && r.err_count == 0
            &&& r.data_bytes == 0 && r.concurrent_number == 0
            &&& r.median_response_time == 0 && r.response_time_95 == 0 && r.response_time_99 == 0
            &&& r.max_response_time == 0 && r.min_response_time == 0
            &&& r.host == Seq::<char>::empty() && r.path == Seq::<char>::empty()
            &&& r.sampled_at is None && r.rated_at is None
            &&& next.drafts[n] == r
            &&& next.apis[n].total_requests == 0 && next.apis[n].successful_requests == 0
                && next.apis[n].err_count == 0 && next.apis[n].response_bytes == 0
                && next.apis[n].concurrent_number == 0
            &&& next.apis[n].max_response_time == 0 && next.apis[n].min_response_time == u64::MAX
            &&& next.apis[n].counters == no_samples(14, 20)
            &&& 0 <= i < n ==> next.results[i] == b.results[i] && next.drafts[i] == b.drafts[i]
                && next.apis[i] == b.apis[i]
            &&& next == (BoardView {
                apis: next.apis,
                results: next.results,
                drafts: next.drafts,
                ..b
            })
        }),
{
}

/// The requests that the last report of a run told of; none where there was no report. The report
/// at the end has no part in it.
pub open spec fn requests_told_of(history: Seq<Happening>) -> int
    decreases history.len(),
{
    if history.len() == 0 {
        0
    } else if history.last() is Reported {
        wrapped(requests_in(history) as int)
    } else {
        requests_told_of(history.drop_last())
    }
}

/// The errors that the last report of a run told of, at its end or before; none where there was no
/// report.
pub open spec fn errors_told_of(history: Seq<Happening>) -> int
    decreases history.len(),
{
    if history.len() == 0 {
        0
    } else if history.last() is Concluded {
        wrapped(errors_in(history) as int)
    } else if history.last() is Reported {
        ((wrapped(errors_in(history) as int) as usize) as i32) as usize as int
    } else {
        errors_told_of(history.drop_last())
    }
}

/// What is new in a report is new since the last one: whatever happens in a run, the requests that
/// a report rates and its errors per second are those of the run without those that the last
/// report told of, and all of them where there was none.
pub proof fn law_reports_tell_what_is_new(
    history: Seq<Happening>,
    elapsed: u128,
    timestamp: u128,
)
    requires
        can_happen(history),
    ensures
        ({
            let report = board_after(history).report(elapsed, timestamp);
            let end = board_after(history).conclusion(elapsed, timestamp);
            let requests = wrapped(requests_in(history) as int);
            let errors = wrapped(errors_in(history) as int);
            let shown = ((errors as usize) as i32) as usize;
            &&& requests >= requests_told_of(history) ==> report.rated_requests == requests
                - requests_told_of(history)
            &&& shown >= errors_told_of(history) ==> report.errors_per_second == shown
                - errors_told_of(history)
            &&& errors >= errors_told_of(history) ==> end.errors_per_second == errors
                - errors_told_of(history)
        }),
{
    law_tallies_tell_the_history(history, 0);
    lemma_told_of(history);
}

proof fn lemma_told_of(history: Seq<Happening>)
    requires
        can_happen(history),
    ensures
        board_after(history).last_requests == requests_told_of(history),
        board_after(history).last_errors == errors_told_of(history),
    decreases history.len(),
{
    if history.len() > 0 {
        lemma_told_of(history.drop_last());
        law_tallies_tell_the_history(history, 0);
    }
}

/// The value is a percentile of response times: of those that were counted, at least so many
/// percent lie in a range that begins at the value or before, and fewer in one that begins before.
pub open spec fn is_percentile_of(times: Seq<u64>, percent: int, value: u64) -> bool {
    &&& 100 * counted_upto(times, 14, 20, value, false) >= percent * counted_in(times, 20)
    &&& value > 0 ==> 100 * counted_upto(times, 14, 20, value, true) < percent * counted_in(
        times,
        20,
    )
}

/// The three response times of a report, and of its conclusion, are the 50th, the 95th and the
/// 99th percentile of the response times that were measured in the run until then, each of them
/// its own; and those of a result that is taken are the same of the endpoint's.
pub proof fn law_reports_tell_the_percentiles(
    history: Seq<Happening>,
    index: int,
    method: Seq<char>,
    elapsed: u128,
    timestamp: u128,
)
    requires
        can_happen(history),
        0 <= index < board_after(history).apis.len(),
        times_in(history).len() <= u64::MAX,
        times_at(history, index).len() <= u64::MAX,
    ensures
        percentiles_rank(board_after(history).run.counters, 14) ==> {
            let b = board_after(history);
            let report = b.report(elapsed, timestamp);
            let end = b.conclusion(elapsed, timestamp);
            let times = times_in(history);
            &&& is_percentile_of(times, 50, report.median_response_time)
            &&& is_percentile_of(times, 95, report.response_time_95)
            &&& is_percentile_of(times, 99, report.response_time_99)
            &&& is_percentile_of(times, 50, end.median_response_time)
            &&& is_percentile_of(times, 95, end.response_time_95)
            &&& is_percentile_of(times, 99, end.response_time_99)
        },
        percentiles_rank(board_after(history).apis[index].counters, 14) ==> {
            let result = board_after(history).published(index, method, elapsed).results[index];
            let own = times_at(history, index);
            &&& is_percentile_of(own, 50, result.median_response_time)
            &&& is_percentile_of(own, 95, result.response_time_95)
            &&& is_percentile_of(own, 99, result.response_time_99)
        },
{
    let b = board_after(history);
    let report = b.report(elapsed, timestamp);
    let result = b.published(index, method, elapsed).results[index];
    lemma_result_count(history);
    law_tallies_tell_the_history(history, 0);
    if percentiles_rank(b.run.counters, 14) {
        law_percentiles_are_of_the_times(history, 50, report.median_response_time);
        law_percentiles_are_of_the_times(history, 95, report.response_time_95);
        law_percentiles_are_of_the_times(history, 99, report.response_time_99);
    }
    if percentiles_rank(b.apis[index].counters, 14) {
        law_percentiles_are_of_the_endpoint(history, index, 50, result.median_response_time);
        law_percentiles_are_of_the_endpoint(history, index, 95, result.response_time_95);
        law_percentiles_are_of_the_endpoint(history, index, 99, result.response_time_99);
    }
}

} // verus!
