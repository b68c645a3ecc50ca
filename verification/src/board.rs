//! The board: everything that a run counts, for each endpoint and altogether, and the results
//! that are made of it.

use vstd::arithmetic::power2::{lemma2_to64, pow2};
use vstd::prelude::*;

use crate::error_stats::{
    assert_entries, counted_once, counts, http_entries, keys_apart, AssertErrKey, AssertErrKeyView,
    AssertErrorStats, ErrKey, ErrKeyView, HttpErrorStats,
};
use crate::latency::{few_samples, law_values_have_buckets, percentile_floor, starts_rank};
use crate::net::{host_text, parse_url, parsed_url, path_text, url_host, url_path};
use crate::tally::{
    fresh_tally, larger, markable, marked, smaller, Mark, Tally, TallyView, LATENCY_END,
};
use crate::text::{ascii_only, ascii_raised, to_upper, uppercased};

verus! {

/// The result of one endpoint. Rates are left to the reader: they are made of the counts and of
/// the times, in nanoseconds since the start, at which the counts were taken.
#[derive(Debug, Clone)]
pub struct ApiResult {
    pub name: String,
    pub url: String,
    pub host: String,
    pub path: String,
    pub method: String,
    pub median_response_time: u64,
    pub response_time_95: u64,
    pub response_time_99: u64,
    pub total_requests: u64,
    pub max_response_time: u64,
    pub min_response_time: u64,
    pub err_count: i32,
    pub concurrent_number: i32,
    pub successful_requests: usize,
    pub data_bytes: usize,
    /// When the counts were taken; `None` before the first response.
    pub sampled_at: Option<u128>,
    /// When the request rate was last taken.
    pub rated_at: Option<u128>,
}

/// What the result of an endpoint says.
pub struct ApiView {
    pub name: Seq<char>,
    pub url: Seq<char>,
    pub host: Seq<char>,
    pub path: Seq<char>,
    pub method: Seq<char>,
    pub median_response_time: u64,
    pub response_time_95: u64,
    pub response_time_99: u64,
    pub total_requests: u64,
    pub max_response_time: u64,
    pub min_response_time: u64,
    pub err_count: i32,
    pub concurrent_number: i32,
    pub successful_requests: usize,
    pub data_bytes: usize,
    pub sampled_at: Option<u128>,
    pub rated_at: Option<u128>,
}

impl View for ApiResult {
    type V = ApiView;

    open spec fn view(&self) -> ApiView {
        ApiView {
            name: self.name@,
            url: self.url@,
            host: self.host@,
            path: self.path@,
            method: self.method@,
            median_response_time: self.median_response_time,
            response_time_95: self.response_time_95,
            response_time_99: self.response_time_99,
            total_requests: self.total_requests,
            max_response_time: self.max_response_time,
            min_response_time: self.min_response_time,
            err_count: self.err_count,
            concurrent_number: self.concurrent_number,
            successful_requests: self.successful_requests,
            data_bytes: self.data_bytes,
            sampled_at: self.sampled_at,
            rated_at: self.rated_at,
        }
    }
}

impl ApiView {
    /// The median is no longer than the higher percentiles, and these no longer than the longest
    /// response time.
    pub open spec fn in_order(self) -> bool {
        self.median_response_time <= self.response_time_95 <= self.response_time_99
            <= self.max_response_time
    }
}

/// The result of an endpoint that nothing is known of.
pub open spec fn blank_result() -> ApiView {
    ApiView {
        name: Seq::empty(),
        url: Seq::empty(),
        host: Seq::empty(),
        path: Seq::empty(),
        method: Seq::empty(),
        median_response_time: 0,
        response_time_95: 0,
        response_time_99: 0,
        total_requests: 0,
        max_response_time: 0,
        min_response_time: 0,
        err_count: 0,
        concurrent_number: 0,
        successful_requests: 0,
        data_bytes: 0,
        sampled_at: None,
        rated_at: None,
    }
}

/// Results, one by one.
pub open spec fn api_views(s: Seq<ApiResult>) -> Seq<ApiView> {
    Seq::new(s.len(), |i: int| s[i]@)
}

impl ApiResult {
    /// The result of an endpoint that nothing is known of.
    pub fn new() -> (r: Self)
        ensures
            r@ == blank_result(),
    {
        ApiResult {
            name: String::new(),
            url: String::new(),
            host: String::new(),
            path: String::new(),
            method: String::new(),
            median_response_time: 0,
            response_time_95: 0,
            response_time_99: 0,
            total_requests: 0,
            max_response_time: 0,
            min_response_time: 0,
            err_count: 0,
            concurrent_number: 0,
            successful_requests: 0,
            data_bytes: 0,
            sampled_at: None,
            rated_at: None,
        }
    }

    /// The same result again.
    pub fn copy(&self) -> (r: ApiResult)
        ensures
            r@ == self@,
    {
        ApiResult {
            name: self.name.clone(),
            url: self.url.clone(),
            host: self.host.clone(),
            path: self.path.clone(),
            method: self.method.clone(),
            median_response_time: self.median_response_time,
            response_time_95: self.response_time_95,
            response_time_99: self.response_time_99,
            total_requests: self.total_requests,
            max_response_time: self.max_response_time,
            min_response_time: self.min_response_time,
            err_count: self.err_count,
            concurrent_number: self.concurrent_number,
            successful_requests: self.successful_requests,
            data_bytes: self.data_bytes,
            sampled_at: self.sampled_at,
            rated_at: self.rated_at,
        }
    }
}

/// A copy of a list of results.
fn results_copy(results: &Vec<ApiResult>) -> (r: Vec<ApiResult>)
    ensures
        api_views(r@) == api_views(results@),
{
    let mut r: Vec<ApiResult> = Vec::new();
    let mut i: usize = 0;
    while i < results.len()
        invariant
            0 <= i <= results.len(),
            api_views(r@) == api_views(results@).take(i as int),
        decreases results.len() - i,
    {
        let ghost before = api_views(r@);
        let copy = results[i].copy();
        let ghost view = copy@;
        r.push(copy);
        assert(api_views(r@) == before.push(view));
        i = i + 1;
    }
    assert(api_views(r@) == api_views(results@));
    r
}

/// The result of an endpoint, with its counts taken anew at `elapsed`.
pub open spec fn sampled(r: ApiView, t: TallyView, method: Seq<char>, elapsed: u128) -> ApiView {
    ApiView {
        method: uppercased(method),
        median_response_time: percentile_floor(t.counters, 14, 50),
        response_time_95: percentile_floor(t.counters, 14, 95),
        response_time_99: percentile_floor(t.counters, 14, 99),
        total_requests: t.total_requests as u64,
        max_response_time: t.max_response_time,
        min_response_time: t.min_response_time,
        err_count: t.err_count as i32,
        concurrent_number: t.concurrent_number as i32,
        successful_requests: t.successful_requests,
        data_bytes: t.response_bytes,
        sampled_at: Some(elapsed),
        ..r
    }
}

/// The result of an endpoint, with its request rate, host and path taken at `elapsed`.
pub open spec fn rated(r: ApiView, elapsed: u128) -> ApiView {
    match parsed_url(r.url) {
        None => ApiView { rated_at: Some(elapsed), ..r },
        Some(url) => ApiView {
            rated_at: Some(elapsed),
            host: match url_host(url) {
                Some(host) => host,
                None => r.host,
            },
            path: url_path(url),
            ..r
        },
    }
}

/// Results with their request rates, hosts and paths taken at `elapsed`.
pub open spec fn all_rated(s: Seq<ApiView>, elapsed: u128) -> Seq<ApiView> {
    Seq::new(s.len(), |i: int| rated(s[i], elapsed))
}

/// The result of a run. Rates are left to the reader: they are made of the counts and of the
/// time, in nanoseconds since the start, at which the counts were taken.
#[derive(Debug, Clone)]
pub struct BatchResult {
    pub elapsed: u128,
    pub successful_requests: usize,
    pub errors: usize,
    pub median_response_time: u64,
    pub response_time_95: u64,
    pub response_time_99: u64,
    pub total_requests: u64,
    /// The requests that the request rate is made of.
    pub rated_requests: usize,
    pub max_response_time: u64,
    pub min_response_time: u64,
    pub err_count: i32,
    pub data_bytes: usize,
    pub http_errors: Vec<(ErrKey, u32)>,
    pub timestamp: u128,
    pub assert_errors: Vec<(AssertErrKey, u32)>,
    pub total_concurrent_number: i32,
    pub api_results: Vec<ApiResult>,
    pub errors_per_second: usize,
}

/// What the result of a run says.
pub struct BatchView {
    pub elapsed: u128,
    pub successful_requests: usize,
    pub errors: usize,
    pub median_response_time: u64,
    pub response_time_95: u64,
    pub response_time_99: u64,
    pub total_requests: u64,
    pub rated_requests: usize,
    pub max_response_time: u64,
    pub min_response_time: u64,
    pub err_count: i32,
    pub data_bytes: usize,
    pub http_errors: Map<ErrKeyView, u32>,
    pub timestamp: u128,
    pub assert_errors: Map<AssertErrKeyView, u32>,
    pub total_concurrent_number: i32,
    pub api_results: Seq<ApiView>,
    pub errors_per_second: usize,
}

impl View for BatchResult {
    type V = BatchView;

    open spec fn view(&self) -> BatchView {
        BatchView {
            elapsed: self.elapsed,
            successful_requests: self.successful_requests,
            errors: self.errors,
            median_response_time: self.median_response_time,
            response_time_95: self.response_time_95,
            response_time_99: self.response_time_99,
            total_requests: self.total_requests,
            rated_requests: self.rated_requests,
            max_response_time: self.max_response_time,
            min_response_time: self.min_response_time,
            err_count: self.err_count,
            data_bytes: self.data_bytes,
            http_errors: counts(http_entries(self.http_errors@)),
            timestamp: self.timestamp,
            assert_errors: counts(assert_entries(self.assert_errors@)),
            total_concurrent_number: self.total_concurrent_number,
            api_results: api_views(self.api_results@),
            errors_per_second: self.errors_per_second,
        }
    }
}

impl BatchView {
    /// The response times of the run, and those of every endpoint, are in order.
    pub open spec fn in_order(self) -> bool {
        &&& self.median_response_time <= self.response_time_95 <= self.response_time_99
            <= self.max_response_time
        &&& forall|i: int|
            0 <= i < self.api_results.len() ==> (#[trigger] self.api_results[i]).in_order()
    }
}

impl BatchResult {
    /// Every error is listed once.
    pub open spec fn keys_apart(&self) -> bool {
        keys_apart(http_entries(self.http_errors@)) && keys_apart(
            assert_entries(self.assert_errors@),
        )
    }
}

/// Everything that a run counts.
pub struct Board {
    run: Tally,
    apis: Vec<Tally>,
    http_errors: HttpErrorStats,
    assert_errors: AssertErrorStats,
    drafts: Vec<ApiResult>,
    results: Vec<ApiResult>,
    last_errors: usize,
    last_requests: usize,
}

/// What a board says.
#[verifier::ext_equal]
pub struct BoardView {
    /// The tally of the whole run.
    pub run: TallyView,
    /// The tally of each endpoint.
    pub apis: Seq<TallyView>,
    pub http_errors: Map<ErrKeyView, u32>,
    pub assert_errors: Map<AssertErrKeyView, u32>,
    /// The result of each endpoint as its workers write it.
    pub drafts: Seq<ApiView>,
    /// The result of each endpoint as it is reported.
    pub results: Seq<ApiView>,
    /// How many errors were reported so far.
    pub last_errors: usize,
    /// How many requests were reported so far.
    pub last_requests: usize,
}

/// Tallies, one by one.
pub open spec fn tally_views(s: Seq<Tally>) -> Seq<TallyView> {
    Seq::new(s.len(), |i: int| s[i]@)
}

impl View for Board {
    type V = BoardView;

    closed spec fn view(&self) -> BoardView {
        BoardView {
            run: self.run@,
            apis: tally_views(self.apis@),
            http_errors: self.http_errors@,
            assert_errors: self.assert_errors@,
            drafts: api_views(self.drafts@),
            results: api_views(self.results@),
            last_errors: self.last_errors,
            last_requests: self.last_requests,
        }
    }
}

/// The sum of numbers, wrapping around.
pub open spec fn wrapping_sum(s: Seq<usize>) -> usize
    decreases s.len(),
{
    if s.len() == 0 {
        0
    } else {
        wrapping_sum(s.drop_last()).wrapping_add(s.last())
    }
}

/// The sum of counters, wrapping around.
pub open spec fn wrapping_total(s: Seq<u64>) -> u64
    decreases s.len(),
{
    if s.len() == 0 {
        0
    } else {
        wrapping_total(s.drop_last()).wrapping_add(s.last())
    }
}

/// The largest of numbers; 0 where there are none.
pub open spec fn largest(s: Seq<u64>) -> u64
    decreases s.len(),
{
    if s.len() == 0 {
        0
    } else {
        larger(largest(s.drop_last()), s.last())
    }
}

/// The smallest of numbers; the largest possible one where there are none.
pub open spec fn smallest(s: Seq<u64>) -> u64
    decreases s.len(),
{
    if s.len() == 0 {
        u64::MAX
    } else {
        smaller(smallest(s.drop_last()), s.last())
    }
}

/// The requests of each tally.
pub open spec fn totals(s: Seq<TallyView>) -> Seq<usize> {
    Seq::new(s.len(), |i: int| s[i].total_requests)
}

/// The successes of each tally.
pub open spec fn successes(s: Seq<TallyView>) -> Seq<usize> {
    Seq::new(s.len(), |i: int| s[i].successful_requests)
}

/// The errors of each tally.
pub open spec fn failures(s: Seq<TallyView>) -> Seq<usize> {
    Seq::new(s.len(), |i: int| s[i].err_count)
}

/// The bytes of each tally.
pub open spec fn sizes(s: Seq<TallyView>) -> Seq<usize> {
    Seq::new(s.len(), |i: int| s[i].response_bytes)
}

/// The workers of each tally.
pub open spec fn workers(s: Seq<TallyView>) -> Seq<usize> {
    Seq::new(s.len(), |i: int| s[i].concurrent_number)
}

/// The longest response time of each tally.
pub open spec fn maxima(s: Seq<TallyView>) -> Seq<u64> {
    Seq::new(s.len(), |i: int| s[i].max_response_time)
}

/// The shortest response time of each tally.
pub open spec fn minima(s: Seq<TallyView>) -> Seq<u64> {
    Seq::new(s.len(), |i: int| s[i].min_response_time)
}

/// One counter of each tally's histogram.
pub open spec fn column(s: Seq<TallyView>, bucket: int) -> Seq<u64> {
    Seq::new(s.len(), |i: int| s[i].counters[bucket])
}

/// The tally of the run is made of the tallies of the endpoints: its counts are their sums, its
/// extremes are theirs, and its histogram counts what theirs count.
pub open spec fn adds_up(run: TallyView, apis: Seq<TallyView>) -> bool {
    &&& run.total_requests == wrapping_sum(totals(apis))
    &&& run.successful_requests == wrapping_sum(successes(apis))
    &&& run.err_count == wrapping_sum(failures(apis))
    &&& run.response_bytes == wrapping_sum(sizes(apis))
    &&& run.concurrent_number == wrapping_sum(workers(apis))
    &&& run.max_response_time == largest(maxima(apis))
    &&& run.min_response_time == smallest(minima(apis))
    &&& run.counters.len() == fresh_tally().counters.len()
    &&& forall|i: int| 0 <= i < apis.len() ==> #[trigger] apis[i].counters.len()
        == run.counters.len()
    &&& forall|b: int|
        0 <= b < run.counters.len() ==> #[trigger] run.counters[b] == wrapping_total(
            column(apis, b),
        )
}

impl BoardView {
    /// There is a tally, a draft and a result for each endpoint, and they add up; only so many
    /// errors are listed.
    pub open spec fn wf(self) -> bool {
        &&& self.drafts.len() == self.apis.len()
        &&& self.results.len() == self.apis.len()
        &&& self.http_errors.dom().finite()
        &&& self.assert_errors.dom().finite()
        &&& adds_up(self.run, self.apis)
    }

    /// The board after a mark on an endpoint.
    pub open spec fn marked(self, index: int, m: Mark) -> BoardView {
        BoardView {
            run: marked(self.run, m),
            apis: self.apis.update(index, marked(self.apis[index], m)),
            ..self
        }
    }
}

proof fn lemma_sum_update(s: Seq<usize>, i: int, n: usize)
    requires
        0 <= i < s.len(),
    ensures
        wrapping_sum(s.update(i, s[i].wrapping_add(n))) == wrapping_sum(s).wrapping_add(n),
    decreases s.len(),
{
    let u = s.update(i, s[i].wrapping_add(n));
    if i == s.len() - 1 {
        assert(u.drop_last() == s.drop_last());
    } else {
        lemma_sum_update(s.drop_last(), i, n);
        assert(u.drop_last() == s.drop_last().update(i, s[i].wrapping_add(n)));
    }
}

proof fn lemma_total_update(s: Seq<u64>, i: int, n: u64)
    requires
        0 <= i < s.len(),
    ensures
        wrapping_total(s.update(i, s[i].wrapping_add(n))) == wrapping_total(s).wrapping_add(n),
    decreases s.len(),
{
    let u = s.update(i, s[i].wrapping_add(n));
    if i == s.len() - 1 {
        assert(u.drop_last() == s.drop_last());
    } else {
        lemma_total_update(s.drop_last(), i, n);
        assert(u.drop_last() == s.drop_last().update(i, s[i].wrapping_add(n)));
    }
}

proof fn lemma_largest_update(s: Seq<u64>, i: int, n: u64)
    requires
        0 <= i < s.len(),
    ensures
        largest(s.update(i, larger(s[i], n))) == larger(largest(s), n),
    decreases s.len(),
{
    let u = s.update(i, larger(s[i], n));
    if i == s.len() - 1 {
        assert(u.drop_last() == s.drop_last());
    } else {
        lemma_largest_update(s.drop_last(), i, n);
        assert(u.drop_last() == s.drop_last().update(i, larger(s[i], n)));
    }
}

proof fn lemma_smallest_update(s: Seq<u64>, i: int, n: u64)
    requires
        0 <= i < s.len(),
    ensures
        smallest(s.update(i, smaller(s[i], n))) == smaller(smallest(s), n),
    decreases s.len(),
{
    let u = s.update(i, smaller(s[i], n));
    if i == s.len() - 1 {
        assert(u.drop_last() == s.drop_last());
    } else {
        lemma_smallest_update(s.drop_last(), i, n);
        assert(u.drop_last() == s.drop_last().update(i, smaller(s[i], n)));
    }
}

/// Whatever happens to a request, the tallies of the endpoints go on adding up to the tally of
/// the run.
pub proof fn law_marks_add_up(b: BoardView, index: int, m: Mark)
    requires
        b.wf(),
        0 <= index < b.apis.len(),
        markable(m),
    ensures
        b.marked(index, m).wf(),
{
    let after = b.marked(index, m);
    let was = b.apis[index];
    let now = marked(was, m);
    let apis = after.apis;
    assert(totals(apis) == totals(b.apis).update(index, now.total_requests));
    assert(successes(apis) == successes(b.apis).update(index, now.successful_requests));
    assert(failures(apis) == failures(b.apis).update(index, now.err_count));
    assert(sizes(apis) == sizes(b.apis).update(index, now.response_bytes));
    assert(workers(apis) == workers(b.apis).update(index, now.concurrent_number));
    assert(maxima(apis) == maxima(b.apis).update(index, now.max_response_time));
    assert(minima(apis) == minima(b.apis).update(index, now.min_response_time));
    match m {
        Mark::Started => {
            lemma_sum_update(workers(b.apis), index, 1);
        },
        Mark::Requested => {
            lemma_sum_update(totals(b.apis), index, 1);
        },
        Mark::Timed(millis) => {
            lemma_largest_update(maxima(b.apis), index, millis);
            lemma_smallest_update(minima(b.apis), index, millis);
            lemma2_to64();
            if millis < pow2(20) {
                law_values_have_buckets(14, 20, millis);
            }
        },
        Mark::Received(n) => {
            lemma_sum_update(sizes(b.apis), index, n);
        },
        Mark::Failed => {
            lemma_sum_update(failures(b.apis), index, 1);
        },
        Mark::Succeeded => {
            lemma_sum_update(successes(b.apis), index, 1);
        },
    }
    assert(totals(b.apis).update(index, was.total_requests) == totals(b.apis));
    assert(successes(b.apis).update(index, was.successful_requests) == successes(b.apis));
    assert(failures(b.apis).update(index, was.err_count) == failures(b.apis));
    assert(sizes(b.apis).update(index, was.response_bytes) == sizes(b.apis));
    assert(workers(b.apis).update(index, was.concurrent_number) == workers(b.apis));
    assert(maxima(b.apis).update(index, was.max_response_time) == maxima(b.apis));
    assert(minima(b.apis).update(index, was.min_response_time) == minima(b.apis));
    assert forall|i: int| 0 <= i < apis.len() implies #[trigger] apis[i].counters.len()
        == after.run.counters.len() by {
        assert(b.apis[i].counters.len() == b.run.counters.len());
    }
    assert forall|k: int| 0 <= k < after.run.counters.len() implies #[trigger] after.run.counters[k]
        == wrapping_total(column(apis, k)) by {
        assert(b.run.counters[k] == wrapping_total(column(b.apis, k)));
        assert(b.apis[index].counters.len() == b.run.counters.len());
        assert(column(apis, k) == column(b.apis, k).update(index, now.counters[k]));
        if now.counters[k] == was.counters[k] && after.run.counters[k] == b.run.counters[k] {
            assert(column(apis, k) == column(b.apis, k));
        } else {
            lemma_total_update(column(b.apis, k), index, 1);
        }
    }
}

/// An endpoint that joins, with nothing counted, leaves the sums as they are.
pub proof fn law_joining_adds_up(run: TallyView, apis: Seq<TallyView>)
    requires
        adds_up(run, apis),
    ensures
        adds_up(run, apis.push(fresh_tally())),
{
    let more = apis.push(fresh_tally());
    assert(totals(more).drop_last() == totals(apis));
    assert(successes(more).drop_last() == successes(apis));
    assert(failures(more).drop_last() == failures(apis));
    assert(sizes(more).drop_last() == sizes(apis));
    assert(workers(more).drop_last() == workers(apis));
    assert(maxima(more).drop_last() == maxima(apis));
    assert(minima(more).drop_last() == minima(apis));
    assert forall|i: int| 0 <= i < more.len() implies #[trigger] more[i].counters.len()
        == run.counters.len() by {
        if i < apis.len() {
            assert(apis[i].counters.len() == run.counters.len());
        }
    }
    assert forall|k: int| 0 <= k < run.counters.len() implies #[trigger] run.counters[k]
        == wrapping_total(column(more, k)) by {
        assert(column(more, k).drop_last() == column(apis, k));
    }
}

/// The board of a run without endpoints.
pub open spec fn fresh_board() -> BoardView {
    BoardView {
        run: fresh_tally(),
        apis: Seq::empty(),
        http_errors: Map::empty(),
        assert_errors: Map::empty(),
        drafts: Seq::empty(),
        results: Seq::empty(),
        last_errors: 0,
        last_requests: 0,
    }
}

/// The result of an endpoint that joins.
pub open spec fn joining(name: Seq<char>, url: Seq<char>, method: Seq<char>) -> ApiView {
    ApiView { name, url, method: uppercased(method), ..blank_result() }
}

impl BoardView {
    /// The board with one endpoint more.
    pub open spec fn joined(self, name: Seq<char>, url: Seq<char>, method: Seq<char>) -> BoardView {
        BoardView {
            apis: self.apis.push(fresh_tally()),
            drafts: self.drafts.push(joining(name, url, method)),
            results: self.results.push(joining(name, url, method)),
            ..self
        }
    }

    /// The board with an HTTP error counted.
    pub open spec fn with_http_error(self, key: ErrKeyView) -> BoardView {
        BoardView { http_errors: counted_once(self.http_errors, key), ..self }
    }

    /// The board with an assertion error counted.
    pub open spec fn with_assert_error(self, key: AssertErrKeyView) -> BoardView {
        BoardView { assert_errors: counted_once(self.assert_errors, key), ..self }
    }

    /// The board with the result of an endpoint taken anew and reported.
    pub open spec fn published(self, index: int, method: Seq<char>, elapsed: u128) -> BoardView {
        let result = sampled(self.drafts[index], self.apis[index], method, elapsed);
        BoardView {
            drafts: self.drafts.update(index, result),
            results: self.results.update(index, result),
            ..self
        }
    }

    /// How many errors are new since the last report, by the count as it is reported.
    pub open spec fn new_errors(self) -> int {
        (self.run.err_count as i32) as usize - self.last_errors
    }

    /// How many requests are new since the last report.
    pub open spec fn new_requests(self) -> int {
        self.run.total_requests - self.last_requests
    }

    /// The board after a report while the run goes on.
    pub open spec fn reported(self, elapsed: u128) -> BoardView {
        BoardView {
            results: all_rated(self.results, elapsed),
            last_errors: (self.run.err_count as i32) as usize,
            last_requests: self.run.total_requests,
            ..self
        }
    }

    /// What is reported while the run goes on.
    pub open spec fn report(self, elapsed: u128, timestamp: u128) -> BatchView {
        BatchView {
            elapsed,
            successful_requests: self.run.successful_requests,
            errors: self.run.err_count,
            median_response_time: percentile_floor(self.run.counters, 14, 50),
            response_time_95: percentile_floor(self.run.counters, 14, 95),
            response_time_99: percentile_floor(self.run.counters, 14, 99),
            total_requests: self.run.total_requests as u64,
            rated_requests: self.new_requests() as usize,
            max_response_time: self.run.max_response_time,
            min_response_time: self.run.min_response_time,
            err_count: self.run.err_count as i32,
            data_bytes: self.run.response_bytes,
            http_errors: self.http_errors,
            timestamp,
            assert_errors: self.assert_errors,
            total_concurrent_number: self.run.concurrent_number as i32,
            api_results: all_rated(self.results, elapsed),
            errors_per_second: self.new_errors() as usize,
        }
    }

    /// The board after the last report.
    pub open spec fn concluded(self, elapsed: u128) -> BoardView {
        BoardView {
            results: all_rated(self.results, elapsed),
            last_errors: self.run.err_count,
            ..self
        }
    }

    /// What is reported at the end of the run.
    pub open spec fn conclusion(self, elapsed: u128, timestamp: u128) -> BatchView {
        BatchView {
            rated_requests: self.run.total_requests,
            errors_per_second: (self.run.err_count - self.last_errors) as usize,
            ..self.report(elapsed, timestamp)
        }
    }
}

impl Board {
    /// The histograms have the range that response times are counted in, and the response times
    /// of each result are in order.
    pub closed spec fn sound(&self) -> bool {
        &&& self.run.wf()
        &&& forall|i: int| 0 <= i < self.apis.len() ==> #[trigger] self.apis@[i].wf()
        &&& forall|i: int| 0 <= i < self.results.len() ==> (#[trigger] self.results@[i]@).in_order()
    }

    /// The board is sound, and its tallies add up.
    pub open spec fn wf(&self) -> bool {
        self.sound() && self@.wf()
    }

    /// The board of a run without endpoints.
    pub fn new() -> (r: Self)
        ensures
            r.wf(),
            r@ == fresh_board(),
    {
        let r = Board {
            run: Tally::new(),
            apis: Vec::new(),
            http_errors: HttpErrorStats::new(),
            assert_errors: AssertErrorStats::new(),
            drafts: Vec::new(),
            results: Vec::new(),
            last_errors: 0,
            last_requests: 0,
        };
        proof {
            assert(r@ =~= fresh_board());
            assert forall|b: int| 0 <= b < r@.run.counters.len() implies #[trigger] r@.run.counters[b]
                == wrapping_total(column(r@.apis, b)) by {
                assert(column(r@.apis, b).len() == 0);
            }
        }
        r
    }

    /// How many endpoints there are.
    pub fn endpoints(&self) -> (r: usize)
        ensures
            r == self@.apis.len(),
    {
        self.apis.len()
    }

    /// Takes an endpoint in.
    pub fn join(&mut self, name: &str, url: &str, method: &str)
        requires
            old(self).wf(),
        ensures
            final(self).wf(),
            final(self)@ == old(self)@.joined(name@, url@, method@),
            ascii_only(method@) ==> uppercased(method@) == ascii_raised(method@),
    {
        let ghost before = *self;
        let mut result = ApiResult::new();
        result.name = name.to_owned();
        result.url = url.to_owned();
        result.method = to_upper(method);
        let ghost view = result@;
        let copy = result.copy();
        let tally = Tally::new();
        let ghost fresh = tally;
        self.apis.push(tally);
        self.drafts.push(copy);
        self.results.push(result);
        proof {
            assert(tally_views(self.apis@) == tally_views(before.apis@).push(fresh@));
            assert(api_views(self.drafts@) == api_views(before.drafts@).push(view));
            assert(api_views(self.results@) == api_views(before.results@).push(view));
            law_joining_adds_up(before@.run, before@.apis);
            assert forall|i: int| 0 <= i < self.apis.len() implies #[trigger] self.apis@[i].wf() by {
                if i < before.apis.len() {
                    assert(before.apis@[i].wf());
                }
            }
            assert forall|i: int| 0 <= i < self.results.len() implies (
            #[trigger] self.results@[i]@).in_order() by {
                if i < before.results.len() {
                    assert(before.results@[i]@.in_order());
                }
            }
        }
    }

    /// Counts a mark for an endpoint and for the run. The answer tells whether a response time
    /// was beyond what the histograms count.
    pub fn mark(&mut self, index: usize, m: Mark) -> (r: bool)
        requires
            old(self).wf(),
            index < old(self)@.apis.len(),
            markable(m),
        ensures
            final(self).wf(),
            final(self)@ == old(self)@.marked(index as int, m),
            r == (m matches Mark::Timed(millis) && millis > LATENCY_END),
    {
        let ghost before = *self;
        let beyond = self.run.mark(m);
        assert(before.apis@[index as int].wf());
        let _ = self.apis[index].mark(m);
        proof {
            law_marks_add_up(before@, index as int, m);
            assert(tally_views(self.apis@) == tally_views(before.apis@).update(
                index as int,
                marked(before.apis@[index as int]@, m),
            ));
            assert forall|i: int| 0 <= i < self.apis.len() implies #[trigger] self.apis@[i].wf() by {
                assert(before.apis@[i].wf());
            }
        }
        beyond
    }

    /// Counts an HTTP error.
    pub fn http_error(&mut self, name: String, url: String, code: u16, msg: String, source: String)
        requires
            old(self).wf(),
        ensures
            final(self).wf(),
            final(self)@ == old(self)@.with_http_error(
                (ErrKeyView { name: name@, code, msg: msg@, url: url@, source: source@ }),
            ),
    {
        self.http_errors.increment(name, url, code, msg, source);
    }

    /// Counts an assertion error.
    pub fn assert_error(&mut self, name: String, msg: String, url: String)
        requires
            old(self).wf(),
        ensures
            final(self).wf(),
            final(self)@ == old(self)@.with_assert_error(
                (AssertErrKeyView { name: name@, msg: msg@, url: url@ }),
            ),
    {
        self.assert_errors.increment(name, msg, url);
    }

    /// Takes the result of an endpoint anew and reports it. The response times in it are in order.
    pub fn publish(&mut self, index: usize, method: &str, elapsed: u128)
        requires
            old(self).wf(),
            index < old(self)@.apis.len(),
        ensures
            final(self).wf(),
            final(self)@ == old(self)@.published(index as int, method@, elapsed),
            final(self)@.results[index as int].in_order(),
            few_samples(old(self)@.apis[index as int].counters) ==> {
                let counters = old(self)@.apis[index as int].counters;
                let result = final(self)@.results[index as int];
                &&& starts_rank(counters, 14, 50, result.median_response_time)
                &&& starts_rank(counters, 14, 95, result.response_time_95)
                &&& starts_rank(counters, 14, 99, result.response_time_99)
            },
            ascii_only(method@) ==> uppercased(method@) == ascii_raised(method@),
    {
        let ghost before = *self;
        assert(self.apis@[index as int].wf());
        let draft = &self.drafts[index];
        let tally = &self.apis[index];
        let result = ApiResult {
            name: draft.name.clone(),
            url: draft.url.clone(),
            host: draft.host.clone(),
            path: draft.path.clone(),
            method: to_upper(method),
            median_response_time: tally.percentile(50),
            response_time_95: tally.percentile(95),
            response_time_99: tally.percentile(99),
            total_requests: tally.total_requests() as u64,
            max_response_time: tally.max_response_time(),
            min_response_time: tally.min_response_time(),
            err_count: tally.err_count() as i32,
            concurrent_number: tally.concurrent_number() as i32,
            successful_requests: tally.successful_requests(),
            data_bytes: tally.response_bytes(),
            sampled_at: Some(elapsed),
            rated_at: draft.rated_at,
        };
        let ghost view = result@;
        let copy = result.copy();
        self.drafts.set(index, result);
        self.results.set(index, copy);
        proof {
            assert(api_views(self.drafts@) == api_views(before.drafts@).update(index as int, view));
            assert(api_views(self.results@) == api_views(before.results@).update(
                index as int,
                view,
            ));
            assert(view.in_order());
            assert forall|i: int| 0 <= i < self.results.len() implies (
            #[trigger] self.results@[i]@).in_order() by {
                assert(before.results@[i]@.in_order());
                assert(api_views(self.results@)[i] == self.results@[i]@);
            }
        }
    }

    /// Takes the request rate, host and path of every result.
    fn rate(&mut self, elapsed: u128)
        ensures
            old(self).sound() ==> final(self).sound(),
            final(self)@ == (BoardView {
                results: all_rated(old(self)@.results, elapsed),
                ..old(self)@
            }),
    {
        let ghost before = *self;
        let ghost was = api_views(self.results@);
        let mut i: usize = 0;
        while i < self.results.len()
            invariant
                0 <= i <= self.results.len(),
                self.results.len() == was.len(),
                was == api_views(before.results@),
                self.run == before.run,
                self.apis == before.apis,
                self.http_errors == before.http_errors,
                self.assert_errors == before.assert_errors,
                self.drafts == before.drafts,
                self.last_errors == before.last_errors,
                self.last_requests == before.last_requests,
                forall|j: int|
                    0 <= j < was.len() ==> #[trigger] self.results@[j]@ == (if j < i {
                        rated(was[j], elapsed)
                    } else {
                        was[j]
                    }),
            decreases self.results.len() - i,
        {
            let mut result = self.results[i].copy();
            assert(self.results@[i as int]@ == was[i as int]);
            result.rated_at = Some(elapsed);
            match parse_url(result.url.as_str()) {
                None => {},
                Some(url) => {
                    match host_text(&url) {
                        None => {},
                        Some(host) => {
                            result.host = host;
                        },
                    }
                    result.path = path_text(&url);
                },
            }
            self.results.set(i, result);
            i = i + 1;
        }
        proof {
            assert(api_views(self.results@) =~= all_rated(was, elapsed));
            if before.sound() {
                assert forall|i: int| 0 <= i < self.results.len() implies (
                #[trigger] self.results@[i]@).in_order() by {
                    assert(before.results@[i]@.in_order());
                    assert(was[i] == before.results@[i]@);
                }
            }
        }
    }

    /// The result of the run as the counts stand now.
    fn result(
        &self,
        elapsed: u128,
        timestamp: u128,
        rated_requests: usize,
        errors_per_second: usize,
    ) -> (r: BatchResult)
        requires
            self.sound(),
        ensures
            r@ == (BatchView {
                rated_requests,
                errors_per_second,
                api_results: self@.results,
                ..self@.report(elapsed, timestamp)
            }),
            r.keys_apart(),
            r@.in_order(),
            few_samples(self@.run.counters) ==> {
                &&& starts_rank(self@.run.counters, 14, 50, r.median_response_time)
                &&& starts_rank(self@.run.counters, 14, 95, r.response_time_95)
                &&& starts_rank(self@.run.counters, 14, 99, r.response_time_99)
            },
    {
        let r = BatchResult {
            elapsed,
            successful_requests: self.run.successful_requests(),
            errors: self.run.err_count(),
            median_response_time: self.run.percentile(50),
            response_time_95: self.run.percentile(95),
            response_time_99: self.run.percentile(99),
            total_requests: self.run.total_requests() as u64,
            rated_requests,
            max_response_time: self.run.max_response_time(),
            min_response_time: self.run.min_response_time(),
            err_count: self.run.err_count() as i32,
            data_bytes: self.run.response_bytes(),
            http_errors: self.http_errors.to_vec(),
            timestamp,
            assert_errors: self.assert_errors.to_vec(),
            total_concurrent_number: self.run.concurrent_number() as i32,
            api_results: results_copy(&self.results),
            errors_per_second,
        };
        proof {
            assert forall|i: int| 0 <= i < r@.api_results.len() implies (
            #[trigger] r@.api_results[i]).in_order() by {
                assert(r@.api_results[i] == api_views(self.results@)[i]);
                assert(self.results@[i]@.in_order());
            }
        }
        r
    }

    /// Tells whether the counts are no less than what was reported, so that the run can be
    /// reported again.
    pub fn can_collect(&self) -> (r: bool)
        ensures
            r == (self@.new_errors() >= 0 && self@.new_requests() >= 0),
    {
        let errors: usize = (self.run.err_count() as i32) as usize;
        errors >= self.last_errors && self.run.total_requests() >= self.last_requests
    }

    /// Tells whether the errors are no less than what was reported, so that the run can be
    /// reported at its end.
    pub fn can_conclude(&self) -> (r: bool)
        ensures
            r == (self@.run.err_count >= self@.last_errors),
    {
        self.run.err_count() >= self.last_errors
    }

    /// Reports the run while it goes on: what is new since the last report is counted as
    /// reported. The response times in the report are in order.
    pub fn collect_results(&mut self, elapsed: u128, timestamp: u128) -> (r: BatchResult)
        requires
            old(self).wf(),
            old(self)@.new_errors() >= 0,
            old(self)@.new_requests() >= 0,
        ensures
            final(self).wf(),
            final(self)@ == old(self)@.reported(elapsed),
            r@ == old(self)@.report(elapsed, timestamp),
            r.keys_apart(),
            r@.in_order(),
            few_samples(old(self)@.run.counters) ==> {
                &&& starts_rank(old(self)@.run.counters, 14, 50, r.median_response_time)
                &&& starts_rank(old(self)@.run.counters, 14, 95, r.response_time_95)
                &&& starts_rank(old(self)@.run.counters, 14, 99, r.response_time_99)
            },
    {
        self.rate(elapsed);
        let errors: usize = (self.run.err_count() as i32) as usize;
        let new_errors: usize = errors - self.last_errors;
        self.last_errors = errors;
        let requests: usize = self.run.total_requests();
        let new_requests: usize = requests - self.last_requests;
        self.last_requests = requests;
        self.result(elapsed, timestamp, new_requests, new_errors)
    }

    /// Reports the run at its end. The response times in the report are in order.
    pub fn conclude(&mut self, elapsed: u128, timestamp: u128) -> (r: BatchResult)
        requires
            old(self).wf(),
            old(self)@.run.err_count >= old(self)@.last_errors,
        ensures
            final(self).wf(),
            final(self)@ == old(self)@.concluded(elapsed),
            r@ == old(self)@.conclusion(elapsed, timestamp),
            r.keys_apart(),
            r@.in_order(),
            few_samples(old(self)@.run.counters) ==> {
                &&& starts_rank(old(self)@.run.counters, 14, 50, r.median_response_time)
                &&& starts_rank(old(self)@.run.counters, 14, 95, r.response_time_95)
                &&& starts_rank(old(self)@.run.counters, 14, 99, r.response_time_99)
            },
    {
        self.rate(elapsed);
        let errors: usize = self.run.err_count();
        let new_errors: usize = errors - self.last_errors;
        self.last_errors = errors;
        let requests: usize = self.run.total_requests();
        self.result(elapsed, timestamp, requests, new_errors)
    }
}

/// The boards of reports that follow one another: each can be reported, and what one report
/// counts as reported is what the next one starts from.
pub open spec fn reported_in_turn(boards: Seq<BoardView>) -> bool {
    &&& forall|i: int|
        0 <= i < boards.len() ==> (#[trigger] boards[i]).new_errors() >= 0
            && boards[i].new_requests() >= 0
    &&& forall|i: int, j: int|
        0 <= i && j == i + 1 && j < boards.len() ==> follows(#[trigger] boards[i], #[trigger] boards[j])
}

/// What the report of a board counts as reported is what the next one starts from.
pub open spec fn follows(board: BoardView, next: BoardView) -> bool {
    forall|elapsed: u128|
        next.last_errors == (#[trigger] board.reported(elapsed)).last_errors && next.last_requests
            == board.reported(elapsed).last_requests
}

/// The errors that reports tell of, taken together. Each report has its elapsed time and its
/// timestamp.
pub open spec fn errors_told(boards: Seq<BoardView>, times: Seq<(u128, u128)>) -> int
    decreases boards.len(),
{
    if boards.len() == 0 {
        0
    } else {
        errors_told(boards.drop_last(), times.drop_last()) + boards.last().report(
            times.last().0,
            times.last().1,
        ).errors_per_second
    }
}

/// The requests that reports tell of, taken together. Each report has its elapsed time and its
/// timestamp.
pub open spec fn requests_told(boards: Seq<BoardView>, times: Seq<(u128, u128)>) -> int
    decreases boards.len(),
{
    if boards.len() == 0 {
        0
    } else {
        requests_told(boards.drop_last(), times.drop_last()) + boards.last().report(
            times.last().0,
            times.last().1,
        ).rated_requests
    }
}

proof fn lemma_fewer_in_turn(boards: Seq<BoardView>)
    requires
        reported_in_turn(boards),
        boards.len() > 0,
    ensures
        reported_in_turn(boards.drop_last()),
        boards.len() > 1 ==> follows(boards.drop_last().last(), boards.last()),
{
    let fewer = boards.drop_last();
    assert forall|i: int| 0 <= i < fewer.len() implies (#[trigger] fewer[i]).new_errors() >= 0
        && fewer[i].new_requests() >= 0 by {
        assert(boards[i].new_errors() >= 0);
    }
    assert forall|i: int, j: int| 0 <= i && j == i + 1 && j < fewer.len() implies follows(
        #[trigger] fewer[i],
        #[trigger] fewer[j],
    ) by {
        assert(follows(boards[i], boards[j]));
    }
    if boards.len() > 1 {
        let last = boards.len() - 1;
        assert(follows(boards[last - 1], boards[last]));
    }
}

/// However many reports are made of a run, they tell, taken together, of exactly the requests
/// that were made by the last one and were not reported before the first; and the last one leaves
/// none of them unreported.
pub proof fn law_reports_telescope(boards: Seq<BoardView>, times: Seq<(u128, u128)>)
    requires
        boards.len() > 0,
        times.len() == boards.len(),
        reported_in_turn(boards),
    ensures
        ({
            let report = boards.last().report(times.last().0, times.last().1);
            &&& requests_told(boards, times) == boards.last().run.total_requests
                - boards[0].last_requests
            &&& boards[0].last_requests == 0 ==> requests_told(boards, times)
                == report.total_requests
            &&& boards.last().reported(times.last().0).last_requests == report.total_requests
        }),
    decreases boards.len(),
{
    lemma_fewer_in_turn(boards);
    let last = boards.last();
    assert(boards[boards.len() - 1].new_requests() >= 0);
    if boards.len() > 1 {
        let fewer = boards.drop_last();
        law_reports_telescope(fewer, times.drop_last());
        assert(fewer.last().reported(0).last_requests == last.last_requests);
        assert(fewer[0] == boards[0]);
    } else {
        assert(requests_told(boards.drop_last(), times.drop_last()) == 0);
    }
}

/// However many reports are made of a run, they tell, taken together, of exactly the errors that
/// the last one counts and that were not reported before the first, and the last one leaves none
/// of them unreported. Errors are counted as reports count them, in 32 bits; a count that fits is
/// the number of errors that were met.
pub proof fn law_error_reports_telescope(boards: Seq<BoardView>, times: Seq<(u128, u128)>)
    requires
        boards.len() > 0,
        times.len() == boards.len(),
        reported_in_turn(boards),
    ensures
        ({
            let last = boards.last();
            let report = last.report(times.last().0, times.last().1);
            &&& errors_told(boards, times) == report.err_count as usize - boards[0].last_errors
            &&& boards[0].last_errors == 0 ==> errors_told(boards, times)
                == report.err_count as usize
            &&& last.reported(times.last().0).last_errors == report.err_count as usize
            &&& last.run.err_count <= i32::MAX ==> report.err_count == last.run.err_count
                && report.err_count as usize == last.run.err_count
        }),
{
    lemma_errors_telescope(boards, times);
}

proof fn lemma_errors_telescope(boards: Seq<BoardView>, times: Seq<(u128, u128)>)
    requires
        boards.len() > 0,
        times.len() == boards.len(),
        reported_in_turn(boards),
    ensures
        errors_told(boards, times) == boards.last().reported(times.last().0).last_errors
            - boards[0].last_errors,
    decreases boards.len(),
{
    lemma_fewer_in_turn(boards);
    let last = boards.last();
    assert(boards[boards.len() - 1].new_errors() >= 0);
    if boards.len() > 1 {
        let fewer = boards.drop_last();
        lemma_errors_telescope(fewer, times.drop_last());
        assert(fewer.last().reported(0).last_errors == last.last_errors);
        assert(fewer[0] == boards[0]);
    } else {
        assert(errors_told(boards.drop_last(), times.drop_last()) == 0);
    }
}

/// The report at the end tells of exactly the errors that the reports before it left out.
pub proof fn law_conclusion_tells_the_rest(
    boards: Seq<BoardView>,
    times: Seq<(u128, u128)>,
    end: BoardView,
    elapsed: u128,
    timestamp: u128,
)
    requires
        boards.len() > 0,
        times.len() == boards.len(),
        reported_in_turn(boards),
        boards[0].last_errors == 0,
        follows(boards.last(), end),
        end.run.err_count >= end.last_errors,
    ensures
        errors_told(boards, times) + end.conclusion(elapsed, timestamp).errors_per_second
            == end.run.err_count,
        end.concluded(elapsed).last_errors == end.run.err_count,
{
    lemma_errors_telescope(boards, times);
    assert(boards.last().reported(0).last_errors == end.last_errors);
}

/// A report changes nothing of what is counted, and reporting once more at once tells of no new
/// requests and no new errors.
pub proof fn law_report_is_settled(b: BoardView, elapsed: u128)
    ensures
        b.reported(elapsed).run == b.run,
        b.reported(elapsed).apis == b.apis,
        b.reported(elapsed).http_errors == b.http_errors,
        b.reported(elapsed).assert_errors == b.assert_errors,
        b.reported(elapsed).new_requests() == 0,
        b.reported(elapsed).new_errors() == 0,
{
}

/// The largest of numbers is one of them, and none is larger; the smallest is one of them, and none
/// is smaller. Of no numbers at all, the largest is the least there is, and the smallest the
/// greatest.
pub proof fn law_extremes_are_extreme(s: Seq<u64>, i: int)
    ensures
        s.len() == 0 ==> largest(s) == 0 && smallest(s) == u64::MAX,
        s.len() > 0 ==> s.contains(largest(s)) && s.contains(smallest(s)),
        0 <= i < s.len() ==> smallest(s) <= s[i] <= largest(s),
    decreases s.len(),
{
    if s.len() > 0 {
        let t = s.drop_last();
        law_extremes_are_extreme(t, i);
        assert(s[s.len() - 1] == s.last());
        if t.len() > 0 {
            let a = t.index_of(largest(t));
            let b = t.index_of(smallest(t));
            assert(t[a] == s[a]);
            assert(t[b] == s[b]);
        }
    }
}

} // verus!
