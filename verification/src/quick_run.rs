//! Quick runs: one URL, fetched over and over for a while.

use histogram::Histogram;
use vstd::arithmetic::power2::lemma2_to64;
use vstd::prelude::*;

use crate::board::{largest, smallest};
use crate::latency::{
    count_sample, counted, counted_in, counted_up_to, counted_upto, counters, counters_of,
    few_samples, law_counting_stays_within, law_percentile_of_times, new_histogram, no_samples,
    percentile_floor, percentile_start, percentiles_rank, powers, starts_rank,
};
use crate::tally::{larger, smaller};

verus! {

/// The response time, in milliseconds, at which the histogram ends.
pub const QUICK_END: u64 = 16384;

/// What a quick run counts.
pub struct QuickRun {
    histogram: Histogram,
    successful_requests: i32,
    total_requests: i32,
    max_response_time: u64,
    min_response_time: u64,
}

/// What a quick run says.
pub struct QuickView {
    pub counters: Seq<u64>,
    pub successful_requests: i32,
    pub total_requests: i32,
    pub max_response_time: u64,
    pub min_response_time: u64,
}

impl View for QuickRun {
    type V = QuickView;

    closed spec fn view(&self) -> QuickView {
        QuickView {
            counters: counters(self.histogram),
            successful_requests: self.successful_requests,
            total_requests: self.total_requests,
            max_response_time: self.max_response_time,
            min_response_time: self.min_response_time,
        }
    }
}

/// The result of a quick run. Rates are left to the reader: they are made of the counts and of
/// the time, in seconds, that the run took.
pub struct TestResult {
    pub total_duration: u64,
    pub successful_requests: i32,
    pub median_response_time: u64,
    pub response_time_95: u64,
    pub response_time_99: u64,
    pub total_requests: i32,
    pub max_response_time: u64,
    pub min_response_time: u64,
}

/// A status that counts as a success.
pub open spec fn is_success(status: u16) -> bool {
    200 <= status < 300
}

impl QuickView {
    /// The run after a response came: a success counts, with its time, and nothing else does.
    pub open spec fn answered(self, status: u16, millis: u64) -> QuickView {
        if is_success(status) {
            QuickView {
                counters: counted(self.counters, (4, 14), millis),
                successful_requests: self.successful_requests.wrapping_add(1),
                total_requests: self.total_requests,
                max_response_time: larger(self.max_response_time, millis),
                min_response_time: smaller(self.min_response_time, millis),
            }
        } else {
            self
        }
    }

    /// The run's result.
    pub open spec fn result(self, duration: u64) -> TestResult {
        TestResult {
            total_duration: duration,
            successful_requests: self.successful_requests,
            median_response_time: percentile_floor(self.counters, 4, 50),
            response_time_95: percentile_floor(self.counters, 4, 95),
            response_time_99: percentile_floor(self.counters, 4, 99),
            total_requests: self.total_requests,
            max_response_time: self.max_response_time,
            min_response_time: self.min_response_time,
        }
    }
}

impl QuickRun {
    /// The histogram has the range that response times are counted in, and has counted none
    /// beyond the longest.
    pub closed spec fn wf(&self) -> bool {
        &&& powers(self.histogram) == (4u8, 14u8)
        &&& counters(self.histogram).len() == no_samples(4, 14).len()
        &&& counted_up_to(counters(self.histogram), 4, self.max_response_time)
    }

    /// A run without requests.
    pub fn new() -> (r: Self)
        ensures
            r.wf(),
            r@ == (QuickView {
                counters: no_samples(4, 14),
                successful_requests: 0,
                total_requests: 0,
                max_response_time: 0,
                min_response_time: u64::MAX,
            }),
    {
        QuickRun {
            histogram: new_histogram(4, 14).unwrap(),
            successful_requests: 0,
            total_requests: 0,
            max_response_time: 0,
            min_response_time: u64::MAX,
        }
    }

    /// A request is made.
    pub fn requested(&mut self)
        requires
            old(self).wf(),
        ensures
            final(self).wf(),
            final(self)@ == (QuickView {
                total_requests: old(self)@.total_requests.wrapping_add(1),
                ..old(self)@
            }),
    {
        self.total_requests = self.total_requests.wrapping_add(1);
    }

    /// A response came, after this many milliseconds. The answer tells whether a success took
    /// longer than what the histogram counts.
    pub fn answered(&mut self, status: u16, millis: u64) -> (r: bool)
        requires
            old(self).wf(),
            is_success(status) ==> millis != QUICK_END,
        ensures
            final(self).wf(),
            final(self)@ == old(self)@.answered(status, millis),
            r == (is_success(status) && millis > QUICK_END),
    {
        if status < 200 || status >= 300 {
            return false;
        }
        proof {
            lemma2_to64();
            law_counting_stays_within(
                counters(self.histogram),
                4,
                14,
                millis,
                larger(self.max_response_time, millis),
            );
        }
        if self.max_response_time < millis {
            self.max_response_time = millis;
        }
        if millis < self.min_response_time {
            self.min_response_time = millis;
        }
        let beyond = match count_sample(&mut self.histogram, millis) {
            Ok(_) => false,
            Err(_) => true,
        };
        self.successful_requests = self.successful_requests.wrapping_add(1);
        beyond
    }

    /// The result after a run of `duration` seconds. The response times in it are in order.
    pub fn result(&self, duration: u64) -> (r: TestResult)
        requires
            self.wf(),
        ensures
            r == self@.result(duration),
            r.median_response_time <= r.response_time_95 <= r.response_time_99
                <= r.max_response_time,
            few_samples(self@.counters) ==> {
                &&& starts_rank(self@.counters, 4, 50, r.median_response_time)
                &&& starts_rank(self@.counters, 4, 95, r.response_time_95)
                &&& starts_rank(self@.counters, 4, 99, r.response_time_99)
            },
    {
        TestResult {
            total_duration: duration,
            successful_requests: self.successful_requests,
            median_response_time: percentile_start(&self.histogram, 50).unwrap(),
            response_time_95: percentile_start(&self.histogram, 95).unwrap(),
            response_time_99: percentile_start(&self.histogram, 99).unwrap(),
            total_requests: self.total_requests,
            max_response_time: self.max_response_time,
            min_response_time: self.min_response_time,
        }
    }
}

/// A response that is no success leaves a quick run as it is.
pub proof fn law_failures_leave_no_trace(q: QuickView, status: u16, millis: u64)
    requires
        !is_success(status),
    ensures
        q.answered(status, millis) == q,
{
}

/// A success lies between the extremes from then on.
pub proof fn law_success_is_enclosed(q: QuickView, status: u16, millis: u64)
    requires
        is_success(status),
    ensures
        q.answered(status, millis).min_response_time <= millis,
        millis <= q.answered(status, millis).max_response_time,
        q.answered(status, millis).successful_requests == q.successful_requests.wrapping_add(1),
{
}

/// Something that happens in a quick run.
pub enum QuickEvent {
    /// A request is made.
    Requested,
    /// A response comes, with this status and after this many milliseconds.
    Answered(u16, u64),
}

/// A quick run that has counted nothing.
pub open spec fn fresh_quick_run() -> QuickView {
    QuickView {
        counters: no_samples(4, 14),
        successful_requests: 0,
        total_requests: 0,
        max_response_time: 0,
        min_response_time: u64::MAX,
    }
}

/// A quick run after everything that happened in it.
pub open spec fn quick_after(events: Seq<QuickEvent>) -> QuickView
    decreases events.len(),
{
    if events.len() == 0 {
        fresh_quick_run()
    } else {
        let q = quick_after(events.drop_last());
        match events.last() {
            QuickEvent::Requested => QuickView {
                total_requests: q.total_requests.wrapping_add(1),
                ..q
            },
            QuickEvent::Answered(status, millis) => q.answered(status, millis),
        }
    }
}

/// How many requests were made.
pub open spec fn requests_made(events: Seq<QuickEvent>) -> nat
    decreases events.len(),
{
    if events.len() == 0 {
        0
    } else {
        requests_made(events.drop_last()) + (if events.last() is Requested {
            1nat
        } else {
            0
        })
    }
}

/// The response times of those responses whose status is one of success, from 200 to 299.
pub open spec fn success_times(events: Seq<QuickEvent>) -> Seq<u64>
    decreases events.len(),
{
    if events.len() == 0 {
        Seq::empty()
    } else {
        let earlier = success_times(events.drop_last());
        match events.last() {
            QuickEvent::Answered(status, millis) => if 199 < status && status < 300 {
                earlier.push(millis)
            } else {
                earlier
            },
            _ => earlier,
        }
    }
}

/// Whatever happens in a quick run: its result tells how many requests were made and how many of
/// them succeeded, as far as these numbers fit, the longest and the shortest time of the
/// successes, and its histogram counts exactly those times. A response that is no success counts
/// nowhere but among the requests.
pub proof fn law_quick_run_tells_what_happened(events: Seq<QuickEvent>, duration: u64)
    ensures
        ({
            let q = quick_after(events);
            let r = q.result(duration);
            let times = success_times(events);
            &&& r.total_duration == duration
            &&& requests_made(events) <= i32::MAX ==> r.total_requests == requests_made(events)
            &&& times.len() <= i32::MAX ==> r.successful_requests == times.len()
            &&& r.max_response_time == largest(times)
            &&& r.min_response_time == smallest(times)
            &&& q.counters == counters_of(times, 4, 14)
        }),
    decreases events.len(),
{
    if events.len() > 0 {
        law_quick_run_tells_what_happened(events.drop_last(), duration);
        if let QuickEvent::Answered(status, millis) = events.last() {
            if is_success(status) {
                assert(success_times(events).drop_last() == success_times(events.drop_last()));
                assert(success_times(events).last() == millis);
            }
        }
    }
}

/// A percentile that the result of a quick run tells, measured against the times of its
/// successes: of those that were counted, at least so many percent lie in a range that begins at
/// what is told or before, and fewer in one that begins before.
pub proof fn law_quick_percentiles_are_of_the_times(
    events: Seq<QuickEvent>,
    percent: int,
    value: u64,
)
    requires
        success_times(events).len() <= u64::MAX,
        forall|i: int|
            0 <= i < success_times(events).len() ==> #[trigger] success_times(events)[i]
                != QUICK_END,
        starts_rank(quick_after(events).counters, 4, percent, value),
    ensures
        100 * counted_upto(success_times(events), 4, 14, value, false) >= percent * counted_in(
            success_times(events),
            14,
        ),
        value > 0 ==> 100 * counted_upto(success_times(events), 4, 14, value, true) < percent
            * counted_in(success_times(events), 14),
{
    lemma2_to64();
    law_quick_run_tells_what_happened(events, 0);
    law_percentile_of_times(success_times(events), 4, 14, percent, value);
}

/// The three response times in the result of a quick run are the 50th, the 95th and the 99th
/// percentile of the times of its successes, each of them its own.
pub proof fn law_quick_result_tells_the_percentiles(events: Seq<QuickEvent>, duration: u64)
    requires
        success_times(events).len() <= u64::MAX,
        forall|i: int|
            0 <= i < success_times(events).len() ==> #[trigger] success_times(events)[i]
                != QUICK_END,
    ensures
        percentiles_rank(quick_after(events).counters, 4) ==> {
            let r = quick_after(events).result(duration);
            let times = success_times(events);
            let all = counted_in(times, 14);
            &&& 100 * counted_upto(times, 4, 14, r.median_response_time, false) >= 50 * all
            &&& 100 * counted_upto(times, 4, 14, r.response_time_95, false) >= 95 * all
            &&& 100 * counted_upto(times, 4, 14, r.response_time_99, false) >= 99 * all
            &&& r.median_response_time > 0 ==> 100 * counted_upto(
                times,
                4,
                14,
                r.median_response_time,
                true,
            ) < 50 * all
            &&& r.response_time_95 > 0 ==> 100 * counted_upto(
                times,
                4,
                14,
                r.response_time_95,
                true,
            ) < 95 * all
            &&& r.response_time_99 > 0 ==> 100 * counted_upto(
                times,
                4,
                14,
                r.response_time_99,
                true,
            ) < 99 * all
        },
{
    let r = quick_after(events).result(duration);
    if percentiles_rank(quick_after(events).counters, 4) {
        law_quick_percentiles_are_of_the_times(events, 50, r.median_response_time);
        law_quick_percentiles_are_of_the_times(events, 95, r.response_time_95);
        law_quick_percentiles_are_of_the_times(events, 99, r.response_time_99);
    }
}

} // verus!
