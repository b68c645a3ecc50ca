//! Tallies: what is counted of the requests of one endpoint, or of a whole run.

use histogram::Histogram;
use vstd::arithmetic::power2::lemma2_to64;
use vstd::prelude::*;

use crate::latency::{
    all_zero, count_sample, counted, counted_up_to, counters, law_counting_stays_within,
    few_samples, new_histogram, no_samples, percentile_floor, percentile_start, powers, starts_rank,
};

verus! {

/// The response time, in milliseconds, at which the histograms end.
pub const LATENCY_END: u64 = 1048576;

/// A number as it remains of it in a `usize`.
pub open spec fn wrapped(n: int) -> int {
    n % (usize::MAX + 1)
}

/// Counting on goes on from what remained.
pub proof fn law_wrapping_goes_on(n: int, m: usize, k: usize)
    requires
        n >= 0,
        m == wrapped(n),
    ensures
        m.wrapping_add(k) == wrapped(n + k),
{
    let modulus: int = usize::MAX + 1;
    let q = n / modulus;
    assert(n == q * modulus + m) by (nonlinear_arith)
        requires
            q == n / modulus,
            m == n % modulus,
            modulus > 0,
    ;
    if m + k < modulus {
        assert((n + k) % modulus == m + k) by (nonlinear_arith)
            requires
                n == q * modulus + m,
                0 <= m + k < modulus,
        ;
    } else {
        assert((n + k) % modulus == m + k - modulus) by (nonlinear_arith)
            requires
                n == q * modulus + m,
                0 <= m + k - modulus < modulus,
        ;
    }
}

/// A number that fits remains as it is.
pub proof fn law_fitting_is_not_wrapped(n: int)
    requires
        0 <= n <= usize::MAX,
    ensures
        wrapped(n) == n,
{
    let modulus: int = usize::MAX + 1;
    assert(n % modulus == n) by (nonlinear_arith)
        requires
            0 <= n < modulus,
    ;
}

/// Something that happened to a request, as far as tallies count it.
#[derive(Clone, Copy, Debug)]
pub enum Mark {
    /// A worker started.
    Started,
    /// A request was made.
    Requested,
    /// A response came after this many milliseconds.
    Timed(u64),
    /// This many bytes of a response came.
    Received(usize),
    /// A request failed.
    Failed,
    /// A request succeeded.
    Succeeded,
}

/// Counts over requests.
pub struct Tally {
    total_requests: usize,
    successful_requests: usize,
    err_count: usize,
    max_response_time: u64,
    min_response_time: u64,
    response_bytes: usize,
    concurrent_number: usize,
    histogram: Histogram,
}

/// What a tally says.
pub struct TallyView {
    pub total_requests: usize,
    pub successful_requests: usize,
    pub err_count: usize,
    pub max_response_time: u64,
    pub min_response_time: u64,
    pub response_bytes: usize,
    pub concurrent_number: usize,
    pub counters: Seq<u64>,
}

impl View for Tally {
    type V = TallyView;

    closed spec fn view(&self) -> TallyView {
        TallyView {
            total_requests: self.total_requests,
            successful_requests: self.successful_requests,
            err_count: self.err_count,
            max_response_time: self.max_response_time,
            min_response_time: self.min_response_time,
            response_bytes: self.response_bytes,
            concurrent_number: self.concurrent_number,
            counters: counters(self.histogram),
        }
    }
}

/// The tally of no requests.
pub open spec fn fresh_tally() -> TallyView {
    TallyView {
        total_requests: 0,
        successful_requests: 0,
        err_count: 0,
        max_response_time: 0,
        min_response_time: u64::MAX,
        response_bytes: 0,
        concurrent_number: 0,
        counters: no_samples(14, 20),
    }
}

/// The larger of two numbers.
pub open spec fn larger(a: u64, b: u64) -> u64 {
    if a < b {
        b
    } else {
        a
    }
}

/// The smaller of two numbers.
pub open spec fn smaller(a: u64, b: u64) -> u64 {
    if b < a {
        b
    } else {
        a
    }
}

/// A tally after a mark.
pub open spec fn marked(t: TallyView, m: Mark) -> TallyView {
    match m {
        Mark::Started => TallyView { concurrent_number: t.concurrent_number.wrapping_add(1), ..t },
        Mark::Requested => TallyView { total_requests: t.total_requests.wrapping_add(1), ..t },
        Mark::Timed(millis) => TallyView {
            max_response_time: larger(t.max_response_time, millis),
            min_response_time: smaller(t.min_response_time, millis),
            counters: counted(t.counters, (14, 20), millis),
            ..t
        },
        Mark::Received(n) => TallyView { response_bytes: t.response_bytes.wrapping_add(n), ..t },
        Mark::Failed => TallyView { err_count: t.err_count.wrapping_add(1), ..t },
        Mark::Succeeded => TallyView {
            successful_requests: t.successful_requests.wrapping_add(1),
            ..t
        },
    }
}

/// A mark that a tally can take: its histogram has no place for the very end of its range.
pub open spec fn markable(m: Mark) -> bool {
    m != Mark::Timed(LATENCY_END)
}

impl Tally {
    /// The histogram has the range that response times are counted in, and has counted none
    /// beyond the longest.
    pub closed spec fn wf(&self) -> bool {
        &&& powers(self.histogram) == (14u8, 20u8)
        &&& counters(self.histogram).len() == no_samples(14, 20).len()
        &&& counted_up_to(counters(self.histogram), 14, self.max_response_time)
    }

    /// The tally of no requests.
    pub fn new() -> (r: Self)
        ensures
            r.wf(),
            r@ == fresh_tally(),
    {
        Tally {
            total_requests: 0,
            successful_requests: 0,
            err_count: 0,
            max_response_time: 0,
            min_response_time: u64::MAX,
            response_bytes: 0,
            concurrent_number: 0,
            histogram: new_histogram(14, 20).unwrap(),
        }
    }

    /// Counts a mark. The answer tells whether a response time was beyond what the histogram
    /// counts.
    pub fn mark(&mut self, m: Mark) -> (r: bool)
        requires
            old(self).wf(),
            markable(m),
        ensures
            final(self).wf(),
            final(self)@ == marked(old(self)@, m),
            r == (m matches Mark::Timed(millis) && millis > LATENCY_END),
    {
        match m {
            Mark::Started => {
                self.concurrent_number = self.concurrent_number.wrapping_add(1);
            },
            Mark::Requested => {
                self.total_requests = self.total_requests.wrapping_add(1);
            },
            Mark::Timed(millis) => {
                proof {
                    lemma2_to64();
                    law_counting_stays_within(
                        counters(self.histogram),
                        14,
                        20,
                        millis,
                        larger(self.max_response_time, millis),
                    );
                }
                if self.max_response_time < millis {
                    self.max_response_time = millis;
                }
                if millis < self.min_response_time {
                    self.min_response_time = millis;
                }
                return match count_sample(&mut self.histogram, millis) {
                    Ok(_) => false,
                    Err(_) => true,
                };
            },
            Mark::Received(n) => {
                self.response_bytes = self.response_bytes.wrapping_add(n);
            },
            Mark::Failed => {
                self.err_count = self.err_count.wrapping_add(1);
            },
            Mark::Succeeded => {
                self.successful_requests = self.successful_requests.wrapping_add(1);
            },
        }
        false
    }

    /// How many requests were made.
    pub fn total_requests(&self) -> (r: usize)
        ensures
            r == self@.total_requests,
    {
        self.total_requests
    }

    /// How many requests succeeded.
    pub fn successful_requests(&self) -> (r: usize)
        ensures
            r == self@.successful_requests,
    {
        self.successful_requests
    }

    /// How many errors there were.
    pub fn err_count(&self) -> (r: usize)
        ensures
            r == self@.err_count,
    {
        self.err_count
    }

    /// The longest response time.
    pub fn max_response_time(&self) -> (r: u64)
        ensures
            r == self@.max_response_time,
    {
        self.max_response_time
    }

    /// The shortest response time.
    pub fn min_response_time(&self) -> (r: u64)
        ensures
            r == self@.min_response_time,
    {
        self.min_response_time
    }

    /// How many bytes of responses came.
    pub fn response_bytes(&self) -> (r: usize)
        ensures
            r == self@.response_bytes,
    {
        self.response_bytes
    }

    /// How many workers have started.
    pub fn concurrent_number(&self) -> (r: usize)
        ensures
            r == self@.concurrent_number,
    {
        self.concurrent_number
    }

    /// The response time at a percentile: no more than the longest, and no less than at a lower
    /// percentile.
    pub fn percentile(&self, percent: u8) -> (r: u64)
        requires
            self.wf(),
            percent <= 99,
        ensures
            r == percentile_floor(self@.counters, 14, percent),
            all_zero(self@.counters) ==> r == 0,
            r <= self@.max_response_time,
            forall|q: u8|
                q <= percent ==> #[trigger] percentile_floor(self@.counters, 14, q) <= r,
            (percent == 50 || percent == 95 || percent == 99) && few_samples(self@.counters)
                ==> starts_rank(self@.counters, 14, percent as int, r),
    {
        percentile_start(&self.histogram, percent).unwrap()
    }
}

/// Once a response time was counted, the shortest is no longer than the longest, and the counted
/// one lies between them.
pub proof fn law_extremes_enclose(t: TallyView, millis: u64)
    ensures
        ({
            let after = marked(t, Mark::Timed(millis));
            after.min_response_time <= millis <= after.max_response_time
        }),
{
}

/// The extremes stay around every response time that was counted before.
pub proof fn law_extremes_only_widen(t: TallyView, m: Mark)
    ensures
        marked(t, m).min_response_time <= t.min_response_time,
        t.max_response_time <= marked(t, m).max_response_time,
{
}

} // verus!
