//! Latency histograms: how many samples fell into which range of values.

use histogram::Histogram;
use vstd::arithmetic::logarithm::{lemma_log0, lemma_log_s, log};
use vstd::arithmetic::power2::{
    lemma2_to64, lemma_pow2_adds, lemma_pow2_pos, lemma_pow2_strictly_increases, lemma_pow2_unfold,
    pow2,
};
use vstd::prelude::*;

verus! {

/// `histogram::Histogram`, a list of counters over ranges of values.
#[verifier::external_type_specification]
#[verifier::external_body]
pub struct ExHistogram(histogram::Histogram);

/// `histogram::Error`, why a histogram refuses a parameter or a value.
#[verifier::external_type_specification]
#[verifier::external_body]
pub struct ExHistogramError(histogram::Error);

/// The counters of a histogram, by bucket.
pub uninterp spec fn counters(h: Histogram) -> Seq<u64>;

/// The powers that a histogram was made with: the values below two to the first plus one have a
/// bucket each, and two to the second is where the values end.
pub uninterp spec fn powers(h: Histogram) -> (u8, u8);

/// The bucket that counts a value.
pub open spec fn bucket_of(grouping: u8, value: u64) -> int {
    if value < pow2((grouping + 1) as nat) {
        value as int
    } else {
        let p = log(2, value as int);
        (p - grouping + 1) * pow2(grouping as nat) + (value - pow2(p as nat)) / (pow2(
            (p - grouping) as nat,
        ) as int)
    }
}

/// The smallest value that a bucket counts.
pub open spec fn bucket_floor(grouping: u8, bucket: int) -> int {
    let unit = pow2(grouping as nat) as int;
    let bin = bucket / unit;
    let offset = bucket % unit;
    if bin < 1 {
        offset
    } else {
        pow2((grouping + bin - 1) as nat) + pow2((bin - 1) as nat) * offset
    }
}

/// The counters after one more sample; a sample beyond the end counts nowhere.
pub open spec fn counted(counters: Seq<u64>, powers: (u8, u8), value: u64) -> Seq<u64> {
    if value > pow2(powers.1 as nat) {
        counters
    } else {
        let b = bucket_of(powers.0, value);
        counters.update(b, counters[b].wrapping_add(1))
    }
}

/// The counters of a histogram that has counted nothing.
pub open spec fn no_samples(grouping: u8, max: u8) -> Seq<u64> {
    Seq::new(((max - grouping + 1) * pow2(grouping as nat)) as nat, |i: int| 0u64)
}

/// Nothing was counted.
pub open spec fn all_zero(counters: Seq<u64>) -> bool {
    forall|i: int| 0 <= i < counters.len() ==> counters[i] == 0
}

/// Every sample that was counted lies in a bucket that begins at `end` or before.
pub open spec fn counted_up_to(counters: Seq<u64>, grouping: u8, end: u64) -> bool {
    forall|b: int|
        0 <= b < counters.len() && #[trigger] counters[b] > 0 ==> bucket_floor(grouping, b) <= end
}

/// The value is 0, or the smallest that some bucket with samples counts.
pub open spec fn starts_counted(counters: Seq<u64>, grouping: u8, value: u64) -> bool {
    value == 0 || exists|b: int|
        0 <= b < counters.len() && #[trigger] counters[b] > 0 && value == bucket_floor(grouping, b)
}

/// How many samples the first `n` buckets count.
pub open spec fn samples_below(counters: Seq<u64>, n: int) -> int
    decreases n,
{
    if n <= 0 {
        0
    } else {
        samples_below(counters, n - 1) + counters[n - 1]
    }
}

/// How many samples were counted.
pub open spec fn samples(counters: Seq<u64>) -> int {
    samples_below(counters, counters.len() as int)
}

/// So many percent of the samples lie in the bucket or below it, and fewer below it.
pub open spec fn ranks_at(counters: Seq<u64>, percent: int, bucket: int) -> bool {
    &&& 0 <= bucket < counters.len()
    &&& 100 * samples_below(counters, bucket + 1) >= percent * samples(counters)
    &&& bucket > 0 ==> 100 * samples_below(counters, bucket) < percent * samples(counters)
}

/// The value is the smallest that the bucket counts in which a percentile of the samples lies.
pub open spec fn starts_rank(counters: Seq<u64>, grouping: u8, percent: int, value: u64) -> bool {
    exists|bucket: int| #[trigger]
        ranks_at(counters, percent, bucket) && value == bucket_floor(grouping, bucket)
}

/// No more samples than a percentile is reckoned of exactly.
pub open spec fn few_samples(counters: Seq<u64>) -> bool {
    samples(counters) <= 0x100_0000_0000
}

/// The lower end of the bucket where a percentile falls, as `Histogram::percentile` finds it.
pub uninterp spec fn percentile_floor(counters: Seq<u64>, grouping: u8, percent: u8) -> u64;

/// The percentiles that are told, at 50, 95 and 99 percent, are those of the samples.
pub open spec fn percentiles_rank(counters: Seq<u64>, grouping: u8) -> bool {
    forall|q: u8|
        q == 50 || q == 95 || q == 99 ==> starts_rank(
            counters,
            grouping,
            q as int,
            #[trigger] percentile_floor(counters, grouping, q),
        )
}

/// `Histogram::new`, for powers that fit together: every counter starts at zero.
#[verifier::external_body]
pub(crate) fn new_histogram(grouping: u8, max: u8) -> (r: Result<Histogram, histogram::Error>)
    requires
        grouping < max < 64,
        grouping <= 14,
    ensures
        r is Ok,
        powers(r->Ok_0) == (grouping, max),
        counters(r->Ok_0) == no_samples(grouping, max),
{
    Histogram::new(grouping, max)
}

/// `Histogram::increment`: the counter of the value's bucket goes up by one, wrapping; a value
/// beyond the end is refused and changes nothing. Left out is the end itself, on which the call
/// panics.
#[verifier::external_body]
pub(crate) fn count_sample(h: &mut Histogram, value: u64) -> (r: Result<(), histogram::Error>)
    requires
        powers(*old(h)).1 < 64,
        value != pow2(powers(*old(h)).1 as nat),
    ensures
        r is Ok <==> value <= pow2(powers(*old(h)).1 as nat),
        powers(*final(h)) == powers(*old(h)),
        counters(*final(h)) == counted(counters(*old(h)), powers(*old(h)), value),
{
    h.increment(value)
}

/// `Histogram::percentile` and the start of the bucket's range, for a whole percentage. The
/// contract names the value, and says that it is 0 or where a bucket with samples begins, that it
/// is 0 where nothing was counted, and that no lower percentage has a higher one. At 50, 95 and
/// 99 percent of up to 2 to the 40th samples it says which bucket that is: the rank is reckoned in
/// floating point, which is exact there.
#[verifier::external_body]
pub(crate) fn percentile_start(h: &Histogram, percent: u8) -> (r: Result<u64, histogram::Error>)
    requires
        percent <= 99,
    ensures
        r is Ok,
        r->Ok_0 == percentile_floor(counters(*h), powers(*h).0, percent),
        all_zero(counters(*h)) ==> r->Ok_0 == 0,
        starts_counted(counters(*h), powers(*h).0, r->Ok_0),
        forall|q: u8|
            q <= percent ==> #[trigger] percentile_floor(counters(*h), powers(*h).0, q) <= r->Ok_0,
        (percent == 50 || percent == 95 || percent == 99) && few_samples(counters(*h))
            ==> starts_rank(counters(*h), powers(*h).0, percent as int, r->Ok_0),
{
    h.percentile(percent.into()).map(|bucket| *bucket.range().start())
}

proof fn lemma_log_floor(v: int)
    requires
        v >= 1,
    ensures
        log(2, v) >= 0,
        pow2(log(2, v) as nat) <= v < pow2((log(2, v) + 1) as nat),
    decreases v,
{
    lemma2_to64();
    if v < 2 {
        lemma_log0(2, v);
    } else {
        lemma_log_floor(v / 2);
        lemma_log_s(2, v);
        let p = log(2, v / 2);
        lemma_pow2_unfold((p + 1) as nat);
        lemma_pow2_unfold((p + 2) as nat);
    }
}

/// The parts of a value that is counted with others: the power of two below it, how wide its
/// bucket is, and which of that power's buckets it falls into.
proof fn lemma_wide_bucket(grouping: u8, value: u64)
    requires
        value >= pow2((grouping + 1) as nat),
    ensures
        ({
            let p = log(2, value as int);
            let width = pow2((p - grouping) as nat) as int;
            let offset = (value - pow2(p as nat)) / width;
            &&& p >= grouping + 1
            &&& pow2(p as nat) <= value < pow2((p + 1) as nat)
            &&& width > 0
            &&& 0 <= offset < pow2(grouping as nat)
            &&& pow2(p as nat) + width * offset <= value
        }),
{
    let g = grouping as nat;
    let unit = pow2(g) as int;
    lemma_pow2_pos(g + 1);
    lemma_log_floor(value as int);
    let p = log(2, value as int);
    if p < g + 1 {
        if p + 1 < g + 1 {
            lemma_pow2_strictly_increases((p + 1) as nat, g + 1);
        }
        assert(false);
    }
    lemma_pow2_unfold((p + 1) as nat);
    let width = pow2((p - grouping) as nat) as int;
    lemma_pow2_pos((p - grouping) as nat);
    lemma_pow2_adds((p - grouping) as nat, g);
    assert((p - grouping) as nat + g == p as nat);
    let over = value - pow2(p as nat);
    let offset = over / width;
    assert(0 <= offset < unit && width * offset <= over) by (nonlinear_arith)
        requires
            offset == over / width,
            0 <= over < width * unit,
            width > 0,
    ;
}

/// Every value below the end has a bucket.
pub proof fn law_values_have_buckets(grouping: u8, max: u8, value: u64)
    requires
        grouping < max,
        value < pow2(max as nat),
    ensures
        0 <= bucket_of(grouping, value) < no_samples(grouping, max).len(),
{
    let g = grouping as nat;
    let unit = pow2(g) as int;
    lemma_pow2_pos(g);
    lemma_pow2_unfold(g + 1);
    let size = (max - grouping + 1) * unit;
    assert(size >= 2 * unit) by (nonlinear_arith)
        requires
            size == (max - grouping + 1) * unit,
            grouping < max,
            unit > 0,
    ;
    if value >= pow2(g + 1) {
        lemma_wide_bucket(grouping, value);
        let p = log(2, value as int);
        if p >= max {
            if p > max {
                lemma_pow2_strictly_increases(max as nat, p as nat);
            }
            assert(false);
        }
        let offset = (value - pow2(p as nat)) / (pow2((p - grouping) as nat) as int);
        let bin = p - grouping + 1;
        assert(0 <= bin * unit + offset < size) by (nonlinear_arith)
            requires
                0 <= offset < unit,
                0 <= bin,
                bin + 1 <= max - grouping + 1,
                size == (max - grouping + 1) * unit,
                unit > 0,
        ;
    }
}

/// The bucket of a value begins at the value or before it.
pub proof fn law_buckets_begin_below(grouping: u8, value: u64)
    ensures
        0 <= bucket_floor(grouping, bucket_of(grouping, value)) <= value,
{
    let g = grouping as nat;
    let unit = pow2(g) as int;
    lemma_pow2_pos(g);
    lemma_pow2_unfold(g + 1);
    lemma2_to64();
    let bucket = bucket_of(grouping, value);
    if value < pow2(g + 1) {
        assert(bucket / unit == 0 && bucket % unit == bucket || bucket / unit == 1 && bucket % unit
            == bucket - unit) by (nonlinear_arith)
            requires
                0 <= bucket < 2 * unit,
                unit > 0,
        ;
        if bucket / unit == 1 {
            assert((grouping + 1 - 1) as nat == g);
            assert(bucket_floor(grouping, bucket) == unit + 1 * (bucket - unit));
        }
    } else {
        lemma_wide_bucket(grouping, value);
        let p = log(2, value as int);
        let width = pow2((p - grouping) as nat) as int;
        let offset = (value - pow2(p as nat)) / width;
        let bin = p - grouping + 1;
        assert(bucket / unit == bin && bucket % unit == offset) by (nonlinear_arith)
            requires
                bucket == bin * unit + offset,
                0 <= offset < unit,
        ;
        assert((grouping + bin - 1) as nat == p as nat);
        assert((bin - 1) as nat == (p - grouping) as nat);
        assert(bucket_floor(grouping, bucket) == pow2(p as nat) + width * offset);
        assert(width * offset >= 0) by (nonlinear_arith)
            requires
                width > 0,
                offset >= 0,
        ;
    }
}

/// Counting keeps the number of buckets, and what was counted stays below an end that the new
/// sample does not pass.
pub proof fn law_counting_stays_within(
    counters: Seq<u64>,
    grouping: u8,
    max: u8,
    value: u64,
    end: u64,
)
    requires
        grouping < max,
        counters.len() == no_samples(grouping, max).len(),
        counted_up_to(counters, grouping, end),
        value != pow2(max as nat),
        value <= end,
    ensures
        counted(counters, (grouping, max), value).len() == counters.len(),
        counted_up_to(counted(counters, (grouping, max), value), grouping, end),
{
    if value < pow2(max as nat) {
        law_values_have_buckets(grouping, max, value);
        law_buckets_begin_below(grouping, value);
    }
}

proof fn lemma_floors_rise_by_one(grouping: u8, b: int, n: int)
    requires
        0 <= b,
        n == b + 1,
    ensures
        bucket_floor(grouping, b) < bucket_floor(grouping, n),
{
    let g = grouping as nat;
    let unit = pow2(g) as int;
    lemma_pow2_pos(g);
    lemma2_to64();
    let bin = b / unit;
    let offset = b % unit;
    assert(b == bin * unit + offset && 0 <= offset < unit && bin >= 0) by (nonlinear_arith)
        requires
            bin == b / unit,
            offset == b % unit,
            unit > 0,
            b >= 0,
    ;
    if offset + 1 < unit {
        assert(n / unit == bin && n % unit == offset + 1) by (nonlinear_arith)
            requires
                n == bin * unit + offset + 1,
                0 <= offset + 1 < unit,
        ;
        if bin >= 1 {
            let width = pow2((bin - 1) as nat) as int;
            lemma_pow2_pos((bin - 1) as nat);
            assert(width * offset < width * (offset + 1)) by (nonlinear_arith)
                requires
                    width > 0,
            ;
        }
    } else {
        assert(n / unit == bin + 1 && n % unit == 0) by (nonlinear_arith)
            requires
                n == bin * unit + unit,
                unit > 0,
        ;
        assert((grouping + (bin + 1) - 1) as nat == (g + bin) as nat);
        assert(pow2(bin as nat) * 0 == 0) by (nonlinear_arith);
        assert((bin + 1 - 1) as nat == bin as nat);
        assert(bucket_floor(grouping, n) == pow2((g + bin) as nat));
        if bin >= 1 {
            let width = pow2((bin - 1) as nat) as int;
            lemma_pow2_pos((bin - 1) as nat);
            let start = pow2((grouping + bin - 1) as nat) as int;
            lemma_pow2_adds((bin - 1) as nat, g);
            assert((bin - 1) as nat + g == (grouping + bin - 1) as nat);
            lemma_pow2_unfold((g + bin) as nat);
            assert(((g + bin) as nat - 1) as nat == (grouping + bin - 1) as nat);
            assert(width * offset < start) by (nonlinear_arith)
                requires
                    start == width * unit,
                    offset + 1 == unit,
                    width > 0,
            ;
        } else {
            assert((g + bin) as nat == g);
        }
    }
}

/// Buckets further on begin at larger values.
pub proof fn law_floors_rise(grouping: u8, a: int, b: int)
    requires
        0 <= a < b,
    ensures
        bucket_floor(grouping, a) < bucket_floor(grouping, b),
    decreases b - a,
{
    lemma_floors_rise_by_one(grouping, b - 1, b);
    if a < b - 1 {
        law_floors_rise(grouping, a, b - 1);
    }
}

/// The bucket of a value is the one whose range holds it: it begins at the value or before it, and
/// the next one begins behind it.
pub proof fn law_buckets_hold_their_values(grouping: u8, value: u64)
    ensures
        ({
            let b = bucket_of(grouping, value);
            &&& b >= 0
            &&& bucket_floor(grouping, b) <= value
            &&& value < bucket_floor(grouping, b + 1)
        }),
{
    let g = grouping as nat;
    let unit = pow2(g) as int;
    lemma_pow2_pos(g);
    lemma_pow2_unfold(g + 1);
    lemma2_to64();
    law_buckets_begin_below(grouping, value);
    let b = bucket_of(grouping, value);
    if value < pow2(g + 1) {
        let n = b + 1;
        assert(n / unit == 0 && n % unit == n || n / unit == 1 && n % unit == n - unit || n / unit
            == 2 && n % unit == 0) by (nonlinear_arith)
            requires
                1 <= n <= 2 * unit,
                unit > 0,
        ;
        if n / unit == 1 {
            assert((grouping + 1 - 1) as nat == g);
            assert(bucket_floor(grouping, n) == unit + 1 * (n - unit));
        } else if n / unit == 2 {
            assert(n == 2 * unit) by (nonlinear_arith)
                requires
                    n / unit == 2,
                    n % unit == 0,
                    unit > 0,
            ;
            assert((grouping + 2 - 1) as nat == g + 1);
            assert(pow2((2 - 1) as nat) * 0 == 0) by (nonlinear_arith);
        }
    } else {
        lemma_wide_bucket(grouping, value);
        let p = log(2, value as int);
        let width = pow2((p - grouping) as nat) as int;
        let over = value - pow2(p as nat);
        let offset = over / width;
        let bin = p - grouping + 1;
        assert(over < width * (offset + 1)) by (nonlinear_arith)
            requires
                offset == over / width,
                width > 0,
        ;
        assert(b >= 0) by (nonlinear_arith)
            requires
                b == bin * unit + offset,
                bin >= 0,
                unit > 0,
                offset >= 0,
        ;
        if offset + 1 < unit {
            assert((b + 1) / unit == bin && (b + 1) % unit == offset + 1) by (nonlinear_arith)
                requires
                    b == bin * unit + offset,
                    0 <= offset,
                    offset + 1 < unit,
            ;
            assert((grouping + bin - 1) as nat == p as nat);
            assert((bin - 1) as nat == (p - grouping) as nat);
            assert(bucket_floor(grouping, b + 1) == pow2(p as nat) + width * (offset + 1));
        } else {
            assert((b + 1) / unit == bin + 1 && (b + 1) % unit == 0) by (nonlinear_arith)
                requires
                    b == bin * unit + offset,
                    offset + 1 == unit,
                    unit > 0,
            ;
            assert((grouping + (bin + 1) - 1) as nat == (p + 1) as nat);
            assert(pow2((bin + 1 - 1) as nat) * 0 == 0) by (nonlinear_arith);
            assert(bucket_floor(grouping, b + 1) == pow2((p + 1) as nat));
        }
    }
}

/// Counting a sample below the end adds one to the counter of the bucket whose range holds it,
/// wrapping around, and changes no other; a sample beyond the end changes none.
pub proof fn law_one_counter_goes_up(
    counters: Seq<u64>,
    grouping: u8,
    max: u8,
    value: u64,
    bucket: int,
)
    requires
        grouping < max,
        counters.len() == no_samples(grouping, max).len(),
        value != pow2(max as nat),
        0 <= bucket < counters.len(),
    ensures
        counted(counters, (grouping, max), value).len() == counters.len(),
        counted(counters, (grouping, max), value)[bucket] == (if value < pow2(max as nat)
            && bucket_floor(grouping, bucket) <= value < bucket_floor(grouping, bucket + 1) {
            counters[bucket].wrapping_add(1)
        } else {
            counters[bucket]
        }),
{
    if value < pow2(max as nat) {
        law_values_have_buckets(grouping, max, value);
        law_buckets_hold_their_values(grouping, value);
        let own = bucket_of(grouping, value);
        if own < bucket {
            if own + 1 < bucket {
                law_floors_rise(grouping, own + 1, bucket);
            }
        } else if bucket < own {
            if bucket + 1 < own {
                law_floors_rise(grouping, bucket + 1, own);
            }
        }
    }
}

/// How many of these values lie below the end and in a bucket that begins at `value` or before,
/// or, where `strictly`, before it.
pub open spec fn counted_upto(
    times: Seq<u64>,
    grouping: u8,
    max: u8,
    value: u64,
    strictly: bool,
) -> int
    decreases times.len(),
{
    if times.len() == 0 {
        0
    } else {
        let t = times.last();
        let start = bucket_floor(grouping, bucket_of(grouping, t));
        counted_upto(times.drop_last(), grouping, max, value, strictly) + (if t < pow2(max as nat)
            && (if strictly {
            start < value
        } else {
            start <= value
        }) {
            1int
        } else {
            0
        })
    }
}

/// How many of these values lie below the end.
pub open spec fn counted_in(times: Seq<u64>, max: u8) -> int
    decreases times.len(),
{
    if times.len() == 0 {
        0
    } else {
        counted_in(times.drop_last(), max) + (if times.last() < pow2(max as nat) {
            1int
        } else {
            0
        })
    }
}

/// The counters after these values were counted, in turn, from none on.
pub open spec fn counters_of(times: Seq<u64>, grouping: u8, max: u8) -> Seq<u64>
    decreases times.len(),
{
    if times.len() == 0 {
        no_samples(grouping, max)
    } else {
        counted(counters_of(times.drop_last(), grouping, max), (grouping, max), times.last())
    }
}

/// How many of these values a bucket before the `n`-th counts.
spec fn in_first(times: Seq<u64>, grouping: u8, max: u8, n: int) -> int
    decreases times.len(),
{
    if times.len() == 0 {
        0
    } else {
        in_first(times.drop_last(), grouping, max, n) + (if times.last() < pow2(max as nat)
            && bucket_of(grouping, times.last()) < n {
            1int
        } else {
            0
        })
    }
}

proof fn lemma_none_below(grouping: u8, max: u8, n: int)
    requires
        0 <= n <= no_samples(grouping, max).len(),
    ensures
        samples_below(no_samples(grouping, max), n) == 0,
    decreases n,
{
    if n > 0 {
        lemma_none_below(grouping, max, n - 1);
    }
}

proof fn lemma_below_update(c: Seq<u64>, b: int, v: u64, n: int)
    requires
        0 <= b < c.len(),
        0 <= n <= c.len(),
    ensures
        samples_below(c.update(b, v), n) == samples_below(c, n) + (if b < n {
            v - c[b]
        } else {
            0
        }),
    decreases n,
{
    if n > 0 {
        lemma_below_update(c, b, v, n - 1);
    }
}

proof fn lemma_counter_bound(c: Seq<u64>, b: int, n: int)
    requires
        0 <= b < n <= c.len(),
    ensures
        c[b] <= samples_below(c, n),
        samples_below(c, n) >= 0,
    decreases n,
{
    if b < n - 1 {
        lemma_counter_bound(c, b, n - 1);
    } else {
        lemma_below_positive(c, n - 1);
    }
}

proof fn lemma_below_positive(c: Seq<u64>, n: int)
    ensures
        samples_below(c, n) >= 0,
    decreases n,
{
    if n > 0 {
        lemma_below_positive(c, n - 1);
    }
}

proof fn lemma_counters_of(times: Seq<u64>, grouping: u8, max: u8, n: int)
    requires
        grouping < max,
        times.len() <= u64::MAX,
        forall|i: int| 0 <= i < times.len() ==> #[trigger] times[i] != pow2(max as nat),
        0 <= n <= no_samples(grouping, max).len(),
    ensures
        counters_of(times, grouping, max).len() == no_samples(grouping, max).len(),
        samples_below(counters_of(times, grouping, max), n) == in_first(times, grouping, max, n),
        samples(counters_of(times, grouping, max)) == counted_in(times, max),
        counted_in(times, max) <= times.len(),
    decreases times.len(),
{
    let len = no_samples(grouping, max).len() as int;
    if times.len() == 0 {
        lemma_none_below(grouping, max, n);
        lemma_none_below(grouping, max, len);
    } else {
        let fewer = times.drop_last();
        let t = times.last();
        assert forall|i: int| 0 <= i < fewer.len() implies #[trigger] fewer[i] != pow2(
            max as nat,
        ) by {
            assert(times[i] != pow2(max as nat));
        }
        assert(times[times.len() - 1] != pow2(max as nat));
        lemma_counters_of(fewer, grouping, max, n);
        let c = counters_of(fewer, grouping, max);
        if t < pow2(max as nat) {
            law_values_have_buckets(grouping, max, t);
            let b = bucket_of(grouping, t);
            lemma_counter_bound(c, b, len);
            let v = c[b].wrapping_add(1);
            assert(v == c[b] + 1);
            lemma_below_update(c, b, v, n);
            lemma_below_update(c, b, v, len);
        }
    }
}

proof fn lemma_upto_is_first(times: Seq<u64>, grouping: u8, max: u8, value: u64, bucket: int)
    requires
        0 <= bucket,
        value == bucket_floor(grouping, bucket),
    ensures
        counted_upto(times, grouping, max, value, false) == in_first(
            times,
            grouping,
            max,
            bucket + 1,
        ),
        counted_upto(times, grouping, max, value, true) == in_first(times, grouping, max, bucket),
    decreases times.len(),
{
    if times.len() > 0 {
        lemma_upto_is_first(times.drop_last(), grouping, max, value, bucket);
        let own = bucket_of(grouping, times.last());
        law_buckets_hold_their_values(grouping, times.last());
        if own < bucket {
            law_floors_rise(grouping, own, bucket);
        } else if bucket < own {
            law_floors_rise(grouping, bucket, own);
        }
    }
}

/// Where a percentile of the samples starts, told of the values themselves: at least so many
/// percent of those that were counted lie in a bucket that begins there or before, and, unless it
/// is the very first bucket, fewer in one that begins before.
pub proof fn law_percentile_of_times(
    times: Seq<u64>,
    grouping: u8,
    max: u8,
    percent: int,
    value: u64,
)
    requires
        grouping < max,
        times.len() <= u64::MAX,
        forall|i: int| 0 <= i < times.len() ==> #[trigger] times[i] != pow2(max as nat),
        starts_rank(counters_of(times, grouping, max), grouping, percent, value),
    ensures
        100 * counted_upto(times, grouping, max, value, false) >= percent * counted_in(times, max),
        value > 0 ==> 100 * counted_upto(times, grouping, max, value, true) < percent * counted_in(
            times,
            max,
        ),
{
    let c = counters_of(times, grouping, max);
    let b = choose|b: int| #[trigger] ranks_at(c, percent, b) && value == bucket_floor(grouping, b);
    lemma_counters_of(times, grouping, max, 0);
    lemma_counters_of(times, grouping, max, b);
    lemma_counters_of(times, grouping, max, b + 1);
    lemma_upto_is_first(times, grouping, max, value, b);
    if b == 0 {
        let unit = pow2(grouping as nat) as int;
        lemma_pow2_pos(grouping as nat);
        assert(0int / unit == 0 && 0int % unit == 0) by (nonlinear_arith)
            requires
                unit > 0,
        ;
    }
}

} // verus!
