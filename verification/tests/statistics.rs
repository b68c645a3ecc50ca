use std::collections::hash_map::DefaultHasher;
use std::hash::{Hash, Hasher};

use atomic_bomb_engine::board::{ApiResult, Board};
use atomic_bomb_engine::error_stats::{AssertErrKey, AssertErrorStats, ErrKey, HttpErrorStats};
use atomic_bomb_engine::tally::{Mark, Tally, LATENCY_END};

fn key(name: &str, code: u16) -> ErrKey {
    ErrKey {
        name: name.to_string(),
        code,
        msg: "m".to_string(),
        url: "u".to_string(),
        source: "s".to_string(),
    }
}

#[test]
fn http_error_keys_compare_by_code() {
    assert!(key("a", 500) == key("b", 500));
    assert!(key("a", 500) != key("a", 404));
}

#[test]
fn assert_error_keys_compare_by_every_field() {
    let one = AssertErrKey { name: "n".to_string(), msg: "m".to_string(), url: "u".to_string() };
    let mut other = one.copy();
    assert!(one == other);
    other.msg = "x".to_string();
    assert!(one != other);
}

#[test]
fn http_errors_are_counted_by_every_field() {
    let mut stats = HttpErrorStats::new();
    assert!(stats.to_vec().is_empty());
    for name in ["a", "b", "a"] {
        stats.increment(
            name.to_string(),
            "u".to_string(),
            500,
            "m".to_string(),
            "s".to_string(),
        );
    }
    let counts: Vec<(String, u32)> =
        stats.to_vec().iter().map(|(k, n)| (k.name.clone(), *n)).collect();
    assert_eq!(counts, vec![("a".to_string(), 2), ("b".to_string(), 1)]);
}

#[test]
fn assert_errors_are_counted() {
    let mut stats = AssertErrorStats::new();
    for msg in ["x", "y", "y"] {
        stats.increment("n".to_string(), msg.to_string(), "u".to_string());
    }
    let counts: Vec<(String, u32)> =
        stats.to_vec().iter().map(|(k, n)| (k.msg.clone(), *n)).collect();
    assert_eq!(counts, vec![("x".to_string(), 1), ("y".to_string(), 2)]);
}

#[test]
fn fresh_tally_has_counted_nothing() {
    let tally = Tally::new();
    assert_eq!(tally.total_requests(), 0);
    assert_eq!(tally.max_response_time(), 0);
    assert_eq!(tally.min_response_time(), u64::MAX);
    assert_eq!(tally.percentile(50), 0);
    assert_eq!(tally.percentile(99), 0);
}

#[test]
fn tally_takes_times() {
    let mut tally = Tally::new();
    for millis in 1..=100u64 {
        assert!(!tally.mark(Mark::Timed(millis)));
    }
    assert_eq!(tally.percentile(50), 50);
    assert_eq!(tally.percentile(95), 95);
    assert_eq!(tally.percentile(99), 99);
    assert_eq!(tally.min_response_time(), 1);
    assert_eq!(tally.max_response_time(), 100);
    assert!(tally.mark(Mark::Timed(LATENCY_END + 1)));
    assert_eq!(tally.percentile(99), 99);
    assert_eq!(tally.max_response_time(), 1048577);
}

#[test]
fn tally_groups_long_times() {
    let mut tally = Tally::new();
    tally.mark(Mark::Timed(40001));
    assert_eq!(tally.percentile(50), 40000);
    let mut last = Tally::new();
    last.mark(Mark::Timed(1048575));
    assert_eq!(last.percentile(50), 1048544);
}

#[test]
fn tally_counts_marks() {
    let mut tally = Tally::new();
    tally.mark(Mark::Started);
    tally.mark(Mark::Requested);
    tally.mark(Mark::Requested);
    tally.mark(Mark::Received(10));
    tally.mark(Mark::Received(5));
    tally.mark(Mark::Failed);
    tally.mark(Mark::Succeeded);
    assert_eq!(tally.concurrent_number(), 1);
    assert_eq!(tally.total_requests(), 2);
    assert_eq!(tally.response_bytes(), 15);
    assert_eq!(tally.err_count(), 1);
    assert_eq!(tally.successful_requests(), 1);
    tally.mark(Mark::Received(usize::MAX));
    assert_eq!(tally.response_bytes(), 14);
}

#[test]
fn fresh_result_is_blank() {
    let result = ApiResult::new();
    assert_eq!(result.name, "");
    assert_eq!(result.total_requests, 0);
    assert_eq!(result.min_response_time, 0);
    assert_eq!(result.sampled_at, None);
    assert_eq!(result.rated_at, None);
}

fn board() -> Board {
    let mut board = Board::new();
    board.join("one", "http://h.example:8080/a/b?q=1", "get");
    board.join("two", "no url", "post");
    board
}

#[test]
fn run_adds_up_to_its_endpoints() {
    let mut b = board();
    assert_eq!(b.endpoints(), 2);
    b.mark(0, Mark::Requested);
    b.mark(1, Mark::Requested);
    b.mark(1, Mark::Requested);
    b.mark(0, Mark::Timed(7));
    b.mark(1, Mark::Timed(3));
    b.mark(1, Mark::Timed(9));
    b.mark(0, Mark::Received(100));
    b.mark(1, Mark::Received(20));
    b.mark(0, Mark::Succeeded);
    b.mark(1, Mark::Failed);
    b.mark(0, Mark::Started);
    b.mark(1, Mark::Started);
    b.publish(0, "get", 5);
    b.publish(1, "post", 6);
    let result = b.collect_results(1_000_000_000, 77);
    assert_eq!(result.elapsed, 1_000_000_000);
    assert_eq!(result.timestamp, 77);
    assert_eq!(result.total_requests, 3);
    assert_eq!(result.rated_requests, 3);
    assert_eq!(result.successful_requests, 1);
    assert_eq!(result.err_count, 1);
    assert_eq!(result.errors, 1);
    assert_eq!(result.errors_per_second, 1);
    assert_eq!(result.data_bytes, 120);
    assert_eq!(result.max_response_time, 9);
    assert_eq!(result.min_response_time, 3);
    assert_eq!(result.median_response_time, 7);
    assert_eq!(result.total_concurrent_number, 2);
    let one = &result.api_results[0];
    assert_eq!(one.method, "GET");
    assert_eq!(one.total_requests, 1);
    assert_eq!(one.median_response_time, 7);
    assert_eq!(one.data_bytes, 100);
    assert_eq!(one.sampled_at, Some(5));
    let two = &result.api_results[1];
    assert_eq!(two.total_requests, 2);
    assert_eq!(two.err_count, 1);
    assert_eq!((two.min_response_time, two.max_response_time), (3, 9));
}

#[test]
fn reports_take_hosts_and_paths() {
    let mut b = board();
    let result = b.collect_results(9, 0);
    assert_eq!(result.api_results[0].host, "h.example");
    assert_eq!(result.api_results[0].path, "/a/b");
    assert_eq!(result.api_results[0].rated_at, Some(9));
    assert_eq!(result.api_results[1].host, "");
    assert_eq!(result.api_results[1].path, "");
    b.publish(0, "get", 10);
    let mut other = Board::new();
    other.join("mail", "mailto:a@b", "get");
    let result = other.collect_results(1, 0);
    assert_eq!(result.api_results[0].host, "");
    assert_eq!(result.api_results[0].path, "a@b");
}

#[test]
fn reports_tell_only_what_is_new() {
    let mut b = board();
    b.mark(0, Mark::Requested);
    b.mark(0, Mark::Failed);
    assert!(b.can_collect());
    assert!(b.can_conclude());
    let first = b.collect_results(1, 0);
    assert_eq!((first.rated_requests, first.errors_per_second), (1, 1));
    let again = b.collect_results(2, 0);
    assert_eq!((again.rated_requests, again.errors_per_second), (0, 0));
    b.mark(1, Mark::Requested);
    b.mark(1, Mark::Requested);
    b.mark(1, Mark::Failed);
    let third = b.collect_results(3, 0);
    assert_eq!((third.rated_requests, third.errors_per_second), (2, 1));
    assert_eq!(third.total_requests, 3);
    b.mark(1, Mark::Failed);
    let end = b.conclude(4, 0);
    assert_eq!(end.rated_requests, 3);
    assert_eq!(end.errors_per_second, 1);
    assert_eq!(end.err_count, 3);
}

#[test]
fn errors_are_reported_with_their_counts() {
    let mut b = board();
    for _ in 0..2 {
        b.http_error(
            "one".to_string(),
            "u".to_string(),
            0,
            "refused".to_string(),
            "None".to_string(),
        );
    }
    b.assert_error("one".to_string(), "bad".to_string(), "u".to_string());
    let result = b.conclude(1, 0);
    assert_eq!(result.http_errors.len(), 1);
    assert_eq!(result.http_errors[0].1, 2);
    assert_eq!(result.http_errors[0].0.msg, "refused");
    assert_eq!(result.assert_errors.len(), 1);
    assert_eq!(result.assert_errors[0].0.msg, "bad");
}

#[test]
fn counts_add_up_by_code() {
    let mut stats = HttpErrorStats::new();
    let calls = [("a", 500), ("b", 500), ("a", 404), ("a", 500), ("c", 0)];
    for (name, code) in calls {
        stats.increment(
            name.to_string(),
            "u".to_string(),
            code,
            "m".to_string(),
            "s".to_string(),
        );
    }
    let list = stats.to_vec();
    let under = |code: u16| -> u32 {
        list.iter().filter(|(k, _)| k.code == code).map(|(_, n)| *n).sum()
    };
    assert_eq!((under(500), under(404), under(0), under(200)), (3, 1, 1, 0));
    assert_eq!(list.iter().map(|(_, n)| *n).sum::<u32>(), 5);
    assert!(list.iter().all(|(_, n)| *n >= 1));
}

#[test]
fn percentiles_are_in_order() {
    let mut b = board();
    for millis in [5, 70000, 3, 900000, 40, 40, 1048575, 2] {
        b.mark(0, Mark::Timed(millis));
    }
    b.publish(0, "get", 1);
    let result = b.collect_results(2, 0);
    assert!(result.median_response_time <= result.response_time_95);
    assert!(result.response_time_95 <= result.response_time_99);
    assert!(result.response_time_99 <= result.max_response_time);
    let one = &result.api_results[0];
    assert_eq!(one.median_response_time, 40);
    assert_eq!(one.response_time_99, 1048544);
    assert_eq!(one.max_response_time, 1048575);
}

#[test]
fn reports_tell_everything_once() {
    let mut b = board();
    let mut errors = 0;
    let mut requests = 0;
    let mut last = (0, 0);
    for round in 0..5usize {
        for _ in 0..round {
            b.mark(round % 2, Mark::Requested);
            b.mark(round % 2, Mark::Failed);
        }
        b.mark(1, Mark::Requested);
        let report = b.collect_results(round as u128, 0);
        errors += report.errors_per_second;
        requests += report.rated_requests;
        last = (report.err_count as usize, report.total_requests as usize);
    }
    assert_eq!((errors, requests), (10, 15));
    assert_eq!((errors, requests), last);
    b.mark(0, Mark::Failed);
    assert_eq!(errors + b.conclude(9, 0).errors_per_second, 11);
}

#[test]
fn results_tell_of_no_more_than_was_made() {
    let mut b = board();
    b.mark(0, Mark::Requested);
    b.publish(0, "get", 1);
    b.mark(0, Mark::Requested);
    b.mark(1, Mark::Requested);
    let report = b.collect_results(2, 0);
    let told: u64 = report.api_results.iter().map(|r| r.total_requests).sum();
    assert_eq!((told, report.total_requests), (1, 3));
    b.publish(0, "get", 3);
    b.publish(1, "post", 3);
    let report = b.collect_results(4, 0);
    let told: u64 = report.api_results.iter().map(|r| r.total_requests).sum();
    assert_eq!((told, report.total_requests), (3, 3));
}

#[test]
fn keys_hash_as_their_debug_forms() {
    let key = ErrKey {
        name: "a\"".to_string(),
        code: 404,
        msg: "m".to_string(),
        url: "u".to_string(),
        source: "-".to_string(),
    };
    assert_eq!(key.hashed_text(), "\"a\\\"\"\"u\"404\"m\"\"-\"");
    let other =
        AssertErrKey { name: "n".to_string(), msg: "m".to_string(), url: "u".to_string() };
    assert_eq!(other.hashed_text(), "\"n\"\"u\"\"m\"");
    assert_eq!(hash_of(&key), hash_of(&key.hashed_text()));
    assert_eq!(hash_of(&other), hash_of(&other.hashed_text()));
}

fn hash_of<T: Hash>(value: &T) -> u64 {
    let mut hasher = DefaultHasher::new();
    value.hash(&mut hasher);
    hasher.finish()
}

#[test]
fn reports_enclose_their_times() {
    let mut b = board();
    for (index, millis) in [(0, 40), (1, 7), (0, 900), (1, 2000000)] {
        b.mark(index, Mark::Timed(millis));
        b.publish(index, "get", 1);
    }
    let report = b.collect_results(2, 0);
    assert_eq!((report.min_response_time, report.max_response_time), (7, 2000000));
    let extremes: Vec<(u64, u64)> =
        report.api_results.iter().map(|r| (r.min_response_time, r.max_response_time)).collect();
    assert_eq!(extremes, vec![(40, 900), (7, 2000000)]);
}
