use atomic_bomb_engine::assertion::{judge, listening_assert, AssertTask, Verdict};
use atomic_bomb_engine::board::Board;
use atomic_bomb_engine::jsonpath::Selection;
use atomic_bomb_engine::models::AssertOption;
use serde_json::Value;

fn option(path: &str, reference: Value) -> AssertOption {
    AssertOption { jsonpath: path.to_string(), reference_object: reference }
}

fn task(body: &str, options: Vec<AssertOption>) -> AssertTask {
    AssertTask {
        assert_options: options,
        body_bytes: body.as_bytes().to_vec(),
        verbose: false,
        api_name: "test-1".to_string(),
        url: "http://127.0.0.1:8080/direct".to_string(),
        index: 0,
    }
}

fn none() -> Vec<Selection> {
    Vec::new()
}

fn run(body: &str, options: Vec<AssertOption>) -> (Verdict, usize, i32, Vec<String>) {
    let mut board = Board::new();
    board.join("test-1", "http://127.0.0.1:8080/direct", "POST");
    let verdict = listening_assert(&mut board, &task(body, options), &none());
    let result = board.conclude(1, 0);
    let messages = result.assert_errors.iter().map(|(k, _)| k.msg.clone()).collect();
    (verdict, result.successful_requests, result.err_count, messages)
}

#[test]
fn equal_value_passes() {
    let (verdict, successes, errors, messages) =
        run("{\"code\":2000000}", vec![option("$.code", Value::from(2000000))]);
    assert!(matches!(verdict, Verdict::Passed));
    assert_eq!((successes, errors), (1, 0));
    assert!(messages.is_empty());
}

#[test]
fn no_assertions_pass() {
    let (verdict, successes, errors, _) = run("{}", vec![]);
    assert!(matches!(verdict, Verdict::Passed));
    assert_eq!((successes, errors), (1, 0));
}

#[test]
fn different_value_fails() {
    let (verdict, successes, errors, messages) =
        run("{\"code\":1}", vec![option("$.code", Value::from(2))]);
    assert!(matches!(verdict, Verdict::Different(_, _)));
    assert_eq!((successes, errors), (0, 1));
    assert_eq!(messages, vec!["预期结果：Number(2), 实际结果：Number(1)"]);
}

#[test]
fn no_match_fails() {
    let (verdict, successes, errors, messages) =
        run("{}", vec![option("$.code", Value::from(2))]);
    assert!(matches!(verdict, Verdict::NoMatch));
    assert_eq!((successes, errors), (0, 1));
    assert_eq!(messages, vec!["没有匹配到任何结果"]);
}

#[test]
fn many_matches_fail() {
    let (verdict, successes, errors, messages) =
        run("{\"a\":[1,1]}", vec![option("$.a[*]", Value::from(1))]);
    assert!(matches!(verdict, Verdict::ManyMatches));
    assert_eq!((successes, errors), (0, 1));
    assert_eq!(messages, vec!["匹配到多个值，无法断言"]);
}

#[test]
fn unreadable_body_fails() {
    let (verdict, successes, errors, messages) =
        run("oops", vec![option("$.code", Value::from(2))]);
    assert!(matches!(verdict, Verdict::Unreadable(_)));
    assert_eq!((successes, errors), (0, 1));
    assert_eq!(
        messages,
        vec!["JSONPath查询失败:Error(\"expected value\", line: 1, column: 1)"]
    );
}

#[test]
fn broken_path_is_neither_success_nor_error() {
    let (verdict, successes, errors, messages) = run("{}", vec![option("code", Value::from(2))]);
    assert!(matches!(verdict, Verdict::BadPath(_)));
    assert_eq!((successes, errors), (0, 0));
    assert!(messages.is_empty());
}

#[test]
fn first_failure_decides() {
    let options = vec![
        option("$.a", Value::from(1)),
        option("$.b", Value::from(1)),
        option("broken", Value::from(1)),
    ];
    let (verdict, _, errors, messages) = run("{\"a\":1,\"b\":2}", options);
    assert!(matches!(verdict, Verdict::Different(_, _)));
    assert_eq!(errors, 1);
    assert_eq!(messages.len(), 1);
}

#[test]
fn selections_are_asked_for() {
    let options = vec![option("$.a[?(@[0]>1)]", Value::from(2))];
    let (verdict, successes, errors, _) = run("{\"a\":[1,2]}", options);
    assert!(matches!(&verdict, Verdict::Unselected(p) if p == "$.a[?(@[0]>1)]"));
    assert_eq!((successes, errors), (0, 0));
    let supplied = vec![Selection {
        path: "$.a[?(@[0]>1)]".to_string(),
        outcome: Ok(vec![Value::from(2)]),
    }];
    let body = "{\"a\":[1,2]}".as_bytes().to_vec();
    let options = vec![option("$.a[?(@[0]>1)]", Value::from(2))];
    assert!(matches!(judge(&body, &options, &supplied), Verdict::Passed));
}

#[test]
fn judgements_of_one_endpoint_add_up() {
    let mut board = Board::new();
    board.join("test-1", "http://127.0.0.1:8080/direct", "POST");
    let bodies = ["{\"a\":1}", "{\"a\":2}", "{}", "oops", "{\"a\":1}"];
    for body in bodies {
        listening_assert(&mut board, &task(body, vec![option("$.a", Value::from(1))]), &none());
    }
    listening_assert(&mut board, &task("{}", vec![option("a", Value::from(1))]), &none());
    board.publish(0, "POST", 1);
    let result = board.conclude(2, 0);
    assert_eq!((result.successful_requests, result.err_count), (2, 3));
    let one = &result.api_results[0];
    assert_eq!((one.successful_requests, one.err_count), (2, 3));
    assert_eq!(result.assert_errors.iter().map(|(_, n)| *n).sum::<u32>(), 3);
}

#[test]
fn judgements_of_several_endpoints_add_up() {
    let mut board = Board::new();
    board.join("one", "u", "POST");
    board.join("two", "u", "POST");
    for (index, body) in [(0, "{\"a\":1}"), (1, "{}"), (1, "{\"a\":1}"), (0, "oops"), (1, "{}")] {
        let mut t = task(body, vec![option("$.a", Value::from(1))]);
        t.index = index;
        listening_assert(&mut board, &t, &none());
    }
    board.publish(0, "POST", 1);
    board.publish(1, "POST", 1);
    let result = board.conclude(2, 0);
    assert_eq!((result.successful_requests, result.err_count), (2, 3));
    let counts: Vec<(usize, i32)> =
        result.api_results.iter().map(|r| (r.successful_requests, r.err_count)).collect();
    assert_eq!(counts, vec![(1, 1), (1, 2)]);
    assert_eq!(result.assert_errors.iter().map(|(_, n)| *n).sum::<u32>(), 3);
}
