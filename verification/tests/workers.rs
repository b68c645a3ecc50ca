use atomic_bomb_engine::assertion::listening_assert;
use atomic_bomb_engine::board::{BatchResult, Board};
use atomic_bomb_engine::extract_map::ExtractMap;
use atomic_bomb_engine::jsonpath::Selection;
use atomic_bomb_engine::models::{ApiEndpoint, AssertOption, ThinkTime};
use atomic_bomb_engine::template::Rendering;
use atomic_bomb_engine::think::{think, Think};
use atomic_bomb_engine::worker::{ok_status, Action, Worker};
use reqwest::header::{HeaderMap, HeaderValue};
use serde_json::Value;

fn endpoint() -> ApiEndpoint {
    ApiEndpoint {
        name: "test-1".to_string(),
        url: "http://127.0.0.1:8080/direct".to_string(),
        method: "post".to_string(),
        weight: 1,
        json: None,
        form_data: None,
        multipart_options: None,
        headers: None,
        cookies: None,
        assert_options: None,
        think_time_option: None,
        setup_options: None,
    }
}

fn board() -> Board {
    let mut board = Board::new();
    board.join("test-1", "http://127.0.0.1:8080/direct", "post");
    board
}

fn headers() -> HeaderMap<HeaderValue> {
    let mut headers = HeaderMap::new();
    headers.insert("a", HeaderValue::from_static("12"));
    headers
}

fn no_renderings() -> Vec<Rendering> {
    Vec::new()
}

fn no_selections() -> Vec<Selection> {
    Vec::new()
}

fn sending(worker: &mut Worker, board: &mut Board, e: &ApiEndpoint) {
    assert!(matches!(worker.permitted(board), Action::AskClock));
    assert!(matches!(worker.clock(e, &ExtractMap::new(), true), Action::Prepare));
    assert!(matches!(worker.prepare(e, &no_renderings()), Action::Send(_, _)));
}

fn answered(e: &ApiEndpoint, verbose: bool, status: u16) -> (Worker, Board) {
    let mut b = board();
    let mut w = Worker::new(0, false, verbose);
    sending(&mut w, &mut b, e);
    assert!(matches!(w.answered(&mut b, status, 12, &headers()), Action::ReadBody));
    (w, b)
}

fn counts(result: &BatchResult) -> (u64, usize, i32) {
    (result.total_requests, result.successful_requests, result.err_count)
}

#[test]
fn statuses_are_told_apart() {
    let good: Vec<u16> = (0..1000).filter(|status| ok_status(*status)).collect();
    assert_eq!(
        good,
        vec![
            200, 201, 202, 203, 204, 205, 206, 207, 208, 226, 300, 301, 302, 303, 304, 305, 307,
            308
        ]
    );
}

#[test]
fn good_answer_succeeds() {
    let e = endpoint();
    let (mut w, mut b) = answered(&e, false, 200);
    assert!(matches!(w.chunk(&mut b, &vec![1, 2, 3]), Action::ReadBody));
    assert!(matches!(w.chunk(&mut b, &vec![0xff]), Action::ReadBody));
    assert!(matches!(w.body_end(&mut b, &e), Action::AskElapsed));
    assert!(matches!(w.close(&mut b, &e, 5), Action::AskClock));
    assert!(matches!(w.clock(&e, &ExtractMap::new(), false), Action::Stop));
    let result = b.conclude(9, 0);
    assert_eq!(counts(&result), (1, 1, 0));
    assert_eq!(result.data_bytes, 7 + 4);
    assert_eq!(result.total_concurrent_number, 1);
    assert_eq!(result.median_response_time, 12);
    assert_eq!(result.api_results[0].total_requests, 1);
    assert_eq!(result.api_results[0].successful_requests, 1);
    assert_eq!(result.api_results[0].sampled_at, Some(5));
    assert_eq!(result.api_results[0].method, "POST");
}

#[test]
fn bad_status_is_recorded() {
    let e = endpoint();
    let (mut w, mut b) = answered(&e, false, 404);
    w.chunk(&mut b, &"no \"page\"".as_bytes().to_vec());
    assert!(matches!(w.body_end(&mut b, &e), Action::AskElapsed));
    w.close(&mut b, &e, 5);
    let result = b.conclude(9, 0);
    assert_eq!(counts(&result), (1, 0, 1));
    let (key, count) = &result.http_errors[0];
    assert_eq!(*count, 1);
    assert_eq!(key.code, 404);
    assert_eq!(key.msg, "HTTP 错误: 状态码 404, body:\"no \\\"page\\\"\"");
    assert_eq!(key.source, "-");
    assert_eq!(key.name, "test-1");
    assert_eq!(key.url, "http://127.0.0.1:8080/direct");
}

#[test]
fn unprintable_bodies_break_the_worker_off() {
    let e = endpoint();
    let (mut w, mut b) = answered(&e, false, 500);
    w.chunk(&mut b, &vec![0xff]);
    let action = w.body_end(&mut b, &e);
    assert!(matches!(&action, Action::Abort(text) if text == "无法转换响应体为字符串"));
    let result = b.conclude(9, 0);
    assert_eq!(counts(&result), (1, 0, 1));
    assert!(result.http_errors.is_empty());
    let (mut w, mut b) = answered(&e, true, 200);
    w.chunk(&mut b, &vec![0xff]);
    assert!(matches!(w.body_end(&mut b, &e), Action::Abort(_)));
    assert_eq!(counts(&b.conclude(9, 0)), (1, 0, 0));
}

#[test]
fn broken_off_body_is_an_error_and_still_an_answer() {
    let e = endpoint();
    let (mut w, mut b) = answered(&e, false, 200);
    let action = w.not_read(&mut b, &e, None, "broken".to_string(), None);
    assert!(matches!(action, Action::AskElapsed));
    let result = b.conclude(9, 0);
    assert_eq!(counts(&result), (1, 1, 1));
    assert_eq!(result.http_errors[0].0.code, 0);
    assert_eq!(result.http_errors[0].0.source, "-");
    let (mut w, mut b) = answered(&e, false, 200);
    w.not_read(&mut b, &e, Some(502), "broken".to_string(), Some("why".to_string()));
    let result = b.conclude(9, 0);
    assert_eq!(result.http_errors[0].0.code, 502);
    assert_eq!(result.http_errors[0].0.source, "why");
}

#[test]
fn unsent_request_is_an_error() {
    let e = endpoint();
    let mut b = board();
    let mut w = Worker::new(0, false, false);
    sending(&mut w, &mut b, &e);
    let action = w.not_sent(&mut b, &e, None, "refused".to_string(), None);
    assert!(matches!(action, Action::AskClock));
    let result = b.conclude(9, 0);
    assert_eq!(counts(&result), (1, 0, 1));
    assert_eq!(result.http_errors[0].0.code, 0);
    assert_eq!(result.http_errors[0].0.msg, "refused");
    assert_eq!(result.http_errors[0].0.source, "None");
    assert_eq!(result.api_results[0].total_requests, 0);
}

#[test]
fn answers_are_judged() {
    let mut e = endpoint();
    e.assert_options = Some(vec![AssertOption {
        jsonpath: "$.code".to_string(),
        reference_object: Value::from(2000000),
    }]);
    let (mut w, mut b) = answered(&e, false, 200);
    w.chunk(&mut b, &"{\"code\":2000000}".as_bytes().to_vec());
    match w.body_end(&mut b, &e) {
        Action::Judge(task) => {
            assert_eq!(task.api_name, "test-1");
            assert_eq!(task.url, "http://127.0.0.1:8080/direct");
            listening_assert(&mut b, &task, &no_selections());
        }
        _ => panic!("a judgement was expected"),
    }
    assert!(matches!(w.judged(), Action::AskElapsed));
    w.close(&mut b, &e, 5);
    assert_eq!(counts(&b.conclude(9, 0)), (1, 1, 0));
}

#[test]
fn empty_answers_are_not_judged() {
    let mut e = endpoint();
    e.assert_options = Some(Vec::new());
    let (mut w, mut b) = answered(&e, false, 204);
    assert!(matches!(w.body_end(&mut b, &e), Action::AskElapsed));
    assert_eq!(counts(&b.conclude(9, 0)), (1, 0, 0));
}

#[test]
fn setup_comes_first_and_fills_in_forms() {
    let mut e = endpoint();
    e.setup_options = Some(Vec::new());
    e.form_data = Some(vec![("k".to_string(), "{{n}}-{{g}}".to_string())]);
    e.headers = Some(vec![("x".to_string(), "{{n}}".to_string())]);
    let mut global = ExtractMap::new();
    global.insert("g".to_string(), Value::from("g"));
    let mut b = board();
    let mut w = Worker::new(0, false, false);
    w.permitted(&mut b);
    match w.clock(&e, &global, true) {
        Action::RunSetup(map) => assert_eq!(map.get("g"), Some(Value::from("g"))),
        _ => panic!("a setup was expected"),
    }
    assert!(matches!(w.setup_failed(), Action::Retry));
    assert!(matches!(w.clock(&e, &global, true), Action::RunSetup(_)));
    let mut found = ExtractMap::new();
    found.insert("n".to_string(), Value::from(1));
    assert!(matches!(w.setup_done(&Some(found)), Action::Prepare));
    match w.prepare(&e, &no_renderings()) {
        Action::Send(plan, Think::Not) => {
            assert_eq!(plan.form, Some(vec![("k".to_string(), "1-g".to_string())]));
            assert_eq!(plan.headers.get("x").unwrap(), "{{n}}");
        }
        _ => panic!("a request was expected"),
    }
}

#[test]
fn impossible_requests_stop_the_worker() {
    let mut e = endpoint();
    e.method = "no method".to_string();
    let mut b = board();
    let mut w = Worker::new(0, false, false);
    w.permitted(&mut b);
    w.clock(&e, &ExtractMap::new(), true);
    let action = w.prepare(&e, &no_renderings());
    assert!(matches!(&action, Action::Fail(text) if text == "构建请求方法失败"));
    let mut e = endpoint();
    e.headers = Some(vec![("bad name".to_string(), "x".to_string())]);
    let mut w = Worker::new(0, false, false);
    w.permitted(&mut b);
    w.clock(&e, &ExtractMap::new(), true);
    let action = w.prepare(&e, &no_renderings());
    assert!(matches!(&action, Action::Abort(text) if text == "无效的header名称"));
}

#[test]
fn worker_asks_for_renderings() {
    let mut e = endpoint();
    e.cookies = Some("{{#> part}}a{{/part}}".to_string());
    let mut b = board();
    let mut w = Worker::new(0, true, false);
    w.permitted(&mut b);
    w.clock(&e, &ExtractMap::new(), true);
    let action = w.prepare(&e, &no_renderings());
    assert!(matches!(
        &action,
        Action::Render(t, data) if t == "{{#> part}}a{{/part}}" && data.to_string() == "{}"
    ));
    let supplied = vec![Rendering {
        template: "{{#> part}}a{{/part}}".to_string(),
        text: Some("".to_string()),
    }];
    assert!(matches!(w.prepare(&e, &supplied), Action::Send(_, _)));
}

#[test]
fn think_time_stays_within_its_bounds() {
    assert!(matches!(think(&None), Think::Not));
    assert!(matches!(
        think(&Some(ThinkTime { min_millis: 500, max_millis: 300 })),
        Think::Refused
    ));
    assert!(matches!(
        think(&Some(ThinkTime { min_millis: 300, max_millis: 300 })),
        Think::Pause(300)
    ));
    for _ in 0..100 {
        match think(&Some(ThinkTime { min_millis: 300, max_millis: 500 })) {
            Think::Pause(millis) => assert!((300..=500).contains(&millis)),
            _ => panic!("a pause was expected"),
        }
    }
}

#[test]
fn errors_are_those_that_are_recorded() {
    let mut e = endpoint();
    e.assert_options = Some(vec![AssertOption {
        jsonpath: "$.code".to_string(),
        reference_object: Value::from(1),
    }]);
    let mut b = board();
    let recorded = |result: &BatchResult| -> u32 {
        result.http_errors.iter().map(|(_, n)| *n).sum::<u32>()
            + result.assert_errors.iter().map(|(_, n)| *n).sum::<u32>()
    };
    let mut one = Worker::new(0, false, false);
    let mut two = Worker::new(0, false, false);
    let mut three = Worker::new(0, false, false);
    sending(&mut one, &mut b, &e);
    sending(&mut two, &mut b, &e);
    sending(&mut three, &mut b, &e);
    one.answered(&mut b, 500, 1, &headers());
    three.not_sent(&mut b, &e, None, "refused".to_string(), None);
    two.answered(&mut b, 200, 1, &headers());
    two.chunk(&mut b, &"{\"code\":2}".as_bytes().to_vec());
    let action = two.not_read(&mut b, &e, None, "broken".to_string(), None);
    if let Action::Judge(task) = action {
        listening_assert(&mut b, &task, &no_selections());
    }
    let midway = b.collect_results(1, 0);
    assert_eq!((midway.err_count, recorded(&midway)), (4, 3));
    one.body_end(&mut b, &e);
    let end = b.conclude(2, 0);
    assert_eq!((end.err_count, recorded(&end)), (4, 4));
}
