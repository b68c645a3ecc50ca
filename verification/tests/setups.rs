use atomic_bomb_engine::extract_map::ExtractMap;
use atomic_bomb_engine::jsonpath::Selection;
use atomic_bomb_engine::models::{JsonpathExtract, SetupApiEndpoint};
use atomic_bomb_engine::request::RequestError;
use atomic_bomb_engine::setup::{SetupAction, SetupError, SetupRun};
use atomic_bomb_engine::template::Rendering;
use serde_json::Value;

fn step(extracts: &[(&str, &str)]) -> SetupApiEndpoint {
    SetupApiEndpoint {
        name: "初始化-1".to_string(),
        url: "https://ooooo.run/api/short/v1/list".to_string(),
        method: "get".to_string(),
        json: None,
        form_data: None,
        multipart_options: None,
        headers: None,
        cookies: None,
        jsonpath_extract: Some(
            extracts
                .iter()
                .map(|(key, path)| JsonpathExtract {
                    key: key.to_string(),
                    jsonpath: path.to_string(),
                })
                .collect(),
        ),
    }
}

fn no_renderings() -> Vec<Rendering> {
    Vec::new()
}

fn no_selections() -> Vec<Selection> {
    Vec::new()
}

fn body(text: &str) -> Vec<u8> {
    text.as_bytes().to_vec()
}

fn failed(extracts: &[(&str, &str)], bytes: &Vec<u8>) -> SetupError {
    let mut run = SetupRun::new(vec![step(extracts)], &ExtractMap::new());
    run.answered(bytes, &no_selections()).err().unwrap()
}

#[test]
fn setup_extracts_values_and_uses_them() {
    let mut second = step(&[("test-msg", "$.msg")]);
    second.headers = Some(vec![("x".to_string(), "{{test-code}}".to_string())]);
    let mut run = SetupRun::new(vec![step(&[("test-code", "$.code")]), second], &ExtractMap::new());
    let action = run.next(&no_renderings());
    assert!(matches!(&action, SetupAction::Send(plan) if plan.method.as_str() == "GET"));
    assert!(run.wants_body());
    assert!(run.answered(&body("{\"code\":2000000,\"msg\":\"ok\"}"), &no_selections()).is_ok());
    match run.next(&no_renderings()) {
        SetupAction::Send(plan) => assert_eq!(plan.headers.get("x").unwrap(), "2000000"),
        _ => panic!("a request was expected"),
    }
    assert!(run.answered(&body("{\"code\":1,\"msg\":\"ok\"}"), &no_selections()).is_ok());
    match run.next(&no_renderings()) {
        SetupAction::Finish(Some(map)) => {
            assert_eq!(map.get("test-code"), Some(Value::from(2000000)));
            assert_eq!(map.get("test-msg"), Some(Value::from("ok")));
        }
        _ => panic!("the end was expected"),
    }
}

#[test]
fn setup_without_extracts_reads_no_body() {
    let mut only = step(&[]);
    only.jsonpath_extract = None;
    let mut run = SetupRun::new(vec![only], &ExtractMap::new());
    assert!(!run.wants_body());
    assert!(run.answered(&body("no json"), &no_selections()).is_ok());
    assert!(matches!(run.next(&no_renderings()), SetupAction::Finish(None)));
}

#[test]
fn setup_keeps_what_was_extracted_before() {
    let mut before = ExtractMap::new();
    before.insert("a".to_string(), Value::from(1));
    let mut run = SetupRun::new(vec![step(&[("b", "$.b")])], &before);
    assert!(run.answered(&body("{\"b\":2}"), &no_selections()).is_ok());
    match run.next(&no_renderings()) {
        SetupAction::Finish(Some(map)) => {
            assert_eq!(map.get("a"), Some(Value::from(1)));
            assert_eq!(map.get("b"), Some(Value::from(2)));
        }
        _ => panic!("the end was expected"),
    }
}

#[test]
fn setup_refuses_a_key_twice() {
    let error = failed(&[("k", "$.a"), ("k", "$.b")], &body("{\"a\":1,\"b\":2}"));
    assert!(matches!(&error, SetupError::Conflict(key) if key == "k"));
    assert_eq!(error.message(), "初始化失败::key \"k\"冲突");
}

#[test]
fn failed_step_changes_nothing() {
    let mut run = SetupRun::new(vec![step(&[("k", "$.a"), ("l", "$.b")])], &ExtractMap::new());
    assert!(run.answered(&body("{\"a\":1}"), &no_selections()).is_err());
    assert!(run.answered(&body("{\"a\":1,\"b\":2}"), &no_selections()).is_ok());
}

#[test]
fn setup_errors_read_as_told() {
    let none = failed(&[("k", "$.a")], &body("{}"));
    assert_eq!(none.message(), "初始化失败::jsonpath没有匹配到任何值");
    let many = failed(&[("k", "$.a[*]")], &body("{\"a\":[1,2]}"));
    assert_eq!(many.message(), "初始化失败::jsonpath匹配的不是唯一值");
    let path = failed(&[("k", "a")], &body("{}"));
    assert!(matches!(path, SetupError::BadPath(_)));
    assert!(path.message().starts_with("jsonpath提取数据失败::"));
    let json = failed(&[("k", "$.a")], &body("oops"));
    assert_eq!(
        json.message(),
        "转换json失败:Error(\"expected value\", line: 1, column: 1), 原始json: \"oops\""
    );
    let bytes = failed(&[("k", "$.a")], &vec![0xff]);
    assert!(bytes
        .message()
        .ends_with(", 原始json: \"invalid utf-8 sequence of 1 bytes from index 0\""));
    assert_eq!(SetupError::NotSent("x".to_string()).message(), "初始化失败:x");
    assert_eq!(SetupError::NotRead("x".to_string()).message(), "获取响应流失败:x");
}

#[test]
fn setup_asks_for_what_it_cannot_evaluate() {
    let error = failed(&[("k", "$.a[?(@[0]>1)]")], &body("{\"a\":[1,2]}"));
    assert!(matches!(&error, SetupError::Unselected(p) if p == "$.a[?(@[0]>1)]"));
    let mut run = SetupRun::new(vec![step(&[("k", "$.a[?(@[0]>1)]")])], &ExtractMap::new());
    let supplied = vec![Selection {
        path: "$.a[?(@[0]>1)]".to_string(),
        outcome: Ok(vec![Value::from(2)]),
    }];
    assert!(run.answered(&body("{\"a\":[1,2]}"), &supplied).is_ok());
}

#[test]
fn setup_fails_on_impossible_requests() {
    let mut bad = step(&[]);
    bad.method = "no method".to_string();
    let run = SetupRun::new(vec![bad], &ExtractMap::new());
    match run.next(&no_renderings()) {
        SetupAction::Fail(error) => assert_eq!(error.message(), "构建请求方法失败"),
        _ => panic!("a failure was expected"),
    }
    let mut broken = step(&[]);
    broken.json = Some(Value::from("{{{q}}}"));
    let mut map = ExtractMap::new();
    map.insert("q".to_string(), Value::from("\""));
    let run = SetupRun::new(vec![broken], &map);
    match run.next(&no_renderings()) {
        SetupAction::Fail(SetupError::Request(RequestError::BadJson(e, t))) => {
            let error = SetupError::Request(RequestError::BadJson(e, t));
            assert!(error.message().ends_with(",原始json: \"\\\"\\\"\\\"\""));
        }
        _ => panic!("a failure was expected"),
    }
}

#[test]
fn setup_refuses_a_key_that_was_extracted_before() {
    let mut before = ExtractMap::new();
    before.insert("k".to_string(), Value::from(1));
    let mut run = SetupRun::new(vec![step(&[("j", "$.a"), ("k", "$.b")])], &before);
    let error = run.answered(&body("{\"a\":1,\"b\":2}"), &no_selections()).err().unwrap();
    assert_eq!(error.message(), "初始化失败::key \"k\"冲突");
    assert!(!run.extracted().contains_key("j"));
    assert_eq!(run.extracted().get("k"), Some(Value::from(1)));
}

#[test]
fn setup_gives_each_key_of_each_step_one_value() {
    let mut before = ExtractMap::new();
    before.insert("z".to_string(), Value::from(0));
    let steps = vec![step(&[("a", "$.a"), ("b", "$.b")]), step(&[("c", "$.a")])];
    let mut run = SetupRun::new(steps, &before);
    assert!(run.answered(&body("{\"a\":1,\"b\":2}"), &no_selections()).is_ok());
    assert!(run.answered(&body("{\"a\":3}"), &no_selections()).is_ok());
    match run.next(&no_renderings()) {
        SetupAction::Finish(Some(map)) => {
            assert_eq!(map.to_object().to_string(), "{\"a\":1,\"b\":2,\"c\":3,\"z\":0}");
        }
        _ => panic!("the end was expected"),
    }
    let steps = vec![step(&[("a", "$.a")]), step(&[("a", "$.a")])];
    let mut run = SetupRun::new(steps, &before);
    assert!(run.answered(&body("{\"a\":1}"), &no_selections()).is_ok());
    let error = run.answered(&body("{\"a\":1}"), &no_selections()).err().unwrap();
    assert!(matches!(&error, SetupError::Conflict(key) if key == "a"));
}
