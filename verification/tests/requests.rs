use atomic_bomb_engine::extract_map::ExtractMap;
use atomic_bomb_engine::models::{ApiEndpoint, SetupApiEndpoint};
use atomic_bomb_engine::net::headers_size;
use atomic_bomb_engine::request::{prepare_endpoint, prepare_setup, RequestError};
use atomic_bomb_engine::template::Rendering;
use reqwest::header::{HeaderMap, HeaderValue};
use serde_json::Value;

fn endpoint() -> ApiEndpoint {
    ApiEndpoint {
        name: "test-1".to_string(),
        url: "http://127.0.0.1:8080/direct".to_string(),
        method: "post".to_string(),
        weight: 1,
        json: None,
        form_data: None,
        multipart_options: None,
        headers: None,
        cookies: None,
        assert_options: None,
        think_time_option: None,
        setup_options: None,
    }
}

fn setup() -> SetupApiEndpoint {
    SetupApiEndpoint {
        name: "init".to_string(),
        url: "http://127.0.0.1:8080/list".to_string(),
        method: "get".to_string(),
        json: None,
        form_data: None,
        multipart_options: None,
        headers: None,
        cookies: None,
        jsonpath_extract: None,
    }
}

fn pairs(list: &[(&str, &str)]) -> Option<Vec<(String, String)>> {
    Some(list.iter().map(|(a, b)| (a.to_string(), b.to_string())).collect())
}

fn values() -> ExtractMap {
    let mut map = ExtractMap::new();
    map.insert("token".to_string(), Value::from("t1"));
    map.insert("n".to_string(), Value::from(7));
    map
}

fn none() -> Vec<Rendering> {
    Vec::new()
}

#[test]
fn endpoint_is_sent_word_for_word_without_rendering() {
    let mut e = endpoint();
    e.json = Some("{\"name\":\"{{n}}\",\"number\":10086}".parse::<Value>().unwrap());
    e.headers = pairs(&[("X-Token", "{{token}}"), ("x-token", "two")]);
    e.cookies = Some("c={{n}}".to_string());
    e.form_data = pairs(&[("k", "{{n}}")]);
    let plan = prepare_endpoint(&e, false, false, &values(), &none()).ok().unwrap();
    assert_eq!(plan.method.as_str(), "POST");
    assert_eq!(plan.url, "http://127.0.0.1:8080/direct");
    let tokens: Vec<&HeaderValue> = plan.headers.get_all("x-token").iter().collect();
    assert_eq!(tokens, vec!["{{token}}", "two"]);
    assert_eq!(plan.headers.get("cookie").unwrap(), "c={{n}}");
    assert_eq!(plan.json.unwrap().to_string(), "{\"name\":\"{{n}}\",\"number\":10086}");
    assert_eq!(plan.form, pairs(&[("k", "{{n}}")]));
}

#[test]
fn endpoint_is_filled_in_with_rendering() {
    let mut e = endpoint();
    e.url = "http://h/{{n}}".to_string();
    e.json = Some("{\"name\":\"{{n}}\"}".parse::<Value>().unwrap());
    e.headers = pairs(&[("X-Token", "{{token}}"), ("cookie", "old=1")]);
    e.cookies = Some("c={{n}}".to_string());
    e.form_data = pairs(&[("k", "{{n}}"), ("l", "{{ broken")]);
    let plan = prepare_endpoint(&e, true, true, &values(), &none()).ok().unwrap();
    assert_eq!(plan.url, "http://h/{{n}}");
    assert_eq!(plan.headers.get("x-token").unwrap(), "t1");
    let cookies: Vec<&HeaderValue> = plan.headers.get_all("cookie").iter().collect();
    assert_eq!(cookies, vec!["c=7"]);
    assert_eq!(plan.json.unwrap().to_string(), "{\"name\":\"7\"}");
    assert_eq!(plan.form, pairs(&[("k", "7"), ("l", "{{ broken")]));
}

#[test]
fn form_alone_is_filled_in_after_an_endpoint_setup() {
    let mut e = endpoint();
    e.headers = pairs(&[("x", "{{n}}")]);
    e.form_data = pairs(&[("k", "{{n}}")]);
    let plan = prepare_endpoint(&e, false, true, &values(), &none()).ok().unwrap();
    assert_eq!(plan.headers.get("x").unwrap(), "{{n}}");
    assert_eq!(plan.form, pairs(&[("k", "7")]));
}

#[test]
fn impossible_method_is_an_error() {
    let mut e = endpoint();
    e.method = "GE T".to_string();
    let error = prepare_endpoint(&e, false, false, &values(), &none()).err().unwrap();
    assert!(matches!(error, RequestError::BadMethod));
    assert_eq!(error.message(), "构建请求方法失败");
    assert!(!error.is_fatal());
    e.method = "".to_string();
    assert!(prepare_endpoint(&e, false, false, &values(), &none()).is_err());
    e.method = "propfind".to_string();
    let plan = prepare_endpoint(&e, false, false, &values(), &none()).ok().unwrap();
    assert_eq!(plan.method.as_str(), "PROPFIND");
}

#[test]
fn impossible_headers_are_fatal() {
    let mut e = endpoint();
    e.headers = pairs(&[("bad name", "x")]);
    let error = prepare_endpoint(&e, false, false, &values(), &none()).err().unwrap();
    assert!(matches!(&error, RequestError::BadHeaderName(name) if name == "bad name"));
    assert_eq!(error.message(), "无效的header名称");
    assert!(error.is_fatal());
    e.headers = pairs(&[("good", "a\nb")]);
    let error = prepare_endpoint(&e, false, false, &values(), &none()).err().unwrap();
    assert!(matches!(&error, RequestError::BadHeaderValue(text) if text == "a\nb"));
    assert_eq!(error.message(), "无效的header值");
    assert!(error.is_fatal());
}

#[test]
fn too_many_headers_are_fatal() {
    let mut e = endpoint();
    e.headers = Some((0..33000).map(|i| (format!("h{}", i), "v".to_string())).collect());
    let error = prepare_endpoint(&e, false, false, &values(), &none()).err().unwrap();
    assert!(matches!(error, RequestError::TooManyHeaders));
    assert_eq!(error.message(), "size overflows MAX_SIZE");
    assert!(error.is_fatal());
}

#[test]
fn impossible_cookies_are_an_error() {
    let mut e = endpoint();
    e.cookies = Some("a\u{7f}".to_string());
    let error = prepare_endpoint(&e, false, false, &values(), &none()).err().unwrap();
    assert!(matches!(error, RequestError::BadCookie));
    assert_eq!(error.message(), "设置cookie失败:InvalidHeaderValue");
    assert!(!error.is_fatal());
}

#[test]
fn broken_json_is_an_error() {
    let mut e = endpoint();
    e.json = Some(Value::from("{{{q}}}"));
    let mut map = ExtractMap::new();
    map.insert("q".to_string(), Value::from("\""));
    let error = prepare_endpoint(&e, true, true, &map, &none()).err().unwrap();
    let text = error.message();
    assert!(text.starts_with("转换json失败:Error("));
    assert!(text.ends_with(", 原始json: \"\\\"\\\"\\\"\""));
}

#[test]
fn renderings_are_asked_for() {
    let mut e = endpoint();
    e.cookies = Some("{{#> part}}a{{/part}}".to_string());
    let error = prepare_endpoint(&e, true, true, &values(), &none()).err().unwrap();
    assert!(matches!(&error, RequestError::Unrendered(t) if t == "{{#> part}}a{{/part}}"));
    let supplied = vec![Rendering {
        template: "{{#> part}}a{{/part}}".to_string(),
        text: Some("a".to_string()),
    }];
    let plan = prepare_endpoint(&e, true, true, &values(), &supplied).ok().unwrap();
    assert_eq!(plan.headers.get("cookie").unwrap(), "a");
}

#[test]
fn setup_fills_in_everything() {
    let mut s = setup();
    s.headers = pairs(&[("A", "{{token}}"), ("a", "{{ broken"), ("b", "ü{{n}}")]);
    s.cookies = Some("c={{n}}".to_string());
    s.json = Some("{\"v\":\"{{n}}\"}".parse::<Value>().unwrap());
    s.form_data = pairs(&[("k", "{{token}}")]);
    let plan = prepare_setup(&s, &values(), &none()).ok().unwrap();
    assert_eq!(plan.method.as_str(), "GET");
    let first: Vec<&HeaderValue> = plan.headers.get_all("a").iter().collect();
    assert_eq!(first, vec!["t1", "{{ broken"]);
    assert_eq!(plan.headers.get("b").unwrap().as_bytes(), "ü{{n}}".as_bytes());
    assert_eq!(plan.headers.get("cookie").unwrap(), "c=7");
    assert_eq!(plan.json.unwrap().to_string(), "{\"v\":\"7\"}");
    assert_eq!(plan.form, pairs(&[("k", "t1")]));
}

#[test]
fn setup_headers_can_be_filled_in_wrongly() {
    let mut s = setup();
    let mut map = ExtractMap::new();
    map.insert("nl".to_string(), Value::from("a\nb"));
    s.headers = pairs(&[("a", "{{nl}}")]);
    let error = prepare_setup(&s, &map, &none()).err().unwrap();
    assert!(matches!(&error, RequestError::BadHeaderValue(t) if t == "a\nb"));
    s.headers = pairs(&[("a", "{{#> x}}a{{/x}}")]);
    let error = prepare_setup(&s, &map, &none()).err().unwrap();
    assert!(matches!(&error, RequestError::Unrendered(t) if t == "{{#> x}}a{{/x}}"));
}

#[test]
fn headers_are_measured() {
    let mut headers = HeaderMap::new();
    assert_eq!(headers_size(&headers), 0);
    headers.append("a", HeaderValue::from_static("12"));
    headers.append("a", HeaderValue::from_static("3"));
    headers.append("host", HeaderValue::from_static("h"));
    assert_eq!(headers_size(&headers), (1 + 2 + 2 + 2) + (1 + 2 + 1 + 2) + (4 + 2 + 1 + 2));
}

#[test]
fn headers_of_one_name_do_not_crowd() {
    let mut e = endpoint();
    e.headers = Some(
        (0..7000)
            .map(|i| (if i % 2 == 0 { "x-a" } else { "X-A" }.to_string(), i.to_string()))
            .collect(),
    );
    let plan = prepare_endpoint(&e, false, false, &values(), &none()).ok().unwrap();
    assert_eq!(plan.headers.get_all("x-a").iter().count(), 7000);
}
