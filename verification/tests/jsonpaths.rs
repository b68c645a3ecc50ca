use atomic_bomb_engine::jsonpath::{is_plain_path, select, Selection};
use serde_json::Value;

fn doc(text: &str) -> Value {
    text.parse::<Value>().unwrap()
}

#[test]
fn plain_paths_are_told() {
    assert!(is_plain_path("$.code"));
    assert!(is_plain_path("$..book[0,1].title"));
    assert!(is_plain_path("$.book[?(@.price<10)]"));
    assert!(is_plain_path("$.book[?(@.price>=8.5 && @.kind=='a')].title"));
    assert!(is_plain_path("$.book[1:2]"));
    assert!(is_plain_path(&format!("$.{}", "a".repeat(1000))));
    assert!(is_plain_path(&".a".repeat(256)));
    assert!(!is_plain_path(&".a".repeat(257)));
}

#[test]
fn steps_of_slices_are_told() {
    assert!(is_plain_path("$[-3:-1:2]"));
    assert!(is_plain_path("$[1:]"));
    assert!(is_plain_path("$[:0]"));
    assert!(is_plain_path("$[::2]"));
    assert!(is_plain_path("$[1:2][0:0]"));
    assert!(is_plain_path("$['a::0']"));
    assert!(!is_plain_path("$[0:2:0]"));
    assert!(!is_plain_path("$[:: 0]"));
    assert!(!is_plain_path("$[1::+0]"));
}

#[test]
fn brackets_and_filters_are_told() {
    assert!(is_plain_path("$[?(@.a)][?(@.b)]"));
    assert!(is_plain_path("$[?(@.a=='x]')][0].b[1:2]"));
    assert!(is_plain_path("$[?(@['a']==\"it's [0]\")]['b','c']"));
    assert!(!is_plain_path("$[?(@[0]>1)]"));
    assert!(!is_plain_path("$[?(@..['a'])]"));
    assert!(!is_plain_path("$[?(@['a','b'])]"));
    assert!(!is_plain_path("$[?($.a)]"));
    assert!(!is_plain_path("$[?(@.a=='\\'x')][0]"));
    assert!(!is_plain_path("$[?(@.a'b)][0]"));
}

#[test]
fn numbers_in_filters_are_told() {
    assert!(!is_plain_path("$[?(@.a>1e999)]"));
    assert!(!is_plain_path("$[?(@.a>1.E999)]"));
    assert!(!is_plain_path("$[?(@.a>-inf)]"));
    assert!(!is_plain_path(&format!("$[?(@.a>{})]", "1".repeat(400))));
    assert!(is_plain_path(&format!("$[?(@.a=='{}')]", "1".repeat(400))));
    assert!(is_plain_path("$[?(@.h264x>-1.5)]"));
    assert!(is_plain_path("$[?(@.user-name=='e')].entry"));
}

#[test]
fn slices_and_filters_select() {
    let value = doc("[{\"p\":5},{\"p\":15},{\"p\":9}]");
    let none: Vec<Selection> = Vec::new();
    assert_eq!(
        select(&value, "$[?(@.p<10)].p", &none).unwrap().unwrap(),
        vec![Value::from(5), Value::from(9)]
    );
    assert_eq!(
        select(&value, "$[1:3].p", &none).unwrap().unwrap(),
        vec![Value::from(15), Value::from(9)]
    );
    assert_eq!(
        select(&value, "$[?(@['p']<10)][?(@.p>5)].p", &none).unwrap().unwrap(),
        vec![Value::from(9)]
    );
}

#[test]
fn select_finds_values() {
    let value = doc("{\"code\":2000000,\"list\":[1,2,3]}");
    let none: Vec<Selection> = Vec::new();
    assert_eq!(
        select(&value, "$.code", &none).unwrap().unwrap(),
        vec![Value::from(2000000)]
    );
    assert_eq!(select(&value, "$.list[*]", &none).unwrap().unwrap().len(), 3);
    assert_eq!(select(&value, "$.absent", &none).unwrap().unwrap().len(), 0);
}

#[test]
fn broken_path_is_an_error() {
    let value = doc("{}");
    let none: Vec<Selection> = Vec::new();
    let text = select(&value, "code", &none).unwrap().unwrap_err();
    assert!(text.contains("path"));
}

#[test]
fn other_paths_are_left_to_the_caller() {
    let value = doc("[1,2,3]");
    let none: Vec<Selection> = Vec::new();
    assert!(select(&value, "$[0:2:0]", &none).is_none());
    let supplied = vec![
        Selection { path: "$[?(@[0]>1)]".to_string(), outcome: Err("no".to_string()) },
        Selection {
            path: "$[0:2:0]".to_string(),
            outcome: Ok(vec![Value::from(1), Value::from(2)]),
        },
    ];
    assert_eq!(
        select(&value, "$[0:2:0]", &supplied).unwrap().unwrap(),
        vec![Value::from(1), Value::from(2)]
    );
    assert_eq!(select(&value, "$[?(@[0]>1)]", &supplied).unwrap().unwrap_err(), "no");
}
