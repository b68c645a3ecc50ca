use atomic_bomb_engine::template::{
    fill, fill_if, is_plain_template, render_with, Rendering,
};
use serde_json::Value;

fn data(pairs: &[(&str, Value)]) -> Value {
    let mut map: serde_json::Map<String, Value> = serde_json::Map::new();
    for (key, value) in pairs {
        map.insert(key.to_string(), value.clone());
    }
    Value::Object(map)
}

#[test]
fn plain_templates_hold_simple_expressions() {
    assert!(is_plain_template(""));
    assert!(is_plain_template("no braces at all #>*/(["));
    assert!(is_plain_template("/users/{{id}}"));
    assert!(is_plain_template("{{{raw}}} {{~ spaced ~}} {{a/b.c}}"));
    assert!(is_plain_template("{\"a\":\"{{b}}\",\"c\":[1,2]}"));
}

#[test]
fn blocks_and_nesting_are_plain() {
    assert!(is_plain_template("{{#if a}}b{{/if}}"));
    assert!(is_plain_template("{{#each x}}{{this}}{{else}}none{{/each}}"));
    assert!(is_plain_template("{{len (lookup a b)}}"));
    assert!(is_plain_template("{{a.[b]}}"));
    assert!(is_plain_template("{{lookup a \"b\"}}"));
    assert!(is_plain_template("{{lookup a 'b'}}"));
    assert!(is_plain_template("{{a {}(b c)}}"));
}

#[test]
fn decorators_and_blocks_of_partials_are_not_plain() {
    assert!(!is_plain_template("{{*deco}}"));
    assert!(!is_plain_template("{{#*inline \"a\"}}{{/inline}}"));
    assert!(!is_plain_template("{{#> part}}{{/part}}"));
    assert!(!is_plain_template("{{ ~ # > part}}"));
    assert!(is_plain_template("{{> part}}"));
    assert!(is_plain_template("{{ ~ > part}}"));
}

#[test]
fn unknown_partial_stays_as_it_is() {
    let values = data(&[("a", Value::from(true))]);
    let none: Vec<Rendering> = Vec::new();
    assert_eq!(fill("{{> part}}", &values, &none), Some("{{> part}}".to_string()));
    let hidden = "{{#if b}}{{> part}}{{else}}no{{/if}}";
    assert_eq!(fill(hidden, &values, &none), Some("no".to_string()));
}

#[test]
fn conditional_branches_behind_a_tilde_are_not_plain() {
    assert!(!is_plain_template("{{#if a}}x{{~else if b}}y{{/if}}"));
    assert!(!is_plain_template("{{#if a}}x{{ ~ ^if b}}y{{/if}}"));
    assert!(!is_plain_template("{{#if a}}{{~elsewhere}}{{/if}}"));
    assert!(is_plain_template("{{~elsewhere}}"));
    assert!(is_plain_template("{{#if a}}x{{~ else }}y{{/if}}"));
    assert!(is_plain_template("{{#if a}}x{{else if b~}}y{{/if}}"));
    assert!(is_plain_template("{{#if a}}x{{~else~}}y{{/if}}"));
    assert!(is_plain_template("{{#if a}}x{{~^}}y{{/if}}"));
}

#[test]
fn many_nestings_are_not_plain() {
    let nested = |open: &str, close: &str, depth: usize| {
        format!("{{{{{}a{}}}}}", open.repeat(depth), close.repeat(depth))
    };
    assert!(is_plain_template(&nested("not (", ")", 32)));
    assert!(!is_plain_template(&nested("not (", ")", 33)));
    assert!(!is_plain_template(&format!("{{{{not {{}}{}a", "(not ".repeat(40))));
    assert!(!is_plain_template(&"{{#if a}}".repeat(33)));
    assert!(is_plain_template(&"(".repeat(100)));
}

#[test]
fn blocks_are_filled_in() {
    let values = data(&[("a", Value::from(true)), ("b", Value::from("x"))]);
    let none: Vec<Rendering> = Vec::new();
    assert_eq!(fill("{{#if a}}yes{{else}}no{{/if}}", &values, &none), Some("yes".to_string()));
    assert_eq!(fill("{{#if c}}yes{{else}}no{{/if}}", &values, &none), Some("no".to_string()));
    assert_eq!(
        fill("{{#if c}}x {{~else~}} y{{/if}}", &values, &none),
        Some("y".to_string())
    );
    assert_eq!(fill("{{lookup this \"b\"}}", &values, &none), Some("x".to_string()));
    assert_eq!(fill("{{not (not a)}}", &values, &none), Some("true".to_string()));
    assert_eq!(fill("{{a {}(b c)}}", &values, &none), Some("{{a {}(b c)}}".to_string()));
}

#[test]
fn fill_puts_values_in() {
    let values = data(&[("test-code", Value::from(2000000)), ("msg", Value::from("a<b"))]);
    let none: Vec<Rendering> = Vec::new();
    assert_eq!(
        fill("/jump/{{test-code}}", &values, &none),
        Some("/jump/2000000".to_string())
    );
    assert_eq!(fill("{{msg}}", &values, &none), Some("a&lt;b".to_string()));
    assert_eq!(fill("{{{msg}}}", &values, &none), Some("a<b".to_string()));
    assert_eq!(fill("{{absent}}!", &values, &none), Some("!".to_string()));
}

#[test]
fn broken_template_stays_as_it_is() {
    let values = data(&[]);
    let none: Vec<Rendering> = Vec::new();
    assert_eq!(fill("{{ open", &values, &none), Some("{{ open".to_string()));
    assert_eq!(render_with("{{ open", &values, &none), Some(None));
}

#[test]
fn other_templates_are_left_to_the_caller() {
    let values = data(&[("a", Value::from(true))]);
    let block = "{{#> part}}a{{/part}}";
    let none: Vec<Rendering> = Vec::new();
    assert_eq!(fill(block, &values, &none), None);
    let supplied = vec![
        Rendering { template: "{{#> x}}a{{/x}}".to_string(), text: None },
        Rendering { template: block.to_string(), text: Some("yes".to_string()) },
        Rendering { template: block.to_string(), text: Some("later".to_string()) },
    ];
    assert_eq!(fill(block, &values, &supplied), Some("yes".to_string()));
    assert_eq!(fill("{{#> x}}a{{/x}}", &values, &supplied), Some("{{#> x}}a{{/x}}".to_string()));
}

#[test]
fn fill_only_where_asked() {
    let values = data(&[("a", Value::from(1))]);
    let none: Vec<Rendering> = Vec::new();
    assert_eq!(fill_if(false, "{{a}}", &values, &none), Some("{{a}}".to_string()));
    assert_eq!(fill_if(true, "{{a}}", &values, &none), Some("1".to_string()));
    assert_eq!(fill_if(false, "{{*a}}", &values, &none), Some("{{*a}}".to_string()));
}
