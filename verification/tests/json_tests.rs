use std::str::FromStr;

use xml_json::JsonValue;
use xml_json::Token;
use xml_json::TokenAttribute;
use xml_json::XmlDocument;

fn start(name: &str) -> Token {
    Token::StartElement { prefix: None, local: name.to_string(), attributes: Vec::new() }
}

fn text(t: &str) -> Token {
    Token::Characters { text: t.to_string() }
}

fn end(name: &str) -> Token {
    Token::EndElement { prefix: None, local: name.to_string() }
}

fn entries(v: &JsonValue) -> &Vec<(String, JsonValue)> {
    match v {
        JsonValue::Object(entries) => entries,
        _ => panic!("expected an object"),
    }
}

fn get<'a>(v: &'a JsonValue, key: &str) -> &'a JsonValue {
    let found = entries(v).iter().find(|(k, _)| k == key);
    match found {
        Some((_, value)) => value,
        None => panic!("missing key"),
    }
}

fn as_str(v: &JsonValue) -> &str {
    match v {
        JsonValue::Str(s) => s.as_str(),
        _ => panic!("expected a string"),
    }
}

fn as_array(v: &JsonValue) -> &Vec<JsonValue> {
    match v {
        JsonValue::Array(items) => items,
        _ => panic!("expected an array"),
    }
}

#[test]
fn example_note_projection() {
    let doc = XmlDocument::from_str("<note type=\"Reminder\">test</note>").unwrap();
    let json = doc.to_json();
    let top = entries(&json);
    assert_eq!(top.len(), 1);
    assert_eq!(top[0].0, "note");
    let note = &top[0].1;
    assert_eq!(entries(note).len(), 2);
    assert_eq!(as_str(get(note, "_")), "test");
    let attrs = get(note, "$");
    assert_eq!(entries(attrs).len(), 1);
    assert_eq!(as_str(get(attrs, "type")), "Reminder");
}

#[test]
fn duplicate_siblings_become_an_array() {
    let doc = XmlDocument::from_str("<a><b>x</b><b>y</b></a>").unwrap();
    let json = doc.to_json();
    let a = get(&json, "a");
    let b = as_array(get(a, "b"));
    assert_eq!(b.len(), 2);
    assert_eq!(as_str(get(&b[0], "_")), "x");
    assert_eq!(as_str(get(&b[1], "_")), "y");
}

#[test]
fn single_child_is_never_wrapped_in_an_array() {
    let doc = XmlDocument::from_str("<a><b>x</b></a>").unwrap();
    let json = doc.to_json();
    let a = get(&json, "a");
    let b = get(a, "b");
    assert!(matches!(b, JsonValue::Object(_)));
    assert_eq!(as_str(get(b, "_")), "x");
}

#[test]
fn three_repeated_children_keep_document_order() {
    let tokens = vec![
        start("a"),
        start("x"),
        text("v1"),
        end("x"),
        start("x"),
        text("v2"),
        end("x"),
        start("x"),
        text("v3"),
        end("x"),
        end("a"),
    ];
    let doc = XmlDocument::parse(tokens, true).unwrap();
    let json = doc.to_json();
    let xs = as_array(get(get(&json, "a"), "x"));
    assert_eq!(xs.len(), 3);
    assert_eq!(as_str(get(&xs[0], "_")), "v1");
    assert_eq!(as_str(get(&xs[1], "_")), "v2");
    assert_eq!(as_str(get(&xs[2], "_")), "v3");
}

#[test]
fn attribute_and_child_of_the_same_name_stay_apart() {
    let tokens = vec![
        Token::StartElement {
            prefix: None,
            local: "a".to_string(),
            attributes: vec![TokenAttribute {
                prefix: None,
                local: "x".to_string(),
                value: "1".to_string(),
            }],
        },
        start("x"),
        text("t"),
        end("x"),
        end("a"),
    ];
    let doc = XmlDocument::parse(tokens, true).unwrap();
    let json = doc.to_json();
    let a = get(&json, "a");
    let child = get(a, "x");
    assert!(matches!(child, JsonValue::Object(_)));
    assert_eq!(as_str(get(child, "_")), "t");
    let attrs = get(a, "$");
    assert_eq!(as_str(get(attrs, "x")), "1");
    assert_eq!(entries(a).len(), 2);
}

#[test]
fn child_keys_keep_document_order() {
    let doc = XmlDocument::from_str("<r>t<a>1</a><b>2</b><c>3</c></r>").unwrap();
    let json = doc.to_json();
    let r = entries(get(&json, "r"));
    assert_eq!(r.len(), 4);
    assert_eq!(r[0].0, "_");
    assert_eq!(r[1].0, "a");
    assert_eq!(r[2].0, "b");
    assert_eq!(r[3].0, "c");
}

#[test]
fn empty_element_projects_to_an_empty_object() {
    let doc = XmlDocument::from_str("<a></a>").unwrap();
    let json = doc.to_json();
    let a = get(&json, "a");
    assert_eq!(entries(a).len(), 0);
}

#[test]
fn repeated_root_names_merge_at_document_level() {
    let tokens = vec![start("a"), text("1"), end("a"), start("a"), text("2"), end("a")];
    let doc = XmlDocument::parse(tokens, true).unwrap();
    let json = doc.to_json();
    let roots = as_array(get(&json, "a"));
    assert_eq!(roots.len(), 2);
    assert_eq!(as_str(get(&roots[0], "_")), "1");
    assert_eq!(as_str(get(&roots[1], "_")), "2");
}

#[test]
fn repeated_attribute_names_merge_under_the_attribute_key() {
    let tokens = vec![
        Token::StartElement {
            prefix: None,
            local: "a".to_string(),
            attributes: vec![
                TokenAttribute { prefix: None, local: "k".to_string(), value: "1".to_string() },
                TokenAttribute { prefix: None, local: "k".to_string(), value: "2".to_string() },
            ],
        },
        end("a"),
    ];
    let doc = XmlDocument::parse(tokens, true).unwrap();
    let json = doc.to_json();
    let attrs = get(get(&json, "a"), "$");
    let ks = as_array(get(attrs, "k"));
    assert_eq!(ks.len(), 2);
    assert_eq!(as_str(&ks[0]), "1");
    assert_eq!(as_str(&ks[1]), "2");
}

#[test]
fn to_kv_pairs_name_with_projection() {
    let doc = XmlDocument::from_str("<note>test</note>").unwrap();
    let (name, value) = xml_json::to_kv(&doc.data[0]);
    assert_eq!(name, "note");
    assert_eq!(as_str(get(&value, "_")), "test");
}
