use xml_json::ErrorKind;
use xml_json::Token;
use xml_json::TokenAttribute;
use xml_json::XmlDocument;

fn start(name: &str) -> Token {
    Token::StartElement { prefix: None, local: name.to_string(), attributes: Vec::new() }
}

fn start_with_attrs(name: &str, attrs: &[(&str, &str)]) -> Token {
    let attributes = attrs
        .iter()
        .map(|(k, v)| TokenAttribute {
            prefix: None,
            local: k.to_string(),
            value: v.to_string(),
        })
        .collect();
    Token::StartElement { prefix: None, local: name.to_string(), attributes }
}

fn text(t: &str) -> Token {
    Token::Characters { text: t.to_string() }
}

fn end(name: &str) -> Token {
    Token::EndElement { prefix: None, local: name.to_string() }
}

#[test]
fn builds_single_element_with_attribute_and_text() {
    let tokens = vec![
        start_with_attrs("note", &[("type", "Reminder")]),
        text("test"),
        end("note"),
    ];
    let doc = XmlDocument::parse(tokens, true).unwrap();
    assert_eq!(doc.data.len(), 1);
    let e = &doc.data[0];
    assert_eq!(e.name, "note");
    assert_eq!(e.attributes, vec![("type".to_string(), "Reminder".to_string())]);
    assert_eq!(e.data, Some("test".to_string()));
    assert!(e.sub_elements.is_empty());
}

#[test]
fn trim_option_strips_only_when_set() {
    let tokens = vec![start("a"), text("  hello  "), end("a")];
    let doc = XmlDocument::parse(tokens, true).unwrap();
    assert_eq!(doc.data[0].data, Some("hello".to_string()));

    let tokens = vec![start("a"), text("  hello  "), end("a")];
    let doc = XmlDocument::parse(tokens, false).unwrap();
    assert_eq!(doc.data[0].data, Some("  hello  ".to_string()));
}

#[test]
fn mismatched_end_tag_is_fatal() {
    let tokens = vec![start("a"), end("b")];
    let err = XmlDocument::parse(tokens, true).unwrap_err();
    assert_eq!(
        err.kind,
        ErrorKind::MismatchedTag { expected: "a".to_string(), found: "b".to_string() }
    );
    assert_eq!(err.message(), "Could not parse string to XML: Invalid end tag: expected a, got b");
}

#[test]
fn unclosed_element_is_fatal() {
    let tokens = vec![start("a")];
    let err = XmlDocument::parse(tokens, true).unwrap_err();
    assert_eq!(err.kind, ErrorKind::UnclosedElement);
}

#[test]
fn unmatched_end_tag_is_fatal() {
    let tokens = vec![end("a")];
    let err = XmlDocument::parse(tokens, true).unwrap_err();
    assert_eq!(err.kind, ErrorKind::UnmatchedEndTag { found: "a".to_string() });
    assert_eq!(err.message(), "Could not parse string to XML: Invalid end tag: a");
}

#[test]
fn text_outside_element_is_fatal() {
    let tokens = vec![text("stray")];
    let err = XmlDocument::parse(tokens, true).unwrap_err();
    assert_eq!(err.kind, ErrorKind::TextOutsideElement);
    assert_eq!(err.message(), "Could not parse string to XML: Invalid form of XML doc");
}

#[test]
fn nested_elements_and_multiple_roots() {
    let tokens = vec![
        start("note"),
        text("test"),
        start("blah2"),
        text("TEST"),
        end("blah2"),
        end("note"),
        start("blah"),
        text("test1"),
        end("blah"),
    ];
    let doc = XmlDocument::parse(tokens, true).unwrap();
    assert_eq!(doc.data.len(), 2);
    assert_eq!(doc.data[0].name, "note");
    assert_eq!(doc.data[0].data, Some("test".to_string()));
    assert_eq!(doc.data[0].sub_elements.len(), 1);
    assert_eq!(doc.data[0].sub_elements[0].name, "blah2");
    assert_eq!(doc.data[0].sub_elements[0].data, Some("TEST".to_string()));
    assert_eq!(doc.data[1].name, "blah");
    assert_eq!(doc.data[1].data, Some("test1".to_string()));
}

#[test]
fn prefixed_names_are_qualified_by_concatenation() {
    let tokens = vec![
        Token::StartElement {
            prefix: Some("ns".to_string()),
            local: "item".to_string(),
            attributes: vec![TokenAttribute {
                prefix: Some("xml".to_string()),
                local: "lang".to_string(),
                value: "en".to_string(),
            }],
        },
        Token::EndElement { prefix: Some("ns".to_string()), local: "item".to_string() },
    ];
    let doc = XmlDocument::parse(tokens, true).unwrap();
    assert_eq!(doc.data[0].name, "ns:item");
    assert_eq!(doc.data[0].attributes, vec![("xml:lang".to_string(), "en".to_string())]);
}

#[test]
fn other_tokens_are_skipped() {
    let tokens = vec![Token::Other, start("a"), Token::Other, text("x"), end("a"), Token::Other];
    let doc = XmlDocument::parse(tokens, true).unwrap();
    assert_eq!(doc.data.len(), 1);
    assert_eq!(doc.data[0].data, Some("x".to_string()));
}

#[test]
fn last_characters_event_wins() {
    let tokens = vec![start("a"), text("first"), text("second"), end("a")];
    let doc = XmlDocument::parse(tokens, true).unwrap();
    assert_eq!(doc.data[0].data, Some("second".to_string()));
}
