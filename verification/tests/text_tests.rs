use std::str::FromStr;

use xml_json::XmlDocument;
use xml_json::attributes_to_string;
use xml_json::indent;

#[test]
fn indent_is_four_spaces_per_level() {
    assert_eq!(indent(0), "");
    assert_eq!(indent(1), "    ");
    assert_eq!(indent(3), "            ");
}

#[test]
fn attributes_render_space_separated() {
    let attrs = vec![
        ("type".to_string(), "Reminder".to_string()),
        ("lang".to_string(), "en".to_string()),
    ];
    assert_eq!(attributes_to_string(&attrs), " type=\"Reminder\" lang=\"en\"");
    assert_eq!(attributes_to_string(&[]), "");
}

#[test]
fn format_renders_indented_tags_text_and_children() {
    let doc = XmlDocument::from_str("<note type=\"Reminder\">test</note>").unwrap();
    let rendered = xml_json::text::format(&doc.data[0], 0);
    assert_eq!(rendered, "<note type=\"Reminder\">\n    test\n</note>\n");

    let doc = XmlDocument::from_str("<a><b>x</b></a>").unwrap();
    let rendered = xml_json::text::format(&doc.data[0], 0);
    assert_eq!(rendered, "<a>\n    <b>\n        x\n    </b>\n\n</a>\n");
}

#[test]
fn document_renders_each_root_in_order() {
    let doc = XmlDocument::from_str("<a>1</a>").unwrap();
    assert_eq!(doc.to_xml_string(), "<a>\n    1\n</a>\n");
}
