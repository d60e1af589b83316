use xmlo3::{parse, Error, Mapping, RecursiveHashMap};

fn render(node: &RecursiveHashMap) -> String {
    match node {
        RecursiveHashMap::Value(text) => format!("{:?}", text),
        RecursiveHashMap::Object(mapping) => render_mapping(mapping),
    }
}

fn render_mapping(mapping: &Mapping) -> String {
    let mut parts: Vec<String> = mapping
        .entries()
        .iter()
        .map(|entry| format!("{:?}: {}", entry.0, render(&entry.1)))
        .collect();
    parts.sort();
    format!("{{{}}}", parts.join(", "))
}

fn built(doc: &str) -> String {
    let parts: Vec<String> = parse(doc.to_string()).unwrap().iter().map(render_mapping).collect();
    format!("[{}]", parts.join(", "))
}

#[test]
fn declaration_comments_and_instructions_are_passed_over() {
    let doc = "<?xml version=\"1.0\" encoding=\"UTF-8\"?>\n<!-- head -->\n<?pi data?>\n<a><!-- in --><b>x</b><?pi more?></a>\n<!-- tail -->\n";
    assert_eq!(built(doc), r#"[{"rootTagName": "a"}, {"b": "x"}]"#);
}

#[test]
fn prefixes_are_discarded() {
    let doc = "<ns:a xmlns:ns=\"urn:u\" ns:x=\"1\"><ns:b>t</ns:b><other:c>u</other:c></ns:a>";
    assert_eq!(built(doc), r#"[{"rootTagName": "a"}, {".ns": "urn:u", ".x": "1", "b": "t", "c": "u"}]"#);
}

#[test]
fn text_runs_across_markup_are_joined() {
    assert_eq!(built("<r><p>one<!-- c -->two<i/> three </p></r>"), r#"[{"rootTagName": "r"}, {"p": "one|two|three"}]"#);
}

#[test]
fn character_data_sections_are_passed_over() {
    assert_eq!(built("<r><p>a<![CDATA[zzz]]>b</p></r>"), r#"[{"rootTagName": "r"}, {"p": "a|b"}]"#);
    assert_eq!(built("<r><p><![CDATA[zzz]]></p></r>"), r#"[{"rootTagName": "r"}, {}]"#);
}

#[test]
fn indentation_between_elements_is_not_text() {
    let doc = "<note>\n  <to>Tove</to>\n  <from>Jani</from>\n  <body a=\"1\">\n    Hello\n    <b>World</b>\n  </body>\n</note>\n";
    assert_eq!(
        built(doc),
        r#"[{"rootTagName": "note"}, {"body": {"..cdata": "Hello", ".a": "1", "b": "World"}, "from": "Jani", "to": "Tove"}]"#
    );
}

#[test]
fn deep_nesting_is_rebuilt() {
    assert_eq!(
        built("<a><b><c><d><e>x</e></d></c></b></a>"),
        r#"[{"rootTagName": "a"}, {"b": {"c": {"d": {"e": "x"}}}}]"#
    );
}

#[test]
fn empty_document_builds_nothing() {
    assert_eq!(built(""), "[]");
    assert_eq!(built("<?xml version='1.0'?>"), "[]");
}

#[test]
fn byte_order_mark_is_skipped() {
    assert_eq!(built("\u{feff}<a>x</a>"), r#"[{"rootTagName": "a"}, {}]"#);
}

#[test]
fn second_root_is_a_lexical_error() {
    assert!(matches!(parse("<a/><b/>".to_string()), Err(Error::ParserError(_))));
}

#[test]
fn broken_markup_is_a_lexical_error() {
    assert!(matches!(parse("<a x=1></a>".to_string()), Err(Error::ParserError(_))));
    assert!(matches!(parse("<a><!- x --></a>".to_string()), Err(Error::ParserError(_))));
    assert!(matches!(parse("plain".to_string()), Err(Error::ParserError(_))));
}

#[test]
fn lexical_error_keeps_its_position() {
    match parse("<a>\n  <b x=1/>\n</a>".to_string()) {
        Err(Error::ParserError(error)) => {
            assert_eq!(error.pos().row, 2);
        },
        other => panic!("{:?}", other),
    }
}

#[test]
fn stray_closing_tag_inside_the_root_closes_the_root() {
    assert_eq!(built("<a><b>x</b></c>"), r#"[{"rootTagName": "a"}, {"b": "x"}]"#);
}

#[test]
fn unterminated_document_builds_no_root() {
    assert_eq!(built("<a><b>x</b>"), "[]");
}

#[test]
fn duplicate_attribute_keeps_the_later_value() {
    assert_eq!(built("<r><a x=\"1\" x=\"2\"/></r>"), r#"[{"rootTagName": "r"}, {"a": {".x": "2"}}]"#);
}

#[test]
fn attribute_order_in_the_document_does_not_matter() {
    assert_eq!(built("<r><a x=\"1\" y=\"2\"/></r>"), built("<r><a y=\"2\" x=\"1\"/></r>"));
}
