use xmlo3::parser::{merge, parse_tokens, Error, TokenHanlder};
use xmlo3::token::{EndKind, XmlToken};
use xmlo3::tree::{Mapping, RecursiveHashMap};

fn render(node: &RecursiveHashMap) -> String {
    match node {
        RecursiveHashMap::Value(text) => format!("{:?}", text),
        RecursiveHashMap::Object(mapping) => render_mapping(mapping),
    }
}

fn render_mapping(mapping: &Mapping) -> String {
    let mut parts: Vec<String> = mapping
        .entries()
        .iter()
        .map(|entry| format!("{:?}: {}", entry.0, render(&entry.1)))
        .collect();
    parts.sort();
    format!("{{{}}}", parts.join(", "))
}

fn render_all(list: &[Mapping]) -> String {
    let parts: Vec<String> = list.iter().map(render_mapping).collect();
    format!("[{}]", parts.join(", "))
}

fn start(name: &str) -> Result<XmlToken, xmlparser::Error> {
    Ok(XmlToken::ElementStart { local: name.to_string() })
}

fn attr(name: &str, value: &str) -> Result<XmlToken, xmlparser::Error> {
    Ok(XmlToken::Attribute { local: name.to_string(), value: value.to_string() })
}

fn open() -> Result<XmlToken, xmlparser::Error> {
    Ok(XmlToken::ElementEnd { end: EndKind::Open })
}

fn close() -> Result<XmlToken, xmlparser::Error> {
    Ok(XmlToken::ElementEnd { end: EndKind::Close })
}

fn empty() -> Result<XmlToken, xmlparser::Error> {
    Ok(XmlToken::ElementEnd { end: EndKind::Empty })
}

fn text(run: &str) -> Result<XmlToken, xmlparser::Error> {
    Ok(XmlToken::Text { text: run.to_string() })
}

fn built(tokens: Vec<Result<XmlToken, xmlparser::Error>>) -> String {
    render_all(&parse_tokens(tokens).unwrap())
}

fn reason(tokens: Vec<Result<XmlToken, xmlparser::Error>>) -> &'static str {
    match parse_tokens(tokens) {
        Err(Error::MalformedXml(reason)) => reason,
        other => panic!("{:?}", other),
    }
}

#[test]
fn no_tokens_build_nothing() {
    assert_eq!(built(vec![]), "[]");
}

#[test]
fn single_empty_root_builds_marker_and_empty_body() {
    assert_eq!(built(vec![start("a"), empty()]), r#"[{"rootTagName": "a"}, {}]"#);
    assert_eq!(built(vec![start("a"), open(), close()]), r#"[{"rootTagName": "a"}, {}]"#);
}

#[test]
fn root_name_is_the_first_local_name() {
    let out = parse_tokens(vec![
        Ok(XmlToken::Other),
        text("  "),
        start("library"),
        open(),
        start("book"),
        open(),
        text("Dune"),
        close(),
        close(),
        Ok(XmlToken::Other),
    ])
    .unwrap();
    assert_eq!(out.len(), 2);
    assert_eq!(render_mapping(&out[0]), r#"{"rootTagName": "library"}"#);
    assert_eq!(render_mapping(&out[1]), r#"{"book": "Dune"}"#);
}

#[test]
fn attribute_order_does_not_matter() {
    let one = built(vec![start("r"), start("a"), attr("x", "1"), attr("y", "2"), attr("z", "3"), empty(), close()]);
    let two = built(vec![start("r"), start("a"), attr("z", "3"), attr("x", "1"), attr("y", "2"), empty(), close()]);
    assert_eq!(one, two);
    assert_eq!(one, r#"[{"rootTagName": "r"}, {"a": {".x": "1", ".y": "2", ".z": "3"}}]"#);
}

#[test]
fn later_attribute_with_same_name_stays() {
    assert_eq!(
        built(vec![start("a"), attr("x", "1"), attr("x", "2"), empty()]),
        r#"[{"rootTagName": "a"}, {".x": "2"}]"#
    );
    assert_eq!(
        built(vec![start("a"), attr("x", "2"), attr("x", "1"), empty()]),
        r#"[{"rootTagName": "a"}, {".x": "1"}]"#
    );
}

#[test]
fn attribute_values_are_trimmed() {
    assert_eq!(
        built(vec![start("a"), attr("x", " \t 1 2 \n"), empty()]),
        r#"[{"rootTagName": "a"}, {".x": "1 2"}]"#
    );
}

#[test]
fn text_runs_are_joined_in_order() {
    let tokens = vec![
        start("r"),
        open(),
        start("p"),
        open(),
        text(" one "),
        Ok(XmlToken::Other),
        text("\n\t "),
        text("two"),
        start("i"),
        empty(),
        text(" three"),
        close(),
        close(),
    ];
    assert_eq!(built(tokens), r#"[{"rootTagName": "r"}, {"p": "one|two|three"}]"#);
}

#[test]
fn blank_text_is_never_kept() {
    let tokens = vec![start("r"), open(), start("p"), open(), text(" \n "), text("\u{3000}\u{a0}"), close(), close()];
    assert_eq!(built(tokens), r#"[{"rootTagName": "r"}, {}]"#);
}

#[test]
fn text_outside_any_element_is_dropped() {
    assert_eq!(built(vec![text("stray"), start("a"), empty(), text("more")]), r#"[{"rootTagName": "a"}, {}]"#);
}

#[test]
fn element_without_content_adds_no_key() {
    let tokens = vec![start("a"), open(), start("b"), open(), text("  "), Ok(XmlToken::Other), close(), start("c"), empty(), close()];
    let out = parse_tokens(tokens).unwrap();
    assert!(!out[1].contains_key("b"));
    assert!(!out[1].contains_key("c"));
    assert!(out[1].is_empty());
}

#[test]
fn element_with_text_only_is_a_value() {
    let out = parse_tokens(vec![start("a"), open(), start("b"), open(), text("x"), close(), close()]).unwrap();
    assert!(matches!(out[1].get("b"), Some(RecursiveHashMap::Value(t)) if t == "x"));
}

#[test]
fn element_with_children_only_is_an_object() {
    let tokens = vec![start("a"), open(), start("b"), open(), start("c"), open(), text("x"), close(), close(), close()];
    assert_eq!(built(tokens), r#"[{"rootTagName": "a"}, {"b": {"c": "x"}}]"#);
}

#[test]
fn element_with_attribute_only_is_an_object() {
    let tokens = vec![start("a"), open(), start("b"), attr("k", "v"), empty(), close()];
    assert_eq!(built(tokens), r#"[{"rootTagName": "a"}, {"b": {".k": "v"}}]"#);
}

#[test]
fn element_with_text_and_children_keeps_text_under_reserved_key() {
    let tokens = vec![
        start("a"),
        open(),
        start("b"),
        open(),
        text("t1"),
        start("c"),
        open(),
        text("x"),
        close(),
        text("t2"),
        close(),
        close(),
    ];
    assert_eq!(built(tokens), r#"[{"rootTagName": "a"}, {"b": {"..cdata": "t1|t2", "c": "x"}}]"#);
}

#[test]
fn text_of_the_root_is_not_kept() {
    let tokens = vec![start("a"), open(), text("hi"), start("b"), open(), text("x"), close(), close()];
    assert_eq!(built(tokens), r#"[{"rootTagName": "a"}, {"b": "x"}]"#);
}

#[test]
fn later_sibling_with_same_name_stays() {
    let tokens = vec![
        start("a"),
        open(),
        start("b"),
        open(),
        text("first"),
        close(),
        start("b"),
        open(),
        text("second"),
        close(),
        close(),
    ];
    assert_eq!(built(tokens), r#"[{"rootTagName": "a"}, {"b": "second"}]"#);
}

#[test]
fn second_root_gets_no_marker_and_loses_its_name_entry() {
    let tokens = vec![start("a"), attr("x", "1"), empty(), start("b"), attr("y", "2"), empty()];
    assert_eq!(built(tokens), r#"[{"rootTagName": "a"}, {".x": "1"}, {".y": "2"}]"#);
}

#[test]
fn elements_left_open_are_not_in_the_result() {
    assert_eq!(built(vec![start("a"), open(), start("b"), open(), text("x")]), "[]");
    assert_eq!(built(vec![start("a"), empty(), start("b"), open()]), r#"[{"rootTagName": "a"}, {}]"#);
}

#[test]
fn end_of_a_start_tag_changes_nothing() {
    assert_eq!(built(vec![open(), start("a"), open(), open(), close()]), r#"[{"rootTagName": "a"}, {}]"#);
}

#[test]
fn closing_without_open_element_is_malformed() {
    assert_eq!(reason(vec![close()]), "unmatched close");
    assert_eq!(reason(vec![empty()]), "unmatched close");
    assert_eq!(reason(vec![start("a"), empty(), close(), start("b")]), "unmatched close");
}

#[test]
fn attribute_without_open_element_is_malformed() {
    assert_eq!(reason(vec![attr("x", "1")]), "attribute outside open element");
    assert_eq!(reason(vec![start("a"), empty(), attr("x", "1")]), "attribute outside open element");
}

#[test]
fn child_that_replaces_the_name_entry_by_an_object_is_malformed() {
    let inner = vec![start("$key"), open(), start("c"), open(), text("x"), close(), close()];
    let mut root = vec![start("a"), open()];
    root.extend(inner.clone());
    root.push(close());
    assert_eq!(reason(root), "Root key must be a string");
    let mut nested = vec![start("r"), open(), start("a"), open()];
    nested.extend(inner);
    nested.push(close());
    nested.push(close());
    assert_eq!(reason(nested), "$key must be a string");
}

#[test]
fn child_named_like_the_name_entry_renames_its_parent() {
    let tokens = vec![start("a"), open(), start("$key"), open(), text("x"), close(), close()];
    assert_eq!(built(tokens), r#"[{"rootTagName": "x"}, {}]"#);
}

#[test]
fn lexical_error_stops_the_run() {
    let error = xmlparser::Error::UnknownToken(xmlparser::TextPos::new(3, 7));
    let out = parse_tokens(vec![start("a"), open(), Err(error), close()]);
    match out {
        Err(Error::ParserError(got)) => assert_eq!(got, error),
        other => panic!("{:?}", other),
    }
}

#[test]
fn first_fault_wins() {
    let error = xmlparser::Error::UnknownToken(xmlparser::TextPos::new(1, 1));
    assert_eq!(reason(vec![close(), Err(error)]), "unmatched close");
    assert!(matches!(parse_tokens(vec![Err(error), close()]), Err(Error::ParserError(_))));
}

#[test]
fn handler_takes_events_one_by_one() {
    let mut handler = TokenHanlder::new();
    handler.handle_elem_start("a");
    assert!(handler.handle_attribute("id", " 7 ").is_ok());
    assert!(handler.handle_elem_end(EndKind::Open).is_ok());
    handler.handle_text("  hello ");
    handler.handle_elem_start("b");
    handler.handle_text("x");
    assert!(handler.handle_close_empty().is_ok());
    assert!(handler.handle_token(Ok(XmlToken::Other)).is_ok());
    assert!(handler.handle_token(Ok(XmlToken::ElementEnd { end: EndKind::Close })).is_ok());
    let out = handler.into_body();
    assert_eq!(render_all(&out), r#"[{"rootTagName": "a"}, {".id": "7", "b": "x"}]"#);
}

#[test]
fn handler_reports_unmatched_close_and_goes_on() {
    let mut handler = TokenHanlder::new();
    assert!(matches!(handler.handle_close_empty(), Err(Error::MalformedXml("unmatched close"))));
    assert!(matches!(
        handler.handle_attribute("x", "1"),
        Err(Error::MalformedXml("attribute outside open element"))
    ));
    handler.handle_text("dropped");
    handler.handle_elem_start("a");
    assert!(handler.handle_elem_end(EndKind::Empty).is_ok());
    assert_eq!(render_all(&handler.into_body()), r#"[{"rootTagName": "a"}, {}]"#);
}

#[test]
fn merge_follows_the_four_cases() {
    let mut entries = Mapping::new();
    entries.insert("c".to_string(), RecursiveHashMap::Value("x".to_string()));
    assert!(merge(String::new(), Mapping::new()).is_none());
    assert_eq!(render(&merge("t".to_string(), Mapping::new()).unwrap()), r#""t""#);
    assert_eq!(render(&merge(String::new(), entries.clone()).unwrap()), r#"{"c": "x"}"#);
    assert_eq!(render(&merge("t".to_string(), entries).unwrap()), r#"{"..cdata": "t", "c": "x"}"#);
}

#[test]
fn error_converts_from_lexical_error() {
    let error = xmlparser::Error::UnknownToken(xmlparser::TextPos::new(2, 5));
    assert!(matches!(Error::from(error), Error::ParserError(got) if got == error));
}
